//! The event records of the extracted dataset: one row per coded clinical
//! event, with dates held as day numbers (days from the common era).

use vstd::prelude::*;

use crate::idset::IdSet;
use crate::read2::{CodeRubric, CodeSet, ReadCode, Thesaurus};

verus! {

/// A subject (patient) identifier.
pub type PatientId = u64;

/// A calendar date as a day number: days from the common era, as chrono
/// counts them (day 1 is 0001-01-01).
pub type Day = u64;

/// The day number of 1900-01-01, the placeholder the source data uses for a
/// missing date.
pub const DAY_1900_01_01: u64 = 693596;

/// The day number of 2021-11-17, the date the dataset was extracted.
pub const DAY_OF_EXTRACT: u64 = 738111;

/// The date the dataset was extracted, as a day number.
pub fn date_of_extract() -> (r: Day)
    ensures
        r == DAY_OF_EXTRACT,
{
    DAY_OF_EXTRACT
}

/// A row in the events dataset.
#[derive(Debug, Clone)]
pub struct Event {
    pub patient_id: PatientId,
    pub date: Day,
    pub read_code: ReadCode,
    pub rubric: String,
    pub code_value: Option<String>,
    pub code_units: Option<String>,
    pub source: String,
}

impl Event {
    /// Extract the Read code and free text from this event.
    pub fn code_rubric(&self) -> (r: CodeRubric)
        ensures
            r.code == self.read_code,
            r.rubric@ == self.rubric@,
    {
        CodeRubric { code: self.read_code, rubric: self.rubric.clone() }
    }
}

/// The parsed list of events.
#[derive(Debug)]
pub struct Events {
    els: Vec<Event>,
}

impl View for Events {
    type V = Seq<Event>;

    closed spec fn view(&self) -> Seq<Event> {
        self.els@
    }
}

/// The set of dates of the events of one patient whose codes are in the
/// set, ignoring the missing-date placeholder.
pub open spec fn spec_patient_dates(events: Seq<Event>, id: PatientId) -> Set<Day> {
    Set::new(|d: Day| exists|k: int| 0 <= k < events.len() && (#[trigger] events[k]).patient_id
        == id && events[k].date == d && events[k].date != DAY_1900_01_01)
}

impl Events {
    /// Wrap a list of events.
    pub fn from_vec(els: Vec<Event>) -> (r: Events)
        ensures
            r@ == els@,
    {
        Events { els }
    }

    pub fn len(&self) -> (r: usize)
        ensures
            r == self@.len(),
    {
        self.els.len()
    }

    /// The events, in dataset order.
    pub fn iter(&self) -> (r: &Vec<Event>)
        ensures
            r@ == self@,
    {
        &self.els
    }

    /// The events recorded for one patient, in dataset order.
    pub fn events_for_patient(&self, patient_id: PatientId) -> (r: Vec<Event>)
        ensures
            r@ =~= self@.filter(patient_pred(patient_id)),
    {
        let ghost pred = patient_pred(patient_id);
        let n = self.els.len();
        let mut out: Vec<Event> = Vec::new();
        let mut i: usize = 0;
        while i < n
            invariant
                0 <= i <= n,
                n == self@.len(),
                pred == patient_pred(patient_id),
                out@ =~= self@.take(i as int).filter(pred),
            decreases n - i,
        {
            proof {
                self@.take(i as int).lemma_filter_push(self@[i as int], pred);
                assert(self@.take(i + 1) =~= self@.take(i as int).push(self@[i as int]));
            }
            if self.els[i].patient_id == patient_id {
                let e = clone_event(&self.els[i]);
                out.push(e);
            }
            i += 1;
        }
        proof {
            assert(self@.take(n as int) =~= self@);
        }
        out
    }

    /// Only the events whose Read codes are in the code set.
    pub fn filter_by_codeset(&self, codeset: &CodeSet) -> (r: Events)
        ensures
            r@ =~= self@.filter(codeset_pred(*codeset)),
    {
        let ghost pred = codeset_pred(*codeset);
        let n = self.els.len();
        let mut out: Vec<Event> = Vec::new();
        let mut i: usize = 0;
        while i < n
            invariant
                0 <= i <= n,
                n == self@.len(),
                pred == codeset_pred(*codeset),
                out@ =~= self@.take(i as int).filter(pred),
            decreases n - i,
        {
            proof {
                self@.take(i as int).lemma_filter_push(self@[i as int], pred);
                assert(self@.take(i + 1) =~= self@.take(i as int).push(self@[i as int]));
            }
            if codeset.contains(self.els[i].read_code) {
                let e = clone_event(&self.els[i]);
                out.push(e);
            }
            i += 1;
        }
        proof {
            assert(self@.take(n as int) =~= self@);
        }
        Events { els: out }
    }

    /// The earliest recorded date for a patient, ignoring the 1900-01-01
    /// placeholder that stands for a missing date. `None` when the patient
    /// has no event with a usable date.
    pub fn earliest_event_for_patient(&self, id: PatientId) -> (r: Option<Day>)
        ensures
            r matches Some(d) ==> spec_patient_dates(self@, id).contains(d) && forall|d2: Day|
                spec_patient_dates(self@, id).contains(d2) ==> d <= d2,
            r is None ==> spec_patient_dates(self@, id) =~= Set::<Day>::empty(),
    {
        let n = self.els.len();
        let mut best: Option<Day> = None;
        let mut i: usize = 0;
        while i < n
            invariant
                0 <= i <= n,
                n == self@.len(),
                best matches Some(d) ==> spec_patient_dates(self@, id).contains(d)
                    && forall|k: int| 0 <= k < i && (#[trigger] self@[k]).patient_id == id
                    && self@[k].date != DAY_1900_01_01 ==> d <= self@[k].date,
                best is None ==> forall|k: int| 0 <= k < i
                    ==> !((#[trigger] self@[k]).patient_id == id && self@[k].date
                    != DAY_1900_01_01),
            decreases n - i,
        {
            let e = &self.els[i];
            if e.patient_id == id && e.date != DAY_1900_01_01 {
                proof {
                    assert(spec_patient_dates(self@, id).contains(self@[i as int].date));
                }
                match best {
                    None => {
                        best = Some(e.date);
                    },
                    Some(d) => {
                        if e.date < d {
                            best = Some(e.date);
                        }
                    },
                }
            }
            i += 1;
        }
        proof {
            match best {
                Some(d) => {
                    assert forall|d2: Day| spec_patient_dates(self@, id).contains(d2) implies
                        d <= d2 by {
                        let k = choose|k: int| 0 <= k < self@.len()
                            && (#[trigger] self@[k]).patient_id == id && self@[k].date == d2
                            && self@[k].date != DAY_1900_01_01;
                    }
                },
                None => {
                    assert forall|d2: Day| !(spec_patient_dates(self@, id).contains(d2)) by {
                        if spec_patient_dates(self@, id).contains(d2) {
                            let k = choose|k: int| 0 <= k < self@.len()
                                && (#[trigger] self@[k]).patient_id == id && self@[k].date == d2
                                && self@[k].date != DAY_1900_01_01;
                        }
                    }
                    assert(spec_patient_dates(self@, id) =~= Set::<Day>::empty());
                },
            }
        }
        best
    }

    /// The ids of all patients having an event whose code is in the set.
    pub fn patient_ids_with_code_in(&self, codeset: &CodeSet) -> (r: IdSet)
        ensures
            r.wf(),
            r.to_set() =~= Set::new(|id: PatientId| exists|k: int| 0 <= k < self@.len()
                && (#[trigger] self@[k]).patient_id == id && codeset@.contains(
                self@[k].read_code)),
    {
        let n = self.els.len();
        let mut out = IdSet::new();
        let mut i: usize = 0;
        while i < n
            invariant
                0 <= i <= n,
                n == self@.len(),
                out.wf(),
                out.to_set() =~= Set::new(|id: PatientId| exists|k: int| 0 <= k < i
                    && (#[trigger] self@[k]).patient_id == id && codeset@.contains(
                    self@[k].read_code)),
            decreases n - i,
    {
            let ghost out0 = out.to_set();
            if codeset.contains(self.els[i].read_code) {
                out.insert(self.els[i].patient_id);
            }
            proof {
                assert(out.to_set() =~= Set::new(|id: PatientId| exists|k: int| 0 <= k < i + 1
                    && (#[trigger] self@[k]).patient_id == id && codeset@.contains(
                    self@[k].read_code))) by {
                    assert forall|id: PatientId| out.to_set().contains(id) implies exists|k: int|
                        0 <= k < i + 1 && (#[trigger] self@[k]).patient_id == id
                        && codeset@.contains(self@[k].read_code) by {
                        if out0.contains(id) {
                            let k = choose|k: int| 0 <= k < i && (#[trigger] self@[
                                k]).patient_id == id && codeset@.contains(self@[k].read_code);
                            assert(0 <= k < i + 1 && self@[k].patient_id == id
                                && codeset@.contains(self@[k].read_code));
                        } else {
                            assert(self@[i as int].patient_id == id && codeset@.contains(
                                self@[i as int].read_code));
                        }
                    }
                    assert forall|id: PatientId| (exists|k: int| 0 <= k < i + 1
                        && (#[trigger] self@[k]).patient_id == id && codeset@.contains(
                        self@[k].read_code)) implies out.to_set().contains(id) by {
                        let k = choose|k: int| 0 <= k < i + 1 && (#[trigger] self@[
                            k]).patient_id == id && codeset@.contains(self@[k].read_code);
                        if k < i {
                            assert(out0.contains(id));
                        }
                    }
                }
            }
            i += 1;
        }
        out
    }
}

/// The dates of the matching events of one subject.
pub open spec fn spec_matching_dates(cs: CodeSet, events: Seq<Event>, id: PatientId)
    -> Set<Day> {
    Set::new(|d: Day| exists|k: int| 0 <= k < events.len() && (#[trigger] events[k]).patient_id
        == id && events[k].date == d && cs@.contains(events[k].read_code))
}

/// Whether a subject has any matching event at all.
pub open spec fn spec_has_matching(cs: CodeSet, events: Seq<Event>, id: PatientId) -> bool {
    exists|d: Day| #[trigger] spec_matching_dates(cs, events, id).contains(d)
}

impl crate::read2::CodeSetMatcher {
    /// For each subject with an event whose code is in the set, the date a
    /// forward scan keeps. The scan keeps advancing whenever a later
    /// matching date is found, so — despite the name this entry point has
    /// always had — each subject maps to their LATEST matching date. The
    /// contract states this exactly; callers needing the earliest date
    /// should use `earliest_event_for_patient` on a filtered event list.
    pub fn earliest_code(&self, events: &Events) -> (r: Vec<(PatientId, Day)>)
        requires
            self.wf(),
            crate::read2::codes_wf(events_codes(events@)),
        ensures
            forall|i: int, j: int| 0 <= i < j < r@.len() ==> (#[trigger] r@[i]).0
                != (#[trigger] r@[j]).0,
            forall|i: int| 0 <= i < r@.len() ==> spec_matching_dates(self.spec_code_set(),
                events@, (#[trigger] r@[i]).0).contains(r@[i].1) && (forall|d: Day|
                spec_matching_dates(self.spec_code_set(), events@, r@[i].0).contains(d)
                ==> d <= r@[i].1),
            forall|id: PatientId| (exists|i: int| 0 <= i < r@.len() && (#[trigger] r@[i]).0
                == id) <==> #[trigger] spec_has_matching(self.spec_code_set(), events@, id),
    {
        let ghost cs = self.spec_code_set();
        let evs = events.iter();
        let n = evs.len();
        let mut out: Vec<(PatientId, Day)> = Vec::new();
        let mut k: usize = 0;
        while k < n
            invariant
                0 <= k <= n,
                n == events@.len(),
                evs@ == events@,
                cs == self.spec_code_set(),
                self.wf(),
                crate::read2::codes_wf(events_codes(events@)),
                forall|i: int, j: int| 0 <= i < j < out@.len() ==> (#[trigger] out@[i]).0
                    != (#[trigger] out@[j]).0,
                forall|i: int| 0 <= i < out@.len() ==> spec_matching_dates(cs, events@.take(
                    k as int), (#[trigger] out@[i]).0).contains(out@[i].1) && (forall|d: Day|
                    spec_matching_dates(cs, events@.take(k as int), out@[i].0).contains(d)
                    ==> d <= out@[i].1),
                forall|id: PatientId| (exists|i: int| 0 <= i < out@.len() && (#[trigger] out@[
                    i]).0 == id) <==> #[trigger] spec_has_matching(cs, events@.take(
                    k as int), id),
            decreases n - k,
        {
            let e = &evs[k];
            proof {
                assert(evs@[k as int] == events@[k as int]);
                assert(events_codes(events@)[k as int] == events@[k as int].read_code);
                assert(events@[k as int].read_code.wf());
                lemma_matching_dates_step(cs, events@, k as int);
            }
            if self.contains(e.read_code) {
                let idx = find_id(&out, e.patient_id);
                let ghost out0 = out@;
                let ghost eid = events@[k as int].patient_id;
                let ghost edate = events@[k as int].date;
                match idx {
                    Some(i) => {
                        let cur = out[i].1;
                        if cur < e.date {
                            out.set(i, (e.patient_id, e.date));
                        }
                        proof {
                            let w: int = i as int;
                            assert(out0[w].0 == eid);
                            assert forall|p: int| 0 <= p < out@.len() implies #[trigger] out@[
                                p] == (if p == w && out0[p].1 < edate {
                                (eid, edate)
                            } else {
                                out0[p]
                            }) by {}
                            assert forall|p: int| 0 <= p < out@.len() implies
                                spec_matching_dates(cs, events@.take(k + 1),
                                (#[trigger] out@[p]).0).contains(out@[p].1) && (forall|d: Day|
                                #[trigger] spec_matching_dates(cs, events@.take(k + 1),
                                out@[p].0).contains(d) ==> d <= out@[p].1) by {
                                if p == w {
                                    assert(spec_matching_dates(cs, events@.take(k + 1), eid)
                                        =~= spec_matching_dates(cs, events@.take(k as int),
                                        eid).insert(edate));
                                } else {
                                    assert(out@[p] == out0[p]);
                                    assert(out0[p].0 != eid);
                                    assert(spec_matching_dates(cs, events@.take(k + 1),
                                        out0[p].0) =~= spec_matching_dates(cs, events@.take(
                                        k as int), out0[p].0));
                                }
                            }
                            assert forall|id: PatientId| ((exists|p: int| 0 <= p < out@.len()
                                && (#[trigger] out@[p]).0 == id) <==> #[trigger]
                                spec_has_matching(cs, events@.take(k + 1), id)) by {
                                if id == eid {
                                    assert(out@[w].0 == eid);
                                    assert(spec_matching_dates(cs, events@.take(k + 1),
                                        eid).contains(edate));
                                    assert(spec_has_matching(cs, events@.take(k + 1), eid));
                                } else {
                                    assert(spec_matching_dates(cs, events@.take(k + 1), id)
                                        =~= spec_matching_dates(cs, events@.take(
                                        k as int), id));
                                    assert(spec_has_matching(cs, events@.take(k + 1), id)
                                        == spec_has_matching(cs, events@.take(k as int), id));
                                    if exists|p: int| 0 <= p < out@.len() && (#[trigger] out@[
                                        p]).0 == id {
                                        let p = choose|p: int| 0 <= p < out@.len()
                                            && (#[trigger] out@[p]).0 == id;
                                        assert(out0[p].0 == id);
                                    }
                                    if exists|p: int| 0 <= p < out0.len() && (#[trigger] out0[
                                        p]).0 == id {
                                        let p = choose|p: int| 0 <= p < out0.len()
                                            && (#[trigger] out0[p]).0 == id;
                                        assert(p != w);
                                        assert(out@[p].0 == id);
                                    }
                                }
                            }
                        }
                    },
                    None => {
                        out.push((e.patient_id, e.date));
                        proof {
                            let w: int = out@.len() - 1;
                            assert(out@[w] == (eid, edate));
                            assert(!spec_has_matching(cs, events@.take(k as int), eid));
                            assert forall|p: int| 0 <= p < out@.len() implies
                                spec_matching_dates(cs, events@.take(k + 1),
                                (#[trigger] out@[p]).0).contains(out@[p].1) && (forall|d: Day|
                                #[trigger] spec_matching_dates(cs, events@.take(k + 1),
                                out@[p].0).contains(d) ==> d <= out@[p].1) by {
                                if p == w {
                                    assert(spec_matching_dates(cs, events@.take(k + 1), eid)
                                        =~= spec_matching_dates(cs, events@.take(k as int),
                                        eid).insert(edate));
                                    assert forall|d: Day| #[trigger] spec_matching_dates(cs,
                                        events@.take(k + 1), eid).contains(d) implies d
                                        <= edate by {
                                        if d != edate {
                                            assert(spec_matching_dates(cs, events@.take(
                                                k as int), eid).contains(d));
                                        }
                                    }
                                } else {
                                    assert(out@[p] == out0[p]);
                                    assert(out0[p].0 != eid) by {
                                        if out0[p].0 == eid {
                                            assert((exists|q: int| 0 <= q < out0.len()
                                                && (#[trigger] out0[q]).0 == eid));
                                            assert(spec_has_matching(cs, events@.take(
                                                k as int), eid));
                                        }
                                    }
                                    assert(spec_matching_dates(cs, events@.take(k + 1),
                                        out0[p].0) =~= spec_matching_dates(cs, events@.take(
                                        k as int), out0[p].0));
                                }
                            }
                            assert forall|id: PatientId| ((exists|p: int| 0 <= p < out@.len()
                                && (#[trigger] out@[p]).0 == id) <==> #[trigger]
                                spec_has_matching(cs, events@.take(k + 1), id)) by {
                                if id == eid {
                                    assert(out@[w].0 == eid);
                                    assert(spec_matching_dates(cs, events@.take(k + 1),
                                        eid).contains(edate));
                                    assert(spec_has_matching(cs, events@.take(k + 1), eid));
                                } else {
                                    assert(spec_matching_dates(cs, events@.take(k + 1), id)
                                        =~= spec_matching_dates(cs, events@.take(
                                        k as int), id));
                                    assert(spec_has_matching(cs, events@.take(k + 1), id)
                                        == spec_has_matching(cs, events@.take(k as int), id));
                                    if exists|p: int| 0 <= p < out@.len() && (#[trigger] out@[
                                        p]).0 == id {
                                        let p = choose|p: int| 0 <= p < out@.len()
                                            && (#[trigger] out@[p]).0 == id;
                                        assert(p != w);
                                        assert(out0[p].0 == id);
                                    }
                                    if exists|p: int| 0 <= p < out0.len() && (#[trigger] out0[
                                        p]).0 == id {
                                        let p = choose|p: int| 0 <= p < out0.len()
                                            && (#[trigger] out0[p]).0 == id;
                                        assert(out@[p].0 == id);
                                    }
                                }
                            }
                            assert forall|p: int, q: int| 0 <= p < q < out@.len() implies
                                (#[trigger] out@[p]).0 != (#[trigger] out@[q]).0 by {
                                if q == w {
                                    assert(out0[p].0 == out@[p].0);
                                    if out@[p].0 == eid {
                                        assert(spec_has_matching(cs, events@.take(
                                            k as int), eid));
                                    }
                                }
                            }
                        }
                    },
                }
            } else {
                proof {
                    assert forall|id: PatientId| #[trigger] spec_matching_dates(cs,
                        events@.take(k + 1), id) =~= spec_matching_dates(cs, events@.take(
                        k as int), id) by {}
                    assert forall|id: PatientId| #[trigger] spec_has_matching(cs,
                        events@.take(k + 1), id) == spec_has_matching(cs, events@.take(
                        k as int), id) by {
                        assert(spec_matching_dates(cs, events@.take(k + 1), id) =~=
                            spec_matching_dates(cs, events@.take(k as int), id));
                    }
                }
            }
            k += 1;
        }
        proof {
            assert(events@.take(n as int) =~= events@);
        }
        out
    }
}

/// The codes of the events, in order.
pub open spec fn events_codes(events: Seq<Event>) -> Seq<ReadCode> {
    Seq::new(events.len(), |k: int| events[k].read_code)
}

/// One more event extends one subject's matching-date set by its date when
/// its code matches, and changes nothing else.
proof fn lemma_matching_dates_step(cs: CodeSet, events: Seq<Event>, k: int)
    requires
        0 <= k < events.len(),
    ensures
        forall|id: PatientId| #[trigger] spec_matching_dates(cs, events.take(k + 1), id) =~= (
            if events[k].patient_id == id && cs@.contains(events[k].read_code) {
            spec_matching_dates(cs, events.take(k), id).insert(events[k].date)
        } else {
            spec_matching_dates(cs, events.take(k), id)
        }),
{
    assert forall|id: PatientId| #[trigger] spec_matching_dates(cs, events.take(k + 1), id) =~= (
        if events[k].patient_id == id && cs@.contains(events[k].read_code) {
        spec_matching_dates(cs, events.take(k), id).insert(events[k].date)
    } else {
        spec_matching_dates(cs, events.take(k), id)
    }) by {
        let pre = events.take(k);
        let cur = events.take(k + 1);
        assert forall|d: Day| spec_matching_dates(cs, cur, id).contains(d) implies (if events[
            k].patient_id == id && cs@.contains(events[k].read_code) {
            spec_matching_dates(cs, pre, id).insert(events[k].date)
        } else {
            spec_matching_dates(cs, pre, id)
        }).contains(d) by {
            let m = choose|m: int| 0 <= m < cur.len() && (#[trigger] cur[m]).patient_id == id
                && cur[m].date == d && cs@.contains(cur[m].read_code);
            if m < k {
                assert(pre[m] == cur[m]);
                assert(spec_matching_dates(cs, pre, id).contains(d));
            } else {
                assert(cur[m] == events[k]);
            }
        }
        assert forall|d: Day| (if events[k].patient_id == id && cs@.contains(
            events[k].read_code) {
            spec_matching_dates(cs, pre, id).insert(events[k].date)
        } else {
            spec_matching_dates(cs, pre, id)
        }).contains(d) implies spec_matching_dates(cs, cur, id).contains(d) by {
            if spec_matching_dates(cs, pre, id).contains(d) {
                let m = choose|m: int| 0 <= m < pre.len() && (#[trigger] pre[m]).patient_id
                    == id && pre[m].date == d && cs@.contains(pre[m].read_code);
                assert(cur[m] == pre[m]);
                assert(0 <= m < cur.len() && cur[m].patient_id == id && cur[m].date == d
                    && cs@.contains(cur[m].read_code));
            } else {
                assert(events[k].patient_id == id && d == events[k].date && cs@.contains(
                    events[k].read_code));
                assert(cur[k] == events[k]);
                assert(0 <= k < cur.len() && cur[k].patient_id == id && cur[k].date == d
                    && cs@.contains(cur[k].read_code));
            }
        }
    }
}

/// The position of a subject's entry, scanning from the front.
fn find_id(entries: &Vec<(PatientId, Day)>, id: PatientId) -> (r: Option<usize>)
    ensures
        r matches Some(i) ==> i < entries@.len() && entries@[i as int].0 == id,
        r is None ==> forall|i: int| 0 <= i < entries@.len() ==> (#[trigger] entries@[i]).0
            != id,
{
    let n = entries.len();
    let mut i: usize = 0;
    while i < n
        invariant
            0 <= i <= n,
            n == entries@.len(),
            forall|j: int| 0 <= j < i ==> (#[trigger] entries@[j]).0 != id,
        decreases n - i,
    {
        if entries[i].0 == id {
            return Some(i);
        }
        i += 1;
    }
    None
}

/// The maximum difference between consecutive entries of a sorted sequence
/// of dates.
pub open spec fn spec_max_gap(s: Seq<u64>) -> int
    decreases s.len(),
{
    if s.len() <= 1 {
        0
    } else {
        let rest = spec_max_gap(s.drop_last());
        let gap = s.last() - s[s.len() - 2];
        if gap > rest {
            gap
        } else {
            rest
        }
    }
}

/// The dates a gap analysis looks at: the start and end of the observation
/// window, and each event date falling within it.
pub open spec fn spec_gap_dates(events: Seq<Event>, start_date: Day, end_date: Day)
    -> Set<Day> {
    Set::new(|d: Day| d == start_date || d == end_date || exists|k: int| 0 <= k < events.len()
        && (#[trigger] events[k]).date == d && start_date <= d <= end_date)
}

/// The biggest gap, in days, between consecutive observed dates of the
/// window: between the window start, the event dates falling inside the
/// window in date order, and the window end.
pub fn biggest_gap(start_date: Day, end_date: Day, events: &Vec<Event>) -> (r: u64)
    requires
        start_date <= end_date,
    ensures
        r == spec_max_gap(crate::idset::spec_sorted_seq(spec_gap_dates(events@, start_date,
            end_date))),
{
    let n = events.len();
    let mut dates = IdSet::new();
    dates.insert(start_date);
    dates.insert(end_date);
    let mut k: usize = 0;
    while k < n
        invariant
            0 <= k <= n,
            n == events@.len(),
            dates.wf(),
            dates.to_set() =~= Set::new(|d: Day| d == start_date || d == end_date || exists|
                m: int| 0 <= m < k && (#[trigger] events@[m]).date == d && start_date <= d
                <= end_date),
        decreases n - k,
    {
        let ghost before = dates.to_set();
        let d = events[k].date;
        if start_date <= d && d <= end_date {
            dates.insert(d);
        }
        proof {
            assert forall|x: Day| dates.to_set().contains(x) implies (x == start_date || x
                == end_date || exists|m: int| 0 <= m < k + 1 && (#[trigger] events@[m]).date
                == x && start_date <= x <= end_date) by {
                if before.contains(x) {
                    if !(x == start_date || x == end_date) {
                        let m = choose|m: int| 0 <= m < k && (#[trigger] events@[m]).date == x
                            && start_date <= x <= end_date;
                        assert(0 <= m < k + 1 && events@[m].date == x);
                    }
                } else {
                    assert(events@[k as int].date == x);
                }
            }
            assert forall|x: Day| (x == start_date || x == end_date || exists|m: int|
                0 <= m < k + 1 && (#[trigger] events@[m]).date == x && start_date <= x
                <= end_date) implies dates.to_set().contains(x) by {
                if !(x == start_date || x == end_date) {
                    let m = choose|m: int| 0 <= m < k + 1 && (#[trigger] events@[m]).date == x
                        && start_date <= x <= end_date;
                    if m < k {
                        assert(before.contains(x));
                    }
                }
            }
            assert(dates.to_set() =~= Set::new(|d2: Day| d2 == start_date || d2 == end_date
                || exists|m: int| 0 <= m < k + 1 && (#[trigger] events@[m]).date == d2
                && start_date <= d2 <= end_date));
        }
        k += 1;
    }
    proof {
        assert(dates.to_set() =~= spec_gap_dates(events@, start_date, end_date));
        crate::idset::lemma_idset_is_sorted_seq(&dates);
    }
    max_gap(&dates)
}

/// The biggest difference between consecutive dates of a sorted set.
pub fn max_gap(dates: &IdSet) -> (r: u64)
    requires
        dates.wf(),
    ensures
        r == spec_max_gap(dates@),
{
    let ds = dates.iter();
    let n = ds.len();
    let mut best: u64 = 0;
    let mut i: usize = 1;
    if n == 0 {
        return 0;
    }
    proof {
        assert(dates@.take(1int).len() <= 1);
    }
    while i < n
        invariant
            1 <= i <= n,
            n == dates@.len(),
            ds@ == dates@,
            dates.wf(),
            best == spec_max_gap(dates@.take(i as int)),
        decreases n - i,
    {
        proof {
            assert(dates@.take(i + 1).drop_last() =~= dates@.take(i as int));
            assert(dates@.take(i + 1).last() == dates@[i as int]);
            assert(dates@.take(i + 1)[i - 1] == dates@[i - 1]);
            assert(dates@[i - 1] < dates@[i as int]);
        }
        let gap = ds[i] - ds[i - 1];
        if gap > best {
            best = gap;
        }
        i += 1;
    }
    proof {
        assert(dates@.take(n as int) =~= dates@);
    }
    best
}

/// Sex as encoded in the data: `M` or `F` only.
#[derive(Debug, Clone, Copy, PartialEq, Eq, Structural, Hash)]
pub enum Sex {
    Male,
    Female,
}

/// Index of multiple deprivation decile; decile 1 is the most deprived ten
/// percent.
#[derive(Debug, Clone, Copy, PartialEq, Eq, Structural)]
pub enum Imd {
    Missing,
    _1,
    _2,
    _3,
    _4,
    _5,
    _6,
    _7,
    _8,
    _9,
    _10,
}

/// A row in the patients dataset. Lymphoma diagnosis fields are empty until
/// they are calculated from the event data and the subtype map.
#[derive(Debug, Clone)]
pub struct Patient {
    pub patient_id: PatientId,
    pub year_of_birth: u16,
    pub sex: Sex,
    pub ethnicity: Option<String>,
    pub imd: Imd,
    /// The earliest lymphoma event date, even when a later, more specific
    /// event fixes the subtype below.
    pub lymphoma_diagnosis_date: Option<Day>,
    /// The most specific subtype seen for this patient.
    pub lymphoma_diagnosis_subtype: Option<crate::subtypes::LymphomaSubtype>,
}

impl Patient {
    /// The patient's age in the given calendar year.
    pub fn age_at(&self, year: i32) -> (r: i32)
        requires
            -1000000 < year < 1000000,
        ensures
            r == year - self.year_of_birth as int,
    {
        year - self.year_of_birth as i32
    }
}

/// The first position holding this patient, scanning from `i`.
pub open spec fn spec_find_patient(patients: Seq<Patient>, id: PatientId, i: nat) -> Option<
    int,
>
    decreases patients.len() - i,
{
    if i >= patients.len() {
        None
    } else if patients[i as int].patient_id == id {
        Some(i as int)
    } else {
        spec_find_patient(patients, id, i + 1)
    }
}

/// A patient updated by one mapped lymphoma event: the diagnosis date moves
/// back to the earliest event date seen, and the subtype moves to the event's
/// subtype exactly when it is strictly more specific than (a subtype of) the
/// one held, or none is held yet. Ties and incomparable pairs keep the
/// subtype seen first, so the result follows the event order of the input.
pub open spec fn spec_update_patient(p: Patient, date: Day,
    st: crate::subtypes::LymphomaSubtype) -> Patient {
    Patient {
        lymphoma_diagnosis_date: match p.lymphoma_diagnosis_date {
            None => Some(date),
            Some(v) => if v > date {
                Some(date)
            } else {
                Some(v)
            },
        },
        lymphoma_diagnosis_subtype: match p.lymphoma_diagnosis_subtype {
            None => Some(st),
            Some(os) => if st.spec_is_subtype_of(os) {
                Some(st)
            } else {
                Some(os)
            },
        },
        ..p
    }
}

/// One event applied to the patient list: nothing changes unless the event's
/// code/free-text pair is in the subtype map and its patient is known.
pub open spec fn spec_apply_event(patients: Seq<Patient>,
    map: Seq<crate::subtypes::SubtypeEntry>, e: Event) -> Seq<Patient> {
    match crate::subtypes::spec_lookup(map, e.read_code, e.rubric@) {
        None => patients,
        Some(st) => match spec_find_patient(patients, e.patient_id, 0) {
            None => patients,
            Some(i) => patients.update(i, spec_update_patient(patients[i], e.date, st)),
        },
    }
}

/// The patient list after every event has been applied, in event order.
pub open spec fn spec_calc_lymphoma(patients: Seq<Patient>,
    map: Seq<crate::subtypes::SubtypeEntry>, events: Seq<Event>) -> Seq<Patient>
    decreases events.len(),
{
    if events.len() == 0 {
        patients
    } else {
        spec_apply_event(spec_calc_lymphoma(patients, map, events.drop_last()), map,
            events.last())
    }
}

/// The parsed list of patients.
#[derive(Debug)]
pub struct Patients {
    els: Vec<Patient>,
}

impl View for Patients {
    type V = Seq<Patient>;

    closed spec fn view(&self) -> Seq<Patient> {
        self.els@
    }
}

impl Patients {
    /// Wrap a list of patients.
    pub fn from_vec(els: Vec<Patient>) -> (r: Patients)
        ensures
            r@ == els@,
    {
        Patients { els }
    }

    pub fn len(&self) -> (r: usize)
        ensures
            r == self@.len(),
    {
        self.els.len()
    }

    /// The patients, in dataset order.
    pub fn iter(&self) -> (r: &Vec<Patient>)
        ensures
            r@ == self@,
    {
        &self.els
    }

    /// The first patient with this id.
    pub fn find_by_id(&self, id: PatientId) -> (r: Option<&Patient>)
        ensures
            r matches Some(p) ==> (spec_find_patient(self@, id, 0) matches Some(i) && *p
                == self@[i]),
            r is None ==> spec_find_patient(self@, id, 0) is None,
    {
        let n = self.els.len();
        let mut i: usize = 0;
        while i < n
            invariant
                0 <= i <= n,
                n == self@.len(),
                spec_find_patient(self@, id, 0) == spec_find_patient(self@, id, i as nat),
            decreases n - i,
        {
            if self.els[i].patient_id == id {
                return Some(&self.els[i]);
            }
            i += 1;
        }
        None
    }

    /// Fill in each patient's lymphoma diagnosis date and subtype from their
    /// mapped events: the date becomes the earliest mapped event date, and
    /// the subtype the most specific one seen, first-seen winning ties. The
    /// result is deterministic in the event order of the input.
    pub fn calc_lymphoma_data(&mut self, events: &Events,
        map: &crate::subtypes::CodeSubtypeMap)
        ensures
            final(self)@ == spec_calc_lymphoma(old(self)@, map@, events@),
    {
        let evs = events.iter();
        let n = evs.len();
        let mut k: usize = 0;
        while k < n
            invariant
                0 <= k <= n,
                n == events@.len(),
                evs@ == events@,
                self@ =~= spec_calc_lymphoma(old(self)@, map@, events@.take(k as int)),
            decreases n - k,
        {
            proof {
                assert(events@.take(k + 1).drop_last() =~= events@.take(k as int));
                assert(events@.take(k + 1).last() == events@[k as int]);
            }
            let e = &evs[k];
            proof {
                assert(evs@[k as int] == events@[k as int]);
            }
            let ghost pre = self@;
            match map.lookup(e.read_code, &e.rubric) {
                Some(st) => {
                    match self.find_index(e.patient_id) {
                        Some(i) => {
                            let date = e.date;
                            let p = &self.els[i];
                            let new_date = match p.lymphoma_diagnosis_date {
                                None => Some(date),
                                Some(v) => if v > date {
                                    Some(date)
                                } else {
                                    Some(v)
                                },
                            };
                            let new_subtype = match p.lymphoma_diagnosis_subtype {
                                None => Some(st),
                                Some(os) => if st.is_subtype_of(&os) {
                                    Some(st)
                                } else {
                                    Some(os)
                                },
                            };
                            let updated = Patient {
                                patient_id: p.patient_id,
                                year_of_birth: p.year_of_birth,
                                sex: p.sex,
                                ethnicity: clone_opt_string(&p.ethnicity),
                                imd: p.imd,
                                lymphoma_diagnosis_date: new_date,
                                lymphoma_diagnosis_subtype: new_subtype,
                            };
                            proof {
                                assert(updated == spec_update_patient(pre[i as int],
                                    events@[k as int].date, st));
                            }
                            self.els.set(i, updated);
                            proof {
                                assert(self@ =~= pre.update(i as int, spec_update_patient(
                                    pre[i as int], events@[k as int].date, st)));
                            }
                        },
                        None => {
                        },
                    }
                },
                None => {
                },
            }
            k += 1;
        }
        proof {
            assert(events@.take(n as int) =~= events@);
        }
    }

    /// The position of the first patient with this id.
    fn find_index(&self, id: PatientId) -> (r: Option<usize>)
        ensures
            r matches Some(i) ==> i < self@.len() && self@[i as int].patient_id == id
                && spec_find_patient(self@, id, 0) == Some(i as int),
            r is None ==> spec_find_patient(self@, id, 0) is None,
    {
        let n = self.els.len();
        let mut i: usize = 0;
        while i < n
            invariant
                0 <= i <= n,
                n == self@.len(),
                spec_find_patient(self@, id, 0) == spec_find_patient(self@, id, i as nat),
            decreases n - i,
        {
            if self.els[i].patient_id == id {
                return Some(i);
            }
            i += 1;
        }
        None
    }

    /// How many patients of each sex there are: `(male, female)`.
    pub fn count_sexes(&self) -> (r: (usize, usize))
        ensures
            r.0 == spec_count_sex(self@, Sex::Male),
            r.1 == spec_count_sex(self@, Sex::Female),
    {
        let n = self.els.len();
        let mut males: usize = 0;
        let mut females: usize = 0;
        let mut i: usize = 0;
        while i < n
            invariant
                0 <= i <= n,
                n == self@.len(),
                males == spec_count_sex(self@.take(i as int), Sex::Male),
                females == spec_count_sex(self@.take(i as int), Sex::Female),
                males <= i,
                females <= i,
            decreases n - i,
        {
            proof {
                assert(self@.take(i + 1).drop_last() =~= self@.take(i as int));
                assert(self@.take(i + 1).last() == self@[i as int]);
                lemma_count_sex_le(self@.take(i as int), Sex::Male);
                lemma_count_sex_le(self@.take(i as int), Sex::Female);
            }
            match self.els[i].sex {
                Sex::Male => {
                    males += 1;
                },
                Sex::Female => {
                    females += 1;
                },
            }
            i += 1;
        }
        proof {
            assert(self@.take(n as int) =~= self@);
        }
        (males, females)
    }
}

impl Patients {
    /// How many patients fall in each deprivation decile, `Missing` first
    /// then deciles one to ten.
    pub fn count_imd(&self) -> (r: Vec<usize>)
        ensures
            r@.len() == 11,
            forall|d: int| 0 <= d < 11 ==> #[trigger] r@[d] == spec_count_imd(self@, d),
    {
        let n = self.els.len();
        let mut counts: Vec<usize> = Vec::new();
        let mut d: usize = 0;
        while d < 11
            invariant
                counts@.len() == d <= 11,
                forall|q: int| 0 <= q < d ==> #[trigger] counts@[q] == 0,
            decreases 11 - d,
        {
            counts.push(0);
            d += 1;
        }
        let mut i: usize = 0;
        proof {
            assert forall|q: int| 0 <= q < 11 implies #[trigger] counts@[q] == spec_count_imd(
                self@.take(0), q) by {}
        }
        while i < n
            invariant
                0 <= i <= n,
                n == self@.len(),
                counts@.len() == 11,
                forall|q: int| 0 <= q < 11 ==> #[trigger] counts@[q] == spec_count_imd(
                    self@.take(i as int), q),
            decreases n - i,
        {
            proof {
                assert(self@.take(i + 1).drop_last() =~= self@.take(i as int));
                assert(self@.take(i + 1).last() == self@[i as int]);
                lemma_count_imd_le(self@.take(i as int), spec_imd_rank(self@[i as int].imd));
                assert(self@.take(i as int).len() == i as int);
            }
            let d = imd_rank(self.els[i].imd);
            let ghost counts0 = counts@;
            let cur = counts[d];
            counts.set(d, cur + 1);
            proof {
                assert forall|q: int| 0 <= q < 11 implies #[trigger] counts@[q]
                    == spec_count_imd(self@.take(i + 1), q) by {
                    if q != d as int {
                        assert(counts@[q] == counts0[q]);
                    }
                }
            }
            i += 1;
        }
        proof {
            assert(self@.take(n as int) =~= self@);
        }
        counts
    }

    /// Bucket the patients' ages in the given calendar year.
    pub fn bucket_ages(&self, ranges: crate::range::RangeSet, current_year: i32) -> (r:
        crate::range::RangeSetCounts)
        requires
            -1000000 < current_year < 1000000,
        ensures
            r.set.ranges@ == ranges.ranges@,
            r.counts@.len() == ranges.ranges@.len(),
            forall|i: int| 0 <= i < ranges.ranges@.len() ==> #[trigger] r.counts@[i]
                == crate::range::spec_count_in(spec_ages(self@, current_year),
                ranges.ranges@[i]),
    {
        let n = self.els.len();
        let mut ages: Vec<u64> = Vec::new();
        let mut i: usize = 0;
        while i < n
            invariant
                0 <= i <= n,
                n == self@.len(),
                -1000000 < current_year < 1000000,
                ages@ =~= spec_ages(self@.take(i as int), current_year),
            decreases n - i,
        {
            proof {
                assert(self@.take(i + 1).drop_last() =~= self@.take(i as int));
                assert(self@.take(i + 1).last() == self@[i as int]);
            }
            let age = self.els[i].age_at(current_year);
            let clamped: u64 = if age < 0 {
                0
            } else {
                age as u64
            };
            ages.push(clamped);
            proof {
                assert(ages@ =~= spec_ages(self@.take(i + 1), current_year));
            }
            i += 1;
        }
        proof {
            assert(self@.take(n as int) =~= self@);
        }
        ranges.bucket_values(&ages)
    }
}

/// The patients' ages in the given year, in list order, clamped below at
/// zero.
pub open spec fn spec_ages(patients: Seq<Patient>, current_year: i32) -> Seq<u64>
    decreases patients.len(),
{
    if patients.len() == 0 {
        Seq::empty()
    } else {
        spec_ages(patients.drop_last(), current_year).push(
            if current_year - patients.last().year_of_birth < 0 {
                0u64
            } else {
                (current_year - patients.last().year_of_birth) as u64
            },
        )
    }
}

/// The position of a deprivation decile in the fixed report order.
pub open spec fn spec_imd_rank(imd: Imd) -> int {
    match imd {
        Imd::Missing => 0,
        Imd::_1 => 1,
        Imd::_2 => 2,
        Imd::_3 => 3,
        Imd::_4 => 4,
        Imd::_5 => 5,
        Imd::_6 => 6,
        Imd::_7 => 7,
        Imd::_8 => 8,
        Imd::_9 => 9,
        Imd::_10 => 10,
    }
}

/// The position of a deprivation decile in the fixed report order.
pub fn imd_rank(imd: Imd) -> (r: usize)
    ensures
        r == spec_imd_rank(imd),
        r < 11,
{
    match imd {
        Imd::Missing => 0,
        Imd::_1 => 1,
        Imd::_2 => 2,
        Imd::_3 => 3,
        Imd::_4 => 4,
        Imd::_5 => 5,
        Imd::_6 => 6,
        Imd::_7 => 7,
        Imd::_8 => 8,
        Imd::_9 => 9,
        Imd::_10 => 10,
    }
}

/// How many patients fall in the deprivation decile of this rank.
pub open spec fn spec_count_imd(patients: Seq<Patient>, rank: int) -> nat
    decreases patients.len(),
{
    if patients.len() == 0 {
        0
    } else {
        spec_count_imd(patients.drop_last(), rank) + if spec_imd_rank(patients.last().imd)
            == rank {
            1nat
        } else {
            0nat
        }
    }
}

/// A decile count never exceeds the number of patients.
pub proof fn lemma_count_imd_le(patients: Seq<Patient>, rank: int)
    ensures
        spec_count_imd(patients, rank) <= patients.len(),
    decreases patients.len(),
{
    if patients.len() > 0 {
        lemma_count_imd_le(patients.drop_last(), rank);
    }
}

/// How many patients of the list have this sex.
pub open spec fn spec_count_sex(patients: Seq<Patient>, sex: Sex) -> nat
    decreases patients.len(),
{
    if patients.len() == 0 {
        0
    } else {
        spec_count_sex(patients.drop_last(), sex) + if patients.last().sex == sex {
            1nat
        } else {
            0nat
        }
    }
}

/// A count of patients never exceeds the number of patients.
pub proof fn lemma_count_sex_le(patients: Seq<Patient>, sex: Sex)
    ensures
        spec_count_sex(patients, sex) <= patients.len(),
    decreases patients.len(),
{
    if patients.len() > 0 {
        lemma_count_sex_le(patients.drop_last(), sex);
    }
}

/// One observed code/free-text pair, with the thesaurus descriptions of its
/// code and the ids of every patient whose record holds the pair.
#[derive(Debug)]
pub struct CodeRubricCount {
    /// The code/free-text pair.
    pub code_rubric: CodeRubric,
    /// The descriptions of the code from the thesaurus (empty when the
    /// thesaurus does not know the code).
    pub description: Vec<String>,
    /// The patients with an event matching the pair.
    pub patient_ids: IdSet,
}

/// The ids of the patients having an event with exactly this code and free
/// text.
pub open spec fn spec_pair_ids(events: Seq<Event>, code: ReadCode, rubric: Seq<char>)
    -> Set<PatientId> {
    Set::new(|id: PatientId| exists|k: int| 0 <= k < events.len() && (#[trigger] events[
        k]).patient_id == id && events[k].read_code == code && events[k].rubric@ == rubric)
}

/// Whether any event carries exactly this code and free text.
pub open spec fn spec_pair_seen(events: Seq<Event>, code: ReadCode, rubric: Seq<char>)
    -> bool {
    exists|k: int| 0 <= k < events.len() && (#[trigger] events[k]).read_code == code
        && events[k].rubric@ == rubric
}

/// Some entry of the list carries this event's code/free-text pair.
pub open spec fn pair_covered(counts: Seq<CodeRubricCount>, e: Event) -> bool {
    exists|i: int| 0 <= i < counts.len() && (#[trigger] counts[i]).code_rubric.code
        == e.read_code && counts[i].code_rubric.rubric@ == e.rubric@
}

/// A count entry is well formed against the events and thesaurus it was
/// built from.
pub open spec fn count_entry_ok(e: CodeRubricCount, events: Seq<Event>, th: Thesaurus)
    -> bool {
    &&& e.patient_ids.wf()
    &&& e.patient_ids.to_set() == spec_pair_ids(events, e.code_rubric.code, e.code_rubric.rubric@)
    &&& spec_pair_seen(events, e.code_rubric.code, e.code_rubric.rubric@)
    &&& (th.has_code(e.code_rubric.code) ==> exists|m: int| 0 <= m < th@.len()
        && (#[trigger] th@[m]).0 == e.code_rubric.code && e.description@ == th@[m].1@)
    &&& (!th.has_code(e.code_rubric.code) ==> e.description@ == Seq::<String>::empty())
}

/// All code/free-text pairs observed in the events, each with the patients
/// it was recorded for and the thesaurus descriptions of its code.
#[derive(Debug)]
pub struct CodeRubricCounts {
    els: Vec<CodeRubricCount>,
}

impl View for CodeRubricCounts {
    type V = Seq<CodeRubricCount>;

    closed spec fn view(&self) -> Seq<CodeRubricCount> {
        self.els@
    }
}

impl CodeRubricCounts {
    /// Each pair appears once, and every entry is consistent with the given
    /// events and thesaurus.
    pub open spec fn wf_for(&self, events: Seq<Event>, th: Thesaurus) -> bool {
        &&& (forall|i: int, j: int| 0 <= i < j < self@.len() ==> !((#[trigger] self@[
            i]).code_rubric.code == (#[trigger] self@[j]).code_rubric.code && self@[
            i].code_rubric.rubric@ == self@[j].code_rubric.rubric@))
        &&& (forall|i: int| 0 <= i < self@.len() ==> count_entry_ok(#[trigger] self@[i],
            events, th))
        &&& (forall|k: int| 0 <= k < events.len() ==> pair_covered(self@, #[trigger] events[
            k]))
    }

    /// Collect every code/free-text pair of the events, with its patients
    /// and thesaurus descriptions.
    pub fn from_events(events: &Events, th: &Thesaurus) -> (r: CodeRubricCounts)
        requires
            th.wf(),
        ensures
            r.wf_for(events@, *th),
    {
        let evs = events.iter();
        let n = evs.len();
        let mut els: Vec<CodeRubricCount> = Vec::new();
        let mut k: usize = 0;
        while k < n
            invariant
                0 <= k <= n,
                n == events@.len(),
                evs@ == events@,
                th.wf(),
                forall|i: int, j: int| 0 <= i < j < els@.len() ==> !((#[trigger] els@[
                    i]).code_rubric.code == (#[trigger] els@[j]).code_rubric.code && els@[
                    i].code_rubric.rubric@ == els@[j].code_rubric.rubric@),
                forall|i: int| 0 <= i < els@.len() ==> count_entry_ok(#[trigger] els@[i],
                    events@.take(k as int), *th),
                forall|m: int| 0 <= m < k ==> pair_covered(els@, #[trigger] events@[m]),
            decreases n - k,
        {
            proof {
                lemma_pair_step(events@, k as int);
            }
            let e = &evs[k];
            proof {
                assert(evs@[k as int] == events@[k as int]);
            }
            let found = find_pair(&els, e.read_code, &e.rubric);
            let ghost els0 = els@;
            match found {
                Some(i) => {
                    let mut entry = els.remove(i);
                    entry.patient_ids.insert(e.patient_id);
                    els.insert(i, entry);
                    proof {
                        let w: int = i as int;
                        assert forall|p: int| 0 <= p < els@.len() implies
                            (#[trigger] els@[p]).code_rubric.code == els0[p].code_rubric.code
                            && els@[p].code_rubric.rubric@ == els0[p].code_rubric.rubric@
                            && els@[p].description@ == els0[p].description@
                            && els@[p].patient_ids.wf() && els@[p].patient_ids.to_set() == (
                            if p == w {
                            els0[p].patient_ids.to_set().insert(events@[k as int].patient_id)
                        } else {
                            els0[p].patient_ids.to_set()
                        }) by {}
                        assert forall|p: int| 0 <= p < els@.len() implies count_entry_ok(
                            #[trigger] els@[p], events@.take(k + 1), *th) by {
                            lemma_entry_step(els0[p], els@[p], events@, k as int, *th, p == w);
                        }
                        assert forall|m: int| 0 <= m < k + 1 implies pair_covered(els@,
                            #[trigger] events@[m]) by {
                            if m < k {
                                let q = choose|q: int| 0 <= q < els0.len() && (#[trigger] els0[
                                    q]).code_rubric.code == events@[m].read_code && els0[
                                    q].code_rubric.rubric@ == events@[m].rubric@;
                                assert(els@[q].code_rubric.code == events@[m].read_code
                                    && els@[q].code_rubric.rubric@ == events@[m].rubric@);
                            } else {
                                assert(els@[w].code_rubric.code == events@[m].read_code
                                    && els@[w].code_rubric.rubric@ == events@[m].rubric@);
                            }
                        }
                    }
                },
                None => {
                    let description = match th.get(e.read_code) {
                        Some(d) => crate::read2::clone_descriptions(d),
                        None => Vec::new(),
                    };
                    let mut ids = IdSet::new();
                    ids.insert(e.patient_id);
                    let entry = CodeRubricCount {
                        code_rubric: e.code_rubric(),
                        description,
                        patient_ids: ids,
                    };
                    els.push(entry);
                    proof {
                        let w: int = els@.len() - 1;
                        assert(els@[w].code_rubric.code == events@[k as int].read_code);
                        assert(els@[w].code_rubric.rubric@ == events@[k as int].rubric@);
                        assert forall|p: int| 0 <= p < els@.len() implies count_entry_ok(
                            #[trigger] els@[p], events@.take(k + 1), *th) by {
                            if p < w {
                                lemma_entry_step(els0[p], els@[p], events@, k as int, *th,
                                    false);
                            } else {
                                assert(els@[w].patient_ids.to_set() =~= Set::<
                                    PatientId>::empty().insert(events@[k as int].patient_id));
                                assert(spec_pair_ids(events@.take(k as int),
                                    els@[w].code_rubric.code, els@[w].code_rubric.rubric@)
                                    =~= Set::<PatientId>::empty()) by {
                                    assert forall|id: PatientId| !spec_pair_ids(events@.take(
                                        k as int), els@[w].code_rubric.code,
                                        els@[w].code_rubric.rubric@).contains(id) by {
                                        if spec_pair_ids(events@.take(k as int),
                                            els@[w].code_rubric.code,
                                            els@[w].code_rubric.rubric@).contains(id) {
                                            let m = choose|m: int| 0 <= m < events@.take(
                                                k as int).len() && (#[trigger] events@.take(
                                                k as int)[m]).patient_id == id && events@.take(
                                                k as int)[m].read_code
                                                == els@[w].code_rubric.code && events@.take(
                                                k as int)[m].rubric@
                                                == els@[w].code_rubric.rubric@;
                                            assert(events@[m].read_code
                                                == els@[w].code_rubric.code && events@[
                                                m].rubric@ == els@[w].code_rubric.rubric@);
                                        }
                                    }
                                }
                                assert(els@[w].patient_ids.to_set() == spec_pair_ids(
                                    events@.take(k + 1), els@[w].code_rubric.code,
                                    els@[w].code_rubric.rubric@));
                                assert(events@.take(k + 1)[k as int] == events@[k as int]);
                                assert(spec_pair_seen(events@.take(k + 1),
                                    els@[w].code_rubric.code, els@[w].code_rubric.rubric@));
                            }
                        }
                        assert forall|m: int| 0 <= m < k + 1 implies pair_covered(els@,
                            #[trigger] events@[m]) by {
                            if m < k {
                                let q = choose|q: int| 0 <= q < els0.len() && (#[trigger] els0[
                                    q]).code_rubric.code == events@[m].read_code && els0[
                                    q].code_rubric.rubric@ == events@[m].rubric@;
                                assert(els@[q].code_rubric.code == events@[m].read_code
                                    && els@[q].code_rubric.rubric@ == events@[m].rubric@);
                            } else {
                                assert(els@[w].code_rubric.code == events@[m].read_code
                                    && els@[w].code_rubric.rubric@ == events@[m].rubric@);
                            }
                        }
                        assert forall|i: int, j: int| 0 <= i < j < els@.len() implies !((
                            #[trigger] els@[i]).code_rubric.code == (#[trigger] els@[
                            j]).code_rubric.code && els@[i].code_rubric.rubric@ == els@[
                            j].code_rubric.rubric@) by {
                            if j == w {
                                assert(els@[i] == els0[i]);
                            }
                        }
                    }
                },
            }
            k += 1;
        }
        proof {
            assert(events@.take(n as int) =~= events@);
        }
        CodeRubricCounts { els }
    }

    pub fn len(&self) -> (r: usize)
        ensures
            r == self@.len(),
    {
        self.els.len()
    }

    /// The entries, in first-seen order.
    pub fn iter(&self) -> (r: &Vec<CodeRubricCount>)
        ensures
            r@ == self@,
    {
        &self.els
    }

    /// Every patient id appearing in any entry.
    pub fn all_patient_ids(&self) -> (r: IdSet)
        requires
            forall|i: int| 0 <= i < self@.len() ==> (#[trigger] self@[i]).patient_ids.wf(),
        ensures
            r.wf(),
            r.to_set() =~= Set::new(|id: PatientId| exists|i: int| 0 <= i < self@.len()
                && (#[trigger] self@[i]).patient_ids@.contains(id)),
    {
        let n = self.els.len();
        let mut out = IdSet::new();
        let mut i: usize = 0;
        while i < n
            invariant
                0 <= i <= n,
                n == self@.len(),
                forall|j: int| 0 <= j < self@.len() ==> (#[trigger] self@[j]).patient_ids.wf(),
                out.wf(),
                out.to_set() =~= Set::new(|id: PatientId| exists|j: int| 0 <= j < i
                    && (#[trigger] self@[j]).patient_ids@.contains(id)),
            decreases n - i,
        {
            let ghost before = out.to_set();
            out = out.union(&self.els[i].patient_ids);
            proof {
                assert forall|id: PatientId| out.to_set().contains(id) implies exists|j: int|
                    0 <= j < i + 1 && (#[trigger] self@[j]).patient_ids@.contains(id) by {
                    if before.contains(id) {
                        let j = choose|j: int| 0 <= j < i && (#[trigger] self@[
                            j]).patient_ids@.contains(id);
                        assert(0 <= j < i + 1 && self@[j].patient_ids@.contains(id));
                    } else {
                        assert(self@[i as int].patient_ids.to_set().contains(id));
                        assert(self@[i as int].patient_ids@.contains(id));
                    }
                }
                assert forall|id: PatientId| (exists|j: int| 0 <= j < i + 1
                    && (#[trigger] self@[j]).patient_ids@.contains(id)) implies
                    out.to_set().contains(id) by {
                    let j = choose|j: int| 0 <= j < i + 1 && (#[trigger] self@[
                        j]).patient_ids@.contains(id);
                    if j < i {
                        assert(before.contains(id));
                    } else {
                        assert(self@[i as int].patient_ids.to_set().contains(id));
                    }
                }
                assert(out.to_set() =~= Set::new(|id: PatientId| exists|j: int| 0 <= j < i + 1
                    && (#[trigger] self@[j]).patient_ids@.contains(id)));
            }
            i += 1;
        }
        out
    }
}

impl CodeRubricCounts {
    /// The positions of every entry recorded for this code, in order.
    pub fn find_by_code(&self, code: ReadCode) -> (r: Vec<usize>)
        ensures
            forall|j: int| 0 <= j < r@.len() ==> (#[trigger] r@[j]) < self@.len()
                && self@[r@[j] as int].code_rubric.code == code,
            forall|i: int| 0 <= i < self@.len() && (#[trigger] self@[i]).code_rubric.code
                == code ==> exists|j: int| 0 <= j < r@.len() && (#[trigger] r@[j]) == i,
    {
        let n = self.els.len();
        let mut out: Vec<usize> = Vec::new();
        let mut i: usize = 0;
        while i < n
            invariant
                0 <= i <= n,
                n == self@.len(),
                forall|j: int| 0 <= j < out@.len() ==> (#[trigger] out@[j]) < self@.len()
                    && self@[out@[j] as int].code_rubric.code == code,
                forall|m: int| 0 <= m < i && (#[trigger] self@[m]).code_rubric.code == code
                    ==> exists|j: int| 0 <= j < out@.len() && (#[trigger] out@[j]) == m,
            decreases n - i,
        {
            let ghost out0 = out@;
            if self.els[i].code_rubric.code == code {
                out.push(i);
                proof {
                    assert(out@[out@.len() - 1] == i as int);
                    assert forall|m: int| 0 <= m < i + 1 && (#[trigger] self@[
                        m]).code_rubric.code == code implies exists|j: int| 0 <= j < out@.len()
                        && (#[trigger] out@[j]) == m by {
                        if m < i {
                            let j = choose|j: int| 0 <= j < out0.len() && (#[trigger] out0[j])
                                == m;
                            assert(out@[j] == m);
                        } else {
                            assert(out@[out@.len() - 1] == m);
                        }
                    }
                }
            }
            i += 1;
        }
        out
    }
}

/// The position of the entry holding this code/free-text pair.
fn find_pair(els: &Vec<CodeRubricCount>, code: ReadCode, rubric: &String) -> (r: Option<
    usize,
>)
    ensures
        r matches Some(i) ==> i < els@.len() && els@[i as int].code_rubric.code == code
            && els@[i as int].code_rubric.rubric@ == rubric@,
        r is None ==> forall|i: int| 0 <= i < els@.len() ==> !((#[trigger] els@[
            i]).code_rubric.code == code && els@[i].code_rubric.rubric@ == rubric@),
{
    let n = els.len();
    let mut i: usize = 0;
    while i < n
        invariant
            0 <= i <= n,
            n == els@.len(),
            forall|j: int| 0 <= j < i ==> !((#[trigger] els@[j]).code_rubric.code == code
                && els@[j].code_rubric.rubric@ == rubric@),
        decreases n - i,
    {
        if els[i].code_rubric.code == code && els[i].code_rubric.rubric == *rubric {
            return Some(i);
        }
        i += 1;
    }
    None
}

/// One more event extends its own pair's patient set by its subject, and no
/// other pair's.
proof fn lemma_pair_step(events: Seq<Event>, k: int)
    requires
        0 <= k < events.len(),
    ensures
        forall|code: ReadCode, rubric: Seq<char>| #[trigger] spec_pair_ids(events.take(k + 1),
            code, rubric) =~= (if events[k].read_code == code && events[k].rubric@ == rubric {
            spec_pair_ids(events.take(k), code, rubric).insert(events[k].patient_id)
        } else {
            spec_pair_ids(events.take(k), code, rubric)
        }),
        forall|code: ReadCode, rubric: Seq<char>| #[trigger] spec_pair_seen(events.take(k + 1),
            code, rubric) == (spec_pair_seen(events.take(k), code, rubric) || (events[
            k].read_code == code && events[k].rubric@ == rubric)),
{
    assert forall|code: ReadCode, rubric: Seq<char>| #[trigger] spec_pair_ids(events.take(
        k + 1), code, rubric) =~= (if events[k].read_code == code && events[k].rubric@
        == rubric {
        spec_pair_ids(events.take(k), code, rubric).insert(events[k].patient_id)
    } else {
        spec_pair_ids(events.take(k), code, rubric)
    }) by {
        let pre = events.take(k);
        let cur = events.take(k + 1);
        assert forall|id: PatientId| spec_pair_ids(cur, code, rubric).contains(id) implies (
            if events[k].read_code == code && events[k].rubric@ == rubric {
            spec_pair_ids(pre, code, rubric).insert(events[k].patient_id)
        } else {
            spec_pair_ids(pre, code, rubric)
        }).contains(id) by {
            let m = choose|m: int| 0 <= m < cur.len() && (#[trigger] cur[m]).patient_id == id
                && cur[m].read_code == code && cur[m].rubric@ == rubric;
            if m < k {
                assert(pre[m] == cur[m]);
                assert(spec_pair_ids(pre, code, rubric).contains(id));
            } else {
                assert(cur[m] == events[k]);
            }
        }
        assert forall|id: PatientId| (if events[k].read_code == code && events[k].rubric@
            == rubric {
            spec_pair_ids(pre, code, rubric).insert(events[k].patient_id)
        } else {
            spec_pair_ids(pre, code, rubric)
        }).contains(id) implies spec_pair_ids(cur, code, rubric).contains(id) by {
            if spec_pair_ids(pre, code, rubric).contains(id) {
                let m = choose|m: int| 0 <= m < pre.len() && (#[trigger] pre[m]).patient_id
                    == id && pre[m].read_code == code && pre[m].rubric@ == rubric;
                assert(cur[m] == pre[m]);
                assert(0 <= m < cur.len() && cur[m].patient_id == id && cur[m].read_code
                    == code && cur[m].rubric@ == rubric);
            } else {
                assert(cur[k] == events[k]);
                assert(0 <= k < cur.len() && cur[k].patient_id == id && cur[k].read_code
                    == code && cur[k].rubric@ == rubric);
            }
        }
    }
    assert forall|code: ReadCode, rubric: Seq<char>| #[trigger] spec_pair_seen(events.take(
        k + 1), code, rubric) == (spec_pair_seen(events.take(k), code, rubric) || (events[
        k].read_code == code && events[k].rubric@ == rubric)) by {
        let pre = events.take(k);
        let cur = events.take(k + 1);
        if spec_pair_seen(cur, code, rubric) {
            let m = choose|m: int| 0 <= m < cur.len() && (#[trigger] cur[m]).read_code == code
                && cur[m].rubric@ == rubric;
            if m < k {
                assert(pre[m] == cur[m]);
                assert(spec_pair_seen(pre, code, rubric));
            } else {
                assert(cur[m] == events[k]);
            }
        }
        if spec_pair_seen(pre, code, rubric) {
            let m = choose|m: int| 0 <= m < pre.len() && (#[trigger] pre[m]).read_code == code
                && pre[m].rubric@ == rubric;
            assert(cur[m] == pre[m]);
            assert(spec_pair_seen(cur, code, rubric));
        }
        if events[k].read_code == code && events[k].rubric@ == rubric {
            assert(cur[k] == events[k]);
            assert(spec_pair_seen(cur, code, rubric));
        }
    }
}

/// An entry stays consistent when one more event is taken in: its patient
/// set gains the event's subject exactly when the event carries its pair.
proof fn lemma_entry_step(before: CodeRubricCount, after: CodeRubricCount, events: Seq<Event>,
    k: int, th: Thesaurus, hit: bool)
    requires
        0 <= k < events.len(),
        count_entry_ok(before, events.take(k), th),
        after.code_rubric.code == before.code_rubric.code,
        after.code_rubric.rubric@ == before.code_rubric.rubric@,
        after.description@ == before.description@,
        after.patient_ids.wf(),
        hit == (events[k].read_code == before.code_rubric.code && events[k].rubric@
            == before.code_rubric.rubric@),
        after.patient_ids.to_set() == (if hit {
            before.patient_ids.to_set().insert(events[k].patient_id)
        } else {
            before.patient_ids.to_set()
        }),
    ensures
        count_entry_ok(after, events.take(k + 1), th),
{
    lemma_pair_step(events, k);
    assert(spec_pair_seen(events.take(k + 1), after.code_rubric.code,
        after.code_rubric.rubric@));
}

/// The predicate "this event belongs to the patient".
pub open spec fn patient_pred(id: PatientId) -> spec_fn(Event) -> bool {
    |e: Event| e.patient_id == id
}

/// The predicate "this event's code is in the set".
pub open spec fn codeset_pred(cs: CodeSet) -> spec_fn(Event) -> bool {
    |e: Event| cs@.contains(e.read_code)
}

/// A field-by-field copy of an event.
pub fn clone_event(e: &Event) -> (r: Event)
    ensures
        r == *e,
{
    Event {
        patient_id: e.patient_id,
        date: e.date,
        read_code: e.read_code,
        rubric: clone_string(&e.rubric),
        code_value: clone_opt_string(&e.code_value),
        code_units: clone_opt_string(&e.code_units),
        source: clone_string(&e.source),
    }
}

/// A copy of a string (string clones are equal to their source).
pub fn clone_string(s: &String) -> (r: String)
    ensures
        r == *s,
{
    s.clone()
}

/// A copy of an optional string.
pub fn clone_opt_string(s: &Option<String>) -> (r: Option<String>)
    ensures
        r == *s,
{
    match s {
        Some(v) => Some(v.clone()),
        None => None,
    }
}

} // verus!
