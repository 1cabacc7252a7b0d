//! Long-term-condition rules over coded events.
//!
//! Each tracked condition is a fixed rule over the event record: simple code
//! presence, presence within a recency window, a count threshold within a
//! window, or a boolean composition of such rules. The rules are data; one
//! interpreter evaluates them all, against a reference date and a window
//! start that the caller derives from it by calendar arithmetic.

use vstd::prelude::*;

use crate::read2::CodeSet;
use crate::records::{Day, Event, Events};

verus! {

/// The calendar year of a day number. Named, not stated: calendar structure
/// is the date library's, and the result depends on the day number alone.
pub uninterp spec fn spec_year_of_day(d: Day) -> i32;

/// The day number of the same month and day in another year. Named, not
/// stated: calendar structure is the date library's, and the result depends
/// on the arguments alone.
pub uninterp spec fn spec_day_with_year(d: Day, year: i32) -> Day;

/// Relies on `chrono::NaiveDate::from_num_days_from_ce_opt` and
/// `chrono::Datelike::year`: the calendar year of a day number, or `None`
/// when the day number is outside the date library's range.
#[verifier::external_body]
pub fn year_of_day(d: Day) -> (r: Option<i32>)
    ensures
        r matches Some(y) ==> y == spec_year_of_day(d),
{
    let nd = chrono::NaiveDate::from_num_days_from_ce_opt(i32::try_from(d).ok()?)?;
    Some(chrono::Datelike::year(&nd))
}

/// Relies on `chrono::Datelike::with_year`: the same month and day in the
/// given year, or `None` when the day number is out of range or that date
/// does not exist in the target year (February 29).
#[verifier::external_body]
pub fn day_with_year(d: Day, year: i32) -> (r: Option<Day>)
    ensures
        r matches Some(x) ==> x == spec_day_with_year(d, year),
{
    let nd = chrono::NaiveDate::from_num_days_from_ce_opt(i32::try_from(d).ok()?)?;
    let nd2 = chrono::Datelike::with_year(&nd, year)?;
    u64::try_from(chrono::Datelike::num_days_from_ce(&nd2)).ok()
}

/// The given date moved by a number of years, keeping month and day. `None`
/// when the calendar offers no such date (February 29, or a date out of the
/// date library's range).
pub fn date_y(date: Day, years: i32) -> (r: Option<Day>)
    ensures
        r matches Some(x) ==> i32::MIN <= spec_year_of_day(date) + years <= i32::MAX
            && x == spec_day_with_year(date, (spec_year_of_day(date) + years) as i32),
{
    let y = match year_of_day(date) {
        Some(y) => y,
        None => {
            return None;
        },
    };
    let target = match y.checked_add(years) {
        Some(t) => t,
        None => {
            return None;
        },
    };
    day_with_year(date, target)
}

/// One long-term-condition rule: a boolean predicate over a subject's event
/// record, a reference date, and a recency-window start.
#[derive(Debug)]
pub enum Rule {
    /// Some event on or before the reference date carries a code of the set.
    Presence(CodeSet),
    /// Some event after the window start and not after the reference date
    /// carries a code of the set.
    PresenceWithin(CodeSet),
    /// At least this many events in the window carry codes of the set.
    CountAtLeastWithin(CodeSet, u64),
    /// Both sub-rules hold.
    Both(Box<Rule>, Box<Rule>),
    /// At least one of the sub-rules holds.
    Either(Box<Rule>, Box<Rule>),
    /// The sub-rule does not hold.
    Negated(Box<Rule>),
}

/// How many events of the window carry codes of the set.
pub open spec fn spec_window_count(events: Seq<Event>, cs: CodeSet, date: Day,
    window_start: Day) -> nat
    decreases events.len(),
{
    if events.len() == 0 {
        0
    } else {
        spec_window_count(events.drop_last(), cs, date, window_start) + if window_start
            < events.last().date && events.last().date <= date && cs@.contains(
            events.last().read_code) {
            1nat
        } else {
            0nat
        }
    }
}

/// A window count never exceeds the number of events.
pub proof fn lemma_window_count_le(events: Seq<Event>, cs: CodeSet, date: Day,
    window_start: Day)
    ensures
        spec_window_count(events, cs, date, window_start) <= events.len(),
    decreases events.len(),
{
    if events.len() > 0 {
        lemma_window_count_le(events.drop_last(), cs, date, window_start);
    }
}

/// The meaning of a rule over a subject's events.
pub open spec fn spec_eval(r: Rule, events: Seq<Event>, date: Day, window_start: Day) -> bool
    decreases r,
{
    match r {
        Rule::Presence(cs) => exists|k: int| 0 <= k < events.len()
            && (#[trigger] events[k]).date <= date && cs@.contains(events[k].read_code),
        Rule::PresenceWithin(cs) => exists|k: int| 0 <= k < events.len() && window_start
            < (#[trigger] events[k]).date && events[k].date <= date && cs@.contains(
            events[k].read_code),
        Rule::CountAtLeastWithin(cs, t) => spec_window_count(events, cs, date, window_start)
            >= t,
        Rule::Both(a, b) => spec_eval(*a, events, date, window_start) && spec_eval(*b, events,
            date, window_start),
        Rule::Either(a, b) => spec_eval(*a, events, date, window_start) || spec_eval(*b,
            events, date, window_start),
        Rule::Negated(b) => !spec_eval(*b, events, date, window_start),
    }
}

impl Rule {
    /// Evaluate the rule over a subject's events, against a reference date
    /// and a window start (normally one year before it).
    pub fn test(&self, events: &Events, date: Day, window_start: Day) -> (r: bool)
        ensures
            r == spec_eval(*self, events@, date, window_start),
        decreases *self,
    {
        match self {
            Rule::Presence(cs) => {
                let evs = events.iter();
                let n = evs.len();
                let mut k: usize = 0;
                while k < n
                    invariant
                        0 <= k <= n,
                        n == events@.len(),
                        evs@ == events@,
                        *self == Rule::Presence(*cs),
                        forall|j: int| 0 <= j < k ==> !((#[trigger] events@[j]).date <= date
                            && cs@.contains(events@[j].read_code)),
                    decreases n - k,
                {
                    if evs[k].date <= date && cs.contains(evs[k].read_code) {
                        proof {
                            assert(events@[k as int].date <= date && cs@.contains(
                                events@[k as int].read_code));
                        }
                        return true;
                    }
                    k += 1;
                }
                false
            },
            Rule::PresenceWithin(cs) => {
                let evs = events.iter();
                let n = evs.len();
                let mut k: usize = 0;
                while k < n
                    invariant
                        0 <= k <= n,
                        n == events@.len(),
                        evs@ == events@,
                        *self == Rule::PresenceWithin(*cs),
                        forall|j: int| 0 <= j < k ==> !(window_start < (#[trigger] events@[
                            j]).date && events@[j].date <= date && cs@.contains(
                            events@[j].read_code)),
                    decreases n - k,
                {
                    if window_start < evs[k].date && evs[k].date <= date && cs.contains(
                        evs[k].read_code) {
                        proof {
                            assert(window_start < events@[k as int].date && events@[
                                k as int].date <= date && cs@.contains(
                                events@[k as int].read_code));
                        }
                        return true;
                    }
                    k += 1;
                }
                false
            },
            Rule::CountAtLeastWithin(cs, t) => {
                let evs = events.iter();
                let n = evs.len();
                let mut count: u64 = 0;
                let mut k: usize = 0;
                while k < n
                    invariant
                        0 <= k <= n,
                        n == events@.len(),
                        evs@ == events@,
                        count == spec_window_count(events@.take(k as int), *cs, date,
                            window_start),
                        count <= k,
                    decreases n - k,
                {
                    proof {
                        assert(events@.take(k + 1).drop_last() =~= events@.take(k as int));
                        assert(events@.take(k + 1).last() == events@[k as int]);
                        lemma_window_count_le(events@.take(k as int), *cs, date, window_start);
                        vstd::std_specs::vec::axiom_spec_len(evs);
                    }
                    if window_start < evs[k].date && evs[k].date <= date && cs.contains(
                        evs[k].read_code) {
                        count += 1;
                    }
                    k += 1;
                }
                proof {
                    assert(events@.take(n as int) =~= events@);
                }
                count >= *t
            },
            Rule::Both(a, b) => a.test(events, date, window_start) && b.test(events, date,
                window_start),
            Rule::Either(a, b) => a.test(events, date, window_start) || b.test(events, date,
                window_start),
            Rule::Negated(b) => !b.test(events, date, window_start),
        }
    }
}

} // verus!
