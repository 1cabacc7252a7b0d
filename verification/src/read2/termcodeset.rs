//! A term set materialized against a thesaurus: the concrete set of codes
//! whose descriptions satisfy the term set, with machinery to audit for
//! unmatched descendants and staleness.

use vstd::prelude::*;

use crate::read2::codeset::CodeSet;
use crate::read2::termset::TermSet;
use crate::read2::thesaurus::{is_descendant, ThEntry, Thesaurus};
use crate::read2::{canonical_code, spec_code_lt, ParseError, ReadCode};

verus! {

/// The codes of the thesaurus entries whose descriptions match the term
/// set, in thesaurus (ascending) order.
pub open spec fn spec_matching_codes(ts: TermSet, th: Seq<ThEntry>) -> Seq<ReadCode>
    decreases th.len(),
{
    if th.len() == 0 {
        Seq::empty()
    } else {
        let rest = spec_matching_codes(ts, th.drop_last());
        if ts.spec_is_match_multi(th.last().1.deep_view()) {
            rest.push(th.last().0)
        } else {
            rest
        }
    }
}

/// Compute the code set a term set selects from a thesaurus.
fn compute_code_set(ts: &TermSet, th: &Thesaurus) -> (r: CodeSet)
    requires
        th.wf(),
    ensures
        r.wf(),
        r@ == spec_matching_codes(*ts, th@),
{
    let entries = th.iter();
    let n = entries.len();
    let mut cs = CodeSet::new();
    let mut i: usize = 0;
    while i < n
        invariant
            0 <= i <= n,
            n == th@.len(),
            entries@ == th@,
            th.wf(),
            cs.wf(),
            cs@ =~= spec_matching_codes(*ts, th@.take(i as int)),
            forall|j: int| 0 <= j < cs@.len() ==> exists|m: int| 0 <= m < i
                && (#[trigger] cs@[j]) == th@[m].0,
        decreases n - i,
    {
        proof {
            assert(th@.take(i + 1).drop_last() =~= th@.take(i as int));
            assert(th@.take(i + 1).last() == th@[i as int]);
        }
        let e = &entries[i];
        proof {
            assert(entries@[i as int] == th@[i as int]);
        }
        if ts.is_match_multi(&e.1) {
            proof {
                assert forall|j: int| 0 <= j < cs@.len() implies spec_code_lt(
                    (#[trigger] cs@[j])@, th@[i as int].0@) by {
                    let m = choose|m: int| 0 <= m < i && cs@[j] == th@[m].0;
                    assert(spec_code_lt(th@[m].0@, th@[i as int].0@));
                }
                assert(th@[i as int].0.wf());
            }
            let ghost cs0 = cs@;
            cs.push_max(e.0);
            proof {
                assert forall|j: int| 0 <= j < cs@.len() implies exists|m: int| 0 <= m < i + 1
                    && (#[trigger] cs@[j]) == th@[m].0 by {
                    if j < cs0.len() {
                        assert(cs@[j] == cs0[j]);
                        let m = choose|m: int| 0 <= m < i && cs0[j] == th@[m].0;
                        assert(cs@[j] == th@[m].0);
                    } else {
                        assert(cs@[j] == th@[i as int].0);
                    }
                }
            }
        }
        i += 1;
    }
    proof {
        assert(th@.take(n as int) =~= th@);
    }
    cs
}

/// Every description of the entry fails both the include and the exclude
/// filters: the term-set author never considered this entry.
pub open spec fn spec_unconsidered(ts: TermSet, e: ThEntry) -> bool {
    forall|i: int| 0 <= i < e.1.deep_view().len() ==> !ts.spec_is_match_inc_or_ex(
        #[trigger] e.1.deep_view()[i])
}

/// Some thesaurus entry holds this code and matches the term set.
pub open spec fn spec_entry_matched(ts: TermSet, th: Seq<ThEntry>, c: ReadCode) -> bool {
    exists|m: int| 0 <= m < th.len() && (#[trigger] th[m]).0 == c && ts.spec_is_match_multi(
        th[m].1.deep_view())
}

/// Some thesaurus entry holds this code, is a strict descendant of a member
/// of the code set, and is wholly unconsidered by the term set.
pub open spec fn spec_unmatched_descendant(ts: TermSet, th: Seq<ThEntry>, codes: Seq<ReadCode>,
    c: ReadCode) -> bool {
    exists|m: int| 0 <= m < th.len() && (#[trigger] th[m]).0 == c && spec_unconsidered(ts, th[m])
        && (exists|p: int| 0 <= p < codes.len() && is_descendant(c, #[trigger] codes[p]))
}

/// A term set with its materialized code set: the codes of the thesaurus
/// whose descriptions satisfy the term set.
#[derive(Debug, Clone)]
pub struct TermCodeSet {
    /// The codes in this code set.
    pub code_set: CodeSet,
    /// The term set used to create this code set.
    pub term_set: TermSet,
    /// The thesaurus the code set is materialized against.
    pub th: Thesaurus,
}

impl TermCodeSet {
    /// The thesaurus this code set was materialized against.
    pub open spec fn spec_th(&self) -> Thesaurus {
        self.th
    }

    /// The code set is exactly what the term set selects from the thesaurus.
    pub open spec fn synced(&self) -> bool {
        self.code_set@ == spec_matching_codes(self.term_set, self.spec_th()@)
    }

    /// Assemble a term/code set from parts (for example, parts loaded
    /// independently from disk). The parts are taken as they are: `check`
    /// audits whether they are in sync.
    pub fn new(code_set: CodeSet, term_set: TermSet, th: Thesaurus) -> (r: TermCodeSet)
        ensures
            r.code_set == code_set,
            r.term_set == term_set,
            r.spec_th() == th,
    {
        TermCodeSet { code_set, term_set, th }
    }

    /// The thesaurus entries, for callers that audit against it.
    pub fn thesaurus(&self) -> (r: &Thesaurus)
        ensures
            r == self.spec_th(),
    {
        &self.th
    }

    /// Add an include term and recompute the code set from the thesaurus.
    /// A term that fails to parse is rejected and nothing changes.
    pub fn add_include(&mut self, term: String) -> (r: Result<(), ParseError>)
        requires
            old(self).term_set.wf(),
            old(self).spec_th().wf(),
        ensures
            final(self).term_set.wf(),
            final(self).spec_th() == old(self).spec_th(),
            (r is Ok) == (crate::read2::filter::spec_compile(term@) is Ok),
            r is Ok ==> final(self).term_set.spec_include_terms()
                == old(self).term_set.spec_include_terms().push(term@) && final(self).synced(),
            r is Err ==> *final(self) == *old(self),
    {
        match self.term_set.add_include(term) {
            Ok(()) => {},
            Err(e) => {
                return Err(e);
            },
        }
        self.code_set = compute_code_set(&self.term_set, &self.th);
        Ok(())
    }

    /// Add an exclude term and recompute the code set from the thesaurus.
    /// A term that fails to parse is rejected and nothing changes.
    pub fn add_exclude(&mut self, term: String) -> (r: Result<(), ParseError>)
        requires
            old(self).term_set.wf(),
            old(self).spec_th().wf(),
        ensures
            final(self).term_set.wf(),
            final(self).spec_th() == old(self).spec_th(),
            (r is Ok) == (crate::read2::filter::spec_compile(term@) is Ok),
            r is Ok ==> final(self).term_set.spec_exclude_terms()
                == old(self).term_set.spec_exclude_terms().push(term@) && final(self).synced(),
            r is Err ==> *final(self) == *old(self),
    {
        match self.term_set.add_exclude(term) {
            Ok(()) => {},
            Err(e) => {
                return Err(e);
            },
        }
        self.code_set = compute_code_set(&self.term_set, &self.th);
        Ok(())
    }

    /// Check whether a code is in the materialized set (exact membership).
    pub fn contains(&self, code: ReadCode) -> (r: bool)
        ensures
            r == self.code_set@.contains(code),
    {
        self.code_set.contains(code)
    }

    /// Whether a code with these descriptions matches the term set.
    pub fn is_match(&self, descriptions: &Vec<String>) -> (r: bool)
        ensures
            r == self.term_set.spec_is_match_multi(descriptions.deep_view()),
    {
        self.term_set.is_match_multi(descriptions)
    }

    /// All descendant codes of members of the set whose every known
    /// description matches neither the include nor the exclude filters: a
    /// worklist of codes the term-set author should consider explicitly.
    pub fn descendants_not_included_or_excluded(&self) -> (r: CodeSet)
        requires
            self.spec_th().wf(),
            self.code_set.wf(),
        ensures
            r.wf(),
            forall|c: ReadCode| r@.contains(c) ==> spec_unmatched_descendant(
                self.term_set, self.spec_th()@, self.code_set@, c),
            (forall|p: int| 0 <= p < self.code_set@.len() ==> canonical_code(
                (#[trigger] self.code_set@[p])@)) ==> forall|c: ReadCode|
                spec_unmatched_descendant(self.term_set, self.spec_th()@, self.code_set@, c)
                ==> r@.contains(c),
    {
        let codes = self.code_set.iter();
        let n = codes.len();
        let mut out = CodeSet::new();
        let mut p: usize = 0;
        while p < n
            invariant
                0 <= p <= n,
                n == self.code_set@.len(),
                codes@ == self.code_set@,
                self.spec_th().wf(),
                self.code_set.wf(),
                out.wf(),
                forall|c: ReadCode| out@.contains(c) ==> spec_unmatched_descendant(
                    self.term_set, self.spec_th()@, self.code_set@, c),
                forall|m: int, q: int| 0 <= m < self.spec_th()@.len() && 0 <= q < p
                    && spec_unconsidered(self.term_set, #[trigger] self.spec_th()@[m])
                    && is_descendant(self.spec_th()@[m].0, #[trigger] self.code_set@[q])
                    && canonical_code(self.code_set@[q]@)
                    ==> out@.contains(self.spec_th()@[m].0),
            decreases n - p,
        {
            let parent = codes[p];
            proof {
                assert(self.code_set@[p as int].wf());
            }
            let descendants = self.th.iter_descendants(parent);
            let m = descendants.len();
            let mut k: usize = 0;
            while k < m
                invariant
                    0 <= k <= m,
                    m == descendants@.len(),
                    0 <= p < n,
                    n == self.code_set@.len(),
                    codes@ == self.code_set@,
                    parent == self.code_set@[p as int],
                    self.spec_th().wf(),
                    self.code_set.wf(),
                    out.wf(),
                    forall|j: int| 0 <= j < descendants@.len() ==> is_descendant(
                        (#[trigger] descendants@[j]).0, parent) && crate::read2::thesaurus::entry_in(
                        descendants@[j], self.spec_th()@),
                    canonical_code(parent@) ==> crate::read2::thesaurus::entries_match(
                        descendants@, self.spec_th()@.filter(
                        crate::read2::thesaurus::descendant_pred(parent))),
                    forall|c: ReadCode| out@.contains(c) ==> spec_unmatched_descendant(
                        self.term_set, self.spec_th()@, self.code_set@, c),
                    forall|mm: int, q: int| 0 <= mm < self.spec_th()@.len()
                        && 0 <= q < p
                        && spec_unconsidered(self.term_set, #[trigger] self.spec_th()@[mm])
                        && is_descendant(self.spec_th()@[mm].0, #[trigger] self.code_set@[q])
                        && canonical_code(self.code_set@[q]@)
                        ==> out@.contains(self.spec_th()@[mm].0),
                    forall|j: int| 0 <= j < k && spec_unconsidered_texts(
                        self.term_set, (#[trigger] descendants@[j]).1.deep_view())
                        ==> out@.contains(descendants@[j].0),
                decreases m - k,
            {
                let entry = &descendants[k];
                if !self.any_considered(&entry.1) {
                    proof {
                        // this entry comes from the thesaurus and all its
                        // descriptions are unconsidered there
                        let mm = choose|mm: int| 0 <= mm < self.spec_th()@.len()
                            && (#[trigger] self.spec_th()@[mm]).0 == descendants@[k as int].0
                            && self.spec_th()@[mm].1@ == descendants@[k as int].1@;
                        assert(self.spec_th()@[mm].1.deep_view() =~= descendants@[
                            k as int].1.deep_view());
                        assert(spec_unconsidered(self.term_set, self.spec_th()@[mm]));
                        assert(entry.0.wf()) by {
                            assert(self.spec_th()@[mm].0.wf());
                        }
                        assert(spec_unmatched_descendant(self.term_set, self.spec_th()@,
                            self.code_set@, descendants@[k as int].0)) by {
                            assert(is_descendant(descendants@[k as int].0,
                                self.code_set@[p as int]));
                        }
                    }
                    let ghost out0 = out@;
                    out.insert(entry.0);
                    proof {
                        assert forall|c: ReadCode| out@.contains(c) implies
                            spec_unmatched_descendant(self.term_set, self.spec_th()@,
                            self.code_set@, c) by {
                            assert(out.to_set().contains(c));
                            if c != descendants@[k as int].0 {
                                assert(out0.to_set().contains(c));
                                assert(out0.contains(c));
                            }
                        }
                        assert forall|mm: int, q: int|
                            0 <= mm < self.spec_th()@.len() && 0 <= q < p
                            && spec_unconsidered(self.term_set, #[trigger] self.spec_th()@[mm])
                            && is_descendant(self.spec_th()@[mm].0,
                            #[trigger] self.code_set@[q]) && canonical_code(
                            self.code_set@[q]@) implies out@.contains(
                            self.spec_th()@[mm].0) by {
                            assert(out0.contains(self.spec_th()@[mm].0));
                            assert(out.to_set().contains(self.spec_th()@[mm].0));
                        }
                        assert forall|j: int| 0 <= j < k + 1 && spec_unconsidered_texts(
                            self.term_set, (#[trigger] descendants@[j]).1.deep_view())
                            implies out@.contains(descendants@[j].0) by {
                            if j < k {
                                assert(out0.contains(descendants@[j].0));
                                assert(out.to_set().contains(descendants@[j].0));
                            } else {
                                assert(out@.contains(descendants@[k as int].0));
                            }
                        }
                    }
                } else {
                    proof {
                        let dv = descendants@[k as int].1.deep_view();
                        assert(!spec_unconsidered_texts(self.term_set, dv));
                    }
                }
                k += 1;
            }
            proof {
                // for a canonical parent the scan covered every descendant
                // entry of the thesaurus, so the outer completeness invariant
                // extends to this parent
                assert forall|mm: int, q: int| 0 <= mm < self.spec_th()@.len()
                    && 0 <= q < p + 1
                    && spec_unconsidered(self.term_set, #[trigger] self.spec_th()@[mm])
                    && is_descendant(self.spec_th()@[mm].0, #[trigger] self.code_set@[q])
                    && canonical_code(self.code_set@[q]@)
                    implies out@.contains(self.spec_th()@[mm].0) by {
                    if q == p {
                        let c = self.spec_th()@[mm].0;
                        let th_seq = self.spec_th()@;
                        let fpred = crate::read2::thesaurus::descendant_pred(parent);
                        let fs = th_seq.filter(fpred);
                        th_seq.filter_lemma(fpred);
                        assert(fpred(th_seq[mm]));
                        assert(fs.contains(th_seq[mm]));
                        let j = choose|j: int| 0 <= j < fs.len() && fs[j] == th_seq[mm];
                        assert(descendants@[j].0 == fs[j].0);
                        assert(descendants@[j].1.deep_view() =~= fs[j].1.deep_view());
                        assert(spec_unconsidered_texts(self.term_set,
                            descendants@[j].1.deep_view())) by {
                            assert(spec_unconsidered(self.term_set, th_seq[mm]));
                        }
                        assert(out@.contains(descendants@[j].0));
                    }
                }
            }
            p += 1;
        }
        proof {
            if forall|q: int| 0 <= q < self.code_set@.len() ==> canonical_code(
                (#[trigger] self.code_set@[q])@) {
                assert forall|c: ReadCode| spec_unmatched_descendant(self.term_set,
                    self.spec_th()@, self.code_set@, c) implies out@.contains(c) by {
                    let mm = choose|mm: int| 0 <= mm < self.spec_th()@.len()
                        && (#[trigger] self.spec_th()@[mm]).0 == c && spec_unconsidered(
                        self.term_set, self.spec_th()@[mm]) && (exists|q: int|
                        0 <= q < self.code_set@.len() && is_descendant(
                        c, #[trigger] self.code_set@[q]));
                    let q = choose|q: int| 0 <= q < self.code_set@.len() && is_descendant(
                        c, #[trigger] self.code_set@[q]);
                    assert(canonical_code(self.code_set@[q]@));
                    assert(out@.contains(self.spec_th()@[mm].0));
                }
            }
        }
        out
    }

    /// The codes of the set, each with the descriptions the thesaurus knows
    /// for it (empty for a code the thesaurus lacks), in ascending order.
    pub fn iter(&self) -> (r: Vec<(ReadCode, Vec<String>)>)
        ensures
            r@.len() == self.code_set@.len(),
            forall|i: int| 0 <= i < r@.len() ==> (#[trigger] r@[i]).0 == self.code_set@[i],
            forall|i: int| 0 <= i < r@.len() ==> (self.spec_th().has_code(self.code_set@[i])
                ==> exists|m: int| 0 <= m < self.spec_th()@.len() && (#[trigger] self.spec_th(
                )@[m]).0 == self.code_set@[i] && (#[trigger] r@[i]).1@ == self.spec_th()@[m].1@),
            forall|i: int| 0 <= i < r@.len() ==> (!self.spec_th().has_code(self.code_set@[i])
                ==> (#[trigger] r@[i]).1@ == Seq::<String>::empty()),
    {
        let codes = self.code_set.iter();
        let n = codes.len();
        let mut out: Vec<(ReadCode, Vec<String>)> = Vec::new();
        let mut i: usize = 0;
        while i < n
            invariant
                0 <= i <= n,
                n == self.code_set@.len(),
                codes@ == self.code_set@,
                out@.len() == i,
                forall|j: int| 0 <= j < i ==> (#[trigger] out@[j]).0 == self.code_set@[j],
                forall|j: int| 0 <= j < i ==> (self.spec_th().has_code(self.code_set@[j])
                    ==> exists|m: int| 0 <= m < self.spec_th()@.len() && (#[trigger] self
                    .spec_th()@[m]).0 == self.code_set@[j] && (#[trigger] out@[j]).1@ == self
                    .spec_th()@[m].1@),
                forall|j: int| 0 <= j < i ==> (!self.spec_th().has_code(self.code_set@[j])
                    ==> (#[trigger] out@[j]).1@ == Seq::<String>::empty()),
            decreases n - i,
        {
            let code = codes[i];
            let descriptions = match self.th.get(code) {
                Some(d) => crate::read2::thesaurus::clone_descriptions(d),
                None => Vec::new(),
            };
            out.push((code, descriptions));
            i += 1;
        }
        out
    }

    /// Whether any of the descriptions matches an include or exclude filter.
    fn any_considered(&self, descriptions: &Vec<String>) -> (r: bool)
        ensures
            r == !spec_unconsidered_texts(self.term_set, descriptions.deep_view()),
    {
        let n = descriptions.len();
        let mut i: usize = 0;
        while i < n
            invariant
                0 <= i <= n,
                n == descriptions@.len(),
                forall|j: int| 0 <= j < i ==> !self.term_set.spec_is_match_inc_or_ex(
                    #[trigger] descriptions.deep_view()[j]),
            decreases n - i,
        {
            proof {
                assert(descriptions.deep_view()[i as int] == descriptions@[i as int]@);
            }
            if self.term_set.is_match_inc_or_ex(descriptions[i].as_str()) {
                proof {
                    assert(self.term_set.spec_is_match_inc_or_ex(descriptions.deep_view()[
                        i as int]));
                }
                return true;
            }
            i += 1;
        }
        false
    }
}

/// The codes of the set whose thesaurus descriptions no longer satisfy the
/// term set: the code set is stale.
pub open spec fn spec_extra(tcs: TermCodeSet) -> Set<ReadCode> {
    Set::new(|c: ReadCode| tcs.code_set@.contains(c) && tcs.th.has_code(c) && !spec_entry_matched(
        tcs.term_set, tcs.th@, c))
}

/// The codes of the set that the thesaurus does not know at all: version
/// skew between code set and thesaurus.
pub open spec fn spec_missing_codes(tcs: TermCodeSet) -> Set<ReadCode> {
    Set::new(|c: ReadCode| tcs.code_set@.contains(c) && !tcs.th.has_code(c))
}

/// The thesaurus codes that satisfy the term set but are absent from the
/// code set: the set is stale or the thesaurus has grown.
pub open spec fn spec_missing(tcs: TermCodeSet) -> Set<ReadCode> {
    Set::new(|c: ReadCode| spec_entry_matched(tcs.term_set, tcs.th@, c)
        && !tcs.code_set@.contains(c))
}

/// The three-way consistency audit of a term/code set. Advisory only: it is
/// computed and reported for a human curator to act on, never enforced.
#[derive(Debug)]
pub struct CheckReport {
    /// Codes in the set whose descriptions do not satisfy the term set.
    pub extra: CodeSet,
    /// Codes outside the set whose descriptions do satisfy the term set.
    pub missing: CodeSet,
    /// Descendants of members that the author never considered.
    pub unmatched_descendants: CodeSet,
    /// Codes in the set that the thesaurus does not know.
    pub missing_codes: CodeSet,
}

impl TermCodeSet {
    /// Audit the code set against the term set and thesaurus: which codes no
    /// longer match (`extra`), which matching codes are absent (`missing`),
    /// which set codes the thesaurus lacks (`missing_codes`), and which
    /// descendants were never considered (`unmatched_descendants`).
    pub fn check(&self) -> (r: CheckReport)
        requires
            self.spec_th().wf(),
            self.code_set.wf(),
        ensures
            r.extra.wf() && r.extra.to_set() =~= spec_extra(*self),
            r.missing_codes.wf() && r.missing_codes.to_set() =~= spec_missing_codes(*self),
            r.missing.wf() && r.missing.to_set() =~= spec_missing(*self),
            r.unmatched_descendants.wf(),
            forall|c: ReadCode| r.unmatched_descendants@.contains(c) ==> spec_unmatched_descendant(
                self.term_set, self.spec_th()@, self.code_set@, c),
    {
        let codes = self.code_set.iter();
        let n = codes.len();
        let mut extra = CodeSet::new();
        let mut missing_codes = CodeSet::new();
        let mut i: usize = 0;
        while i < n
            invariant
                0 <= i <= n,
                n == self.code_set@.len(),
                codes@ == self.code_set@,
                self.spec_th().wf(),
                self.code_set.wf(),
                extra.wf(),
                missing_codes.wf(),
                forall|c: ReadCode| extra@.contains(c) ==> spec_extra(*self).contains(c),
                forall|c: ReadCode| missing_codes@.contains(c) ==> spec_missing_codes(
                    *self).contains(c),
                forall|j: int| 0 <= j < i && spec_extra(*self).contains(
                    #[trigger] self.code_set@[j]) ==> extra@.contains(self.code_set@[j]),
                forall|j: int| 0 <= j < i && spec_missing_codes(*self).contains(
                    #[trigger] self.code_set@[j]) ==> missing_codes@.contains(
                    self.code_set@[j]),
            decreases n - i,
        {
            let c = codes[i];
            proof {
                assert(self.code_set@[i as int].wf());
                assert(self.code_set@.contains(c));
            }
            match self.th.get(c) {
                Some(descs) => {
                    let ghost k = choose|k: int| 0 <= k < self.th@.len()
                        && (#[trigger] self.th@[k]).0 == c && descs@ == self.th@[k].1@;
                    proof {
                        assert(descs.deep_view() =~= self.th@[k].1.deep_view());
                    }
                    if !self.term_set.is_match_multi(descs) {
                        proof {
                            // the unique entry for `c` does not match
                            assert(!spec_entry_matched(self.term_set, self.th@, c)) by {
                                if spec_entry_matched(self.term_set, self.th@, c) {
                                    let m = choose|m: int| 0 <= m < self.th@.len()
                                        && (#[trigger] self.th@[m]).0 == c
                                        && self.term_set.spec_is_match_multi(
                                        self.th@[m].1.deep_view());
                                    crate::read2::thesaurus::lemma_key_unique(self.th@, m, k);
                                }
                            }
                            assert(spec_extra(*self).contains(c));
                        }
                        let ghost extra0 = extra@;
                        extra.insert(c);
                        proof {
                            assert forall|x: ReadCode| extra@.contains(x) implies spec_extra(
                                *self).contains(x) by {
                                assert(extra.to_set().contains(x));
                                if x != c {
                                    assert(extra0.contains(x));
                                }
                            }
                            assert forall|x: ReadCode| extra0.contains(x) implies
                                extra@.contains(x) by {
                                assert(extra.to_set().contains(x));
                            }
                            assert(extra@.contains(c)) by {
                                assert(extra.to_set().contains(c));
                            }
                            assert(self.th.has_code(c));
                            assert(!spec_missing_codes(*self).contains(c));
                        }
                    } else {
                        proof {
                            assert(spec_entry_matched(self.term_set, self.th@, c)) by {
                                assert(self.term_set.spec_is_match_multi(
                                    self.th@[k].1.deep_view()));
                            }
                            assert(!spec_extra(*self).contains(c));
                            assert(!spec_missing_codes(*self).contains(c));
                        }
                    }
                },
                None => {
                    proof {
                        assert(spec_missing_codes(*self).contains(c));
                    }
                    let ghost mc0 = missing_codes@;
                    missing_codes.insert(c);
                    proof {
                        assert forall|x: ReadCode| missing_codes@.contains(x) implies
                            spec_missing_codes(*self).contains(x) by {
                            assert(missing_codes.to_set().contains(x));
                            if x != c {
                                assert(mc0.contains(x));
                            }
                        }
                        assert forall|x: ReadCode| mc0.contains(x) implies
                            missing_codes@.contains(x) by {
                            assert(missing_codes.to_set().contains(x));
                        }
                        assert(missing_codes@.contains(c)) by {
                            assert(missing_codes.to_set().contains(c));
                        }
                        assert(!spec_extra(*self).contains(c));
                    }
                },
            }
            i += 1;
        }
        proof {
            assert(extra.to_set() =~= spec_extra(*self)) by {
                assert forall|c: ReadCode| spec_extra(*self).contains(c) implies
                    extra.to_set().contains(c) by {
                    let j = choose|j: int|
                        0 <= j < self.code_set@.len() && self.code_set@[j] == c;
                    assert(extra@.contains(self.code_set@[j]));
                }
                assert forall|c: ReadCode| extra.to_set().contains(c) implies spec_extra(
                    *self).contains(c) by {
                    assert(extra@.contains(c));
                }
            }
            assert(missing_codes.to_set() =~= spec_missing_codes(*self)) by {
                assert forall|c: ReadCode| spec_missing_codes(*self).contains(c) implies
                    missing_codes.to_set().contains(c) by {
                    let j = choose|j: int|
                        0 <= j < self.code_set@.len() && self.code_set@[j] == c;
                    assert(missing_codes@.contains(self.code_set@[j]));
                }
                assert forall|c: ReadCode| missing_codes.to_set().contains(c) implies
                    spec_missing_codes(*self).contains(c) by {
                    assert(missing_codes@.contains(c));
                }
            }
        }
        // codes that should match but are not in the set
        let entries = self.th.iter();
        let m = entries.len();
        let mut missing = CodeSet::new();
        let mut t: usize = 0;
        while t < m
            invariant
                0 <= t <= m,
                m == self.th@.len(),
                entries@ == self.th@,
                self.spec_th().wf(),
                self.code_set.wf(),
                missing.wf(),
                forall|c: ReadCode| missing@.contains(c) ==> spec_missing(*self).contains(c),
                forall|j: int| 0 <= j < t && spec_missing(*self).contains(
                    (#[trigger] self.th@[j]).0) ==> missing@.contains(self.th@[j].0),
            decreases m - t,
        {
            let e = &entries[t];
            proof {
                assert(entries@[t as int] == self.th@[t as int]);
                assert(self.th@[t as int].0.wf());
            }
            let matched = self.term_set.is_match_multi(&e.1);
            let in_set = self.code_set.contains(e.0);
            if matched && !in_set {
                proof {
                    assert(spec_entry_matched(self.term_set, self.th@, e.0)) by {
                        assert((self.th@[t as int]).0 == e.0);
                        assert(self.term_set.spec_is_match_multi(
                            self.th@[t as int].1.deep_view()));
                    }
                    assert(spec_missing(*self).contains(e.0));
                }
                let ghost missing0 = missing@;
                missing.insert(e.0);
                proof {
                    assert forall|x: ReadCode| missing@.contains(x) implies spec_missing(
                        *self).contains(x) by {
                        assert(missing.to_set().contains(x));
                        if x != e.0 {
                            assert(missing0.contains(x));
                        }
                    }
                    assert forall|x: ReadCode| missing0.contains(x) implies missing@.contains(x)
                        by {
                        assert(missing.to_set().contains(x));
                    }
                    assert(missing@.contains(self.th@[t as int].0)) by {
                        assert(missing.to_set().contains(e.0));
                    }
                }
            } else {
                proof {
                    if spec_missing(*self).contains(self.th@[t as int].0) {
                        if !matched {
                            let mm = choose|mm: int| 0 <= mm < self.th@.len()
                                && (#[trigger] self.th@[mm]).0 == self.th@[t as int].0
                                && self.term_set.spec_is_match_multi(self.th@[mm].1.deep_view());
                            crate::read2::thesaurus::lemma_key_unique(self.th@, mm, t as int);
                        }
                    }
                }
            }
            t += 1;
        }
        proof {
            assert(missing.to_set() =~= spec_missing(*self)) by {
                assert forall|c: ReadCode| spec_missing(*self).contains(c) implies
                    missing.to_set().contains(c) by {
                    let mm = choose|mm: int| 0 <= mm < self.th@.len()
                        && (#[trigger] self.th@[mm]).0 == c && self.term_set.spec_is_match_multi(
                        self.th@[mm].1.deep_view());
                    assert(spec_missing(*self).contains(self.th@[mm].0));
                    assert(missing@.contains(self.th@[mm].0));
                }
                assert forall|c: ReadCode| missing.to_set().contains(c) implies spec_missing(
                    *self).contains(c) by {
                    assert(missing@.contains(c));
                }
            }
        }
        let unmatched_descendants = self.descendants_not_included_or_excluded();
        CheckReport { extra, missing, unmatched_descendants, missing_codes }
    }
}

/// Every one of the description texts fails both filter sets.
pub open spec fn spec_unconsidered_texts(ts: TermSet, texts: Seq<Seq<char>>) -> bool {
    forall|i: int| 0 <= i < texts.len() ==> !ts.spec_is_match_inc_or_ex(#[trigger] texts[i])
}

impl TermSet {
    /// Materialize this term set against a thesaurus: the resulting code set
    /// holds exactly the codes whose descriptions satisfy the term set.
    pub fn match_thesaurus(self, th: Thesaurus) -> (r: TermCodeSet)
        requires
            th.wf(),
        ensures
            r.term_set == self,
            r.spec_th() == th,
            r.code_set.wf(),
            r.synced(),
    {
        let code_set = compute_code_set(&self, &th);
        TermCodeSet { code_set, term_set: self, th }
    }
}

impl Thesaurus {
    /// Apply a term set's match predicate to every entry and produce the
    /// materialized term/code set.
    pub fn filter(self, term_set: TermSet) -> (r: TermCodeSet)
        requires
            self.wf(),
        ensures
            r.term_set == term_set,
            r.spec_th() == self,
            r.code_set.wf(),
            r.synced(),
    {
        let code_set = compute_code_set(&term_set, &self);
        TermCodeSet { code_set, term_set, th: self }
    }
}

} // verus!
