//! The Read v2 thesaurus: an ordered mapping from each code to its set of
//! known free-text descriptions. Keys are held in the custom wildcard-first
//! order, so the descendants of a code form one contiguous run and descendant
//! queries are range scans.

use vstd::prelude::*;

use crate::read2::{
    canonical_code, lemma_code_order_transitive, lemma_code_order_trichotomy,
    lemma_descendants_contiguous, lemma_parent_lt_child, spec_code_lt, ReadCode,
};

verus! {

/// A clone of a vector of strings holds the same strings.
pub proof fn lemma_string_vec_clone(a: Vec<String>, b: Vec<String>)
    requires
        a.len() == b.len(),
        forall|i: int| #![all_triggers] 0 <= i < a.len() ==> vstd::pervasive::cloned::<String>(
            a[i], b[i]),
    ensures
        a@ == b@,
{
    assert forall|i: int| 0 <= i < a@.len() implies a@[i] == b@[i] by {
        assert(vstd::pervasive::cloned::<String>(a[i], b[i]));
    }
    assert(a@ =~= b@);
}

/// A copy of a description list (string clones are equal to their source).
pub fn clone_descriptions(v: &Vec<String>) -> (r: Vec<String>)
    ensures
        r@ == v@,
{
    let n = v.len();
    let mut out: Vec<String> = Vec::new();
    let mut i: usize = 0;
    while i < n
        invariant
            0 <= i <= n,
            n == v@.len(),
            out@ =~= v@.take(i as int),
        decreases n - i,
    {
        out.push(v[i].clone());
        proof {
            assert(out@ =~= v@.take(i + 1));
        }
        i += 1;
    }
    proof {
        assert(v@.take(n as int) =~= v@);
    }
    out
}

/// One thesaurus entry: a code and its known descriptions.
pub type ThEntry = (ReadCode, Vec<String>);

/// Keys are well-formed and strictly increasing under the custom order.
pub open spec fn entries_sorted(s: Seq<ThEntry>) -> bool {
    &&& forall|i: int, j: int|
        0 <= i < j < s.len() ==> spec_code_lt((#[trigger] s[i]).0@, (#[trigger] s[j]).0@)
    &&& forall|i: int| 0 <= i < s.len() ==> (#[trigger] s[i]).0.wf()
}

/// Whether `c` is the child of `p`, at the byte level.
pub open spec fn is_descendant(c: ReadCode, p: ReadCode) -> bool {
    ReadCode::spec_is_child_of(c@, p@)
}

/// Some entry of `s` carries the same code and description texts as `e`.
pub open spec fn entry_in(e: ThEntry, s: Seq<ThEntry>) -> bool {
    exists|m: int| 0 <= m < s.len() && (#[trigger] s[m]).0 == e.0 && s[m].1@ == e.1@
}

/// In a sorted entry list, a code appears as a key at most once.
pub proof fn lemma_key_unique(th: Seq<ThEntry>, i: int, j: int)
    requires
        entries_sorted(th),
        0 <= i < th.len(),
        0 <= j < th.len(),
        th[i].0 == th[j].0,
    ensures
        i == j,
{
    if i != j {
        let a = if i < j { i } else { j };
        let b = if i < j { j } else { i };
        assert(spec_code_lt(th[a].0@, th[b].0@));
        assert(th[a].0@ == th[b].0@);
        assert(false) by {
            let w = choose|w: int| 0 <= w < 5 && #[trigger] crate::read2::agree_to(
                th[a].0@, th[b].0@, w) && crate::read2::ch_key(th[a].0@[w])
                < crate::read2::ch_key(th[b].0@[w]);
            assert(th[a].0@[w] == th[b].0@[w]);
        }
    }
}

/// Each entry of `r` carries a code found in `s`, with the same description
/// texts.
pub open spec fn entries_from(r: Seq<ThEntry>, s: Seq<ThEntry>) -> bool {
    forall|k: int| 0 <= k < r.len() ==> entry_in(#[trigger] r[k], s)
}

/// Entries matching a slice of `s` all come from `s`.
proof fn lemma_match_entries_from(out: Seq<ThEntry>, s: Seq<ThEntry>, start: int, stop: int)
    requires
        0 <= start <= stop <= s.len(),
        entries_match(out, s.subrange(start, stop)),
    ensures
        entries_from(out, s),
{
    assert forall|k: int| 0 <= k < out.len() implies entry_in(#[trigger] out[k], s) by {
        let b = s.subrange(start, stop);
        assert(out[k].0 == b[k].0 && out[k].1@ == b[k].1@);
        assert(b[k] == s[start + k]);
        assert(0 <= start + k < s.len() && s[start + k].0 == out[k].0
            && s[start + k].1@ == out[k].1@);
    }
}

/// The predicate "this entry's code is a descendant of `parent`".
pub open spec fn descendant_pred(parent: ReadCode) -> spec_fn(ThEntry) -> bool {
    |e: ThEntry| is_descendant(e.0, parent)
}

/// All entries of the Read v2 terminology loaded into memory.
#[derive(Clone, Debug)]
pub struct Thesaurus {
    entries: Vec<ThEntry>,
}

impl View for Thesaurus {
    type V = Seq<ThEntry>;

    closed spec fn view(&self) -> Seq<ThEntry> {
        self.entries@
    }
}

impl Thesaurus {
    /// Entries are strictly sorted by code under the custom order.
    pub open spec fn wf(&self) -> bool {
        entries_sorted(self@)
    }

    /// Whether some entry holds this code.
    pub open spec fn has_code(&self, code: ReadCode) -> bool {
        exists|k: int| 0 <= k < self@.len() && (#[trigger] self@[k]).0 == code
    }

    /// An empty thesaurus.
    pub fn new() -> (r: Thesaurus)
        ensures
            r@ =~= Seq::<ThEntry>::empty(),
            r.wf(),
    {
        Thesaurus { entries: Vec::new() }
    }

    pub fn len(&self) -> (r: usize)
        ensures
            r == self@.len(),
    {
        self.entries.len()
    }

    /// The entries in ascending code order.
    pub fn iter(&self) -> (r: &Vec<ThEntry>)
        ensures
            r@ == self@,
    {
        &self.entries
    }

    /// The descriptions recorded for a code, when the code is known.
    pub fn get(&self, code: ReadCode) -> (r: Option<&Vec<String>>)
        ensures
            (r is Some) == self.has_code(code),
            r matches Some(d) ==> exists|k: int|
                0 <= k < self@.len() && (#[trigger] self@[k]).0 == code && d@ == self@[k].1@,
    {
        let n = self.entries.len();
        let mut i: usize = 0;
        while i < n
            invariant
                0 <= i <= n,
                n == self@.len(),
                forall|j: int| 0 <= j < i ==> (#[trigger] self@[j]).0 != code,
            decreases n - i,
        {
            if self.entries[i].0 == code {
                return Some(&self.entries[i].1);
            }
            i += 1;
        }
        None
    }

    /// The number of leading entries whose codes sort strictly below `code`.
    fn lower_bound(&self, code: &ReadCode) -> (r: usize)
        ensures
            0 <= r <= self@.len(),
            forall|j: int| 0 <= j < r ==> spec_code_lt((#[trigger] self@[j]).0@, code@),
            r < self@.len() ==> !spec_code_lt(self@[r as int].0@, code@),
    {
        let n = self.entries.len();
        let mut i: usize = 0;
        while i < n
            invariant
                0 <= i <= n,
                n == self@.len(),
                forall|j: int| 0 <= j < i ==> spec_code_lt((#[trigger] self@[j]).0@, code@),
            decreases n - i,
        {
            if !self.entries[i].0.lt(code) {
                return i;
            }
            i += 1;
        }
        i
    }

    /// Add an entry, keeping the map ordered. When the code is already
    /// present its descriptions are replaced.
    pub fn insert(&mut self, code: ReadCode, descriptions: Vec<String>)
        requires
            old(self).wf(),
            code.wf(),
        ensures
            final(self).wf(),
            final(self).has_code(code),
            // every other code keeps its entry; the new code maps to the
            // given descriptions
            forall|k: int| 0 <= k < final(self)@.len() ==> ((#[trigger] final(self)@[k]).0 == code
                ==> final(self)@[k].1@ == descriptions@),
            forall|e: ThEntry| #[trigger] old(self)@.contains(e) && e.0 != code
                ==> final(self)@.contains(e),
            forall|e: ThEntry| #[trigger] final(self)@.contains(e) && e.0 != code
                ==> old(self)@.contains(e),
    {
        let n = self.entries.len();
        let i = self.lower_bound(&code);
        if i < n {
            proof {
                lemma_code_order_trichotomy(self@[i as int].0@, code@);
            }
            if self.entries[i].0 == code {
                let ghost s_old = self@;
                self.entries.set(i, (code, descriptions));
                proof {
                    let w: int = i as int;
                    let s_new = self@;
                    assert(s_new[w].0 == code && s_new[w].1 == descriptions);
                    assert forall|p: int, q: int| 0 <= p < q < s_new.len() implies
                        spec_code_lt((#[trigger] s_new[p]).0@, (#[trigger] s_new[q]).0@) by {
                        assert(s_old[w].0 == code);
                        assert(spec_code_lt(s_old[p].0@, s_old[q].0@));
                    }
                    assert forall|k: int| 0 <= k < s_new.len() implies
                        (#[trigger] s_new[k]).0.wf() by {
                        assert(s_old[k].0.wf());
                    }
                    assert forall|e: ThEntry| #[trigger] s_old.contains(e) && e.0 != code implies
                        s_new.contains(e) by {
                        let k = choose|k: int| 0 <= k < s_old.len() && s_old[k] == e;
                        assert(s_old[w].0 == code);
                        assert(k != w);
                        assert(s_new[k] == e);
                    }
                    assert forall|e: ThEntry| #[trigger] s_new.contains(e) && e.0 != code implies
                        s_old.contains(e) by {
                        let k = choose|k: int| 0 <= k < s_new.len() && s_new[k] == e;
                        assert(k != w);
                        assert(s_old[k] == e);
                    }
                    assert forall|k: int| 0 <= k < s_new.len() && (#[trigger] s_new[k]).0 == code
                        implies s_new[k].1@ == descriptions@ by {
                        if k != w {
                            assert(s_old[k] == s_new[k]);
                            lemma_code_order_trichotomy(s_old[k].0@, code@);
                            assert(s_new[k].0@ == code@);
                        }
                    }
                }
                return;
            }
            proof {
                if self@[i as int].0@ =~= code@ {
                    crate::read2::lemma_code_view_eq(self@[i as int].0, code);
                }
                assert(spec_code_lt(code@, self@[i as int].0@));
            }
        }
        proof {
            let w: int = i as int;
            let s_old = self@;
            assert forall|j: int| w <= j < n implies spec_code_lt(code@, (#[trigger] s_old[j]).0@)
                by {
                if j > w {
                    lemma_code_order_transitive(code@, s_old[w].0@, s_old[j].0@);
                }
            }
        }
        self.entries.insert(i, (code, descriptions));
        proof {
            let w: int = i as int;
            let s_new = self@;
            let s_old = old(self)@;
            assert(s_new.len() == s_old.len() + 1);
            assert forall|p: int| 0 <= p < s_new.len() implies #[trigger] s_new[p] == (if p < w {
                s_old[p]
            } else if p == w {
                (code, descriptions)
            } else {
                s_old[p - 1]
            }) by {}
            assert forall|p: int, q: int| 0 <= p < q < s_new.len() implies
                spec_code_lt((#[trigger] s_new[p]).0@, (#[trigger] s_new[q]).0@) by {
                if p < w && q > w {
                    lemma_code_order_transitive(s_old[p].0@, code@, s_old[q - 1].0@);
                }
            }
            assert forall|k: int| 0 <= k < s_new.len() implies (#[trigger] s_new[k]).0.wf() by {}
            assert(s_new[w].0 == code);
            assert forall|k: int| 0 <= k < s_new.len() && (#[trigger] s_new[k]).0 == code implies
                s_new[k].1@ == descriptions@ by {
                if k != w {
                    let k0: int = if k < w { k } else { k - 1 };
                    assert(s_new[k] == s_old[k0]);
                    lemma_code_order_trichotomy(s_old[k0].0@, code@);
                    assert(s_new[k].0@ == code@);
                }
            }
            assert forall|e: ThEntry| #[trigger] s_old.contains(e) && e.0 != code implies
                s_new.contains(e) by {
                let k = choose|k: int| 0 <= k < s_old.len() && s_old[k] == e;
                let m: int = if k < w { k } else { k + 1 };
                assert(s_new[m] == e);
            }
            assert forall|e: ThEntry| #[trigger] s_new.contains(e) && e.0 != code implies
                s_old.contains(e) by {
                let k = choose|k: int| 0 <= k < s_new.len() && s_new[k] == e;
                assert(k != w);
                let m: int = if k < w { k } else { k - 1 };
                assert(s_old[m] == e);
            }
        }
    }

    /// The number of leading entries whose codes do not sort strictly after
    /// `parent`. From this position on, every code sorts strictly after
    /// `parent`.
    fn after_code(&self, parent: &ReadCode) -> (r: usize)
        requires
            self.wf(),
        ensures
            0 <= r <= self@.len(),
            forall|j: int| 0 <= j < r ==> !spec_code_lt(parent@, (#[trigger] self@[j]).0@),
            forall|j: int| r <= j < self@.len() ==> spec_code_lt(
                parent@, (#[trigger] self@[j]).0@),
    {
        let n = self.entries.len();
        let mut i: usize = 0;
        while i < n
            invariant
                0 <= i <= n,
                n == self@.len(),
                self.wf(),
                forall|j: int| 0 <= j < i ==> !spec_code_lt(parent@, (#[trigger] self@[j]).0@),
            decreases n - i,
        {
            if parent.lt(&self.entries[i].0) {
                proof {
                    let w: int = i as int;
                    assert forall|j: int| w <= j < n implies spec_code_lt(
                        parent@, (#[trigger] self@[j]).0@) by {
                        if j > w {
                            lemma_code_order_transitive(parent@, self@[w].0@, self@[j].0@);
                        }
                    }
                }
                return i;
            }
            i += 1;
        }
        i
    }

    /// The entries for the strict descendants of `parent`, in ascending code
    /// order, found by a range scan: jump just past `parent`, then take
    /// entries while they are descendants. For a canonical parent (wildcards
    /// only as a suffix) descendants are contiguous under the custom order,
    /// so this is exactly the set of descendant entries. `parent` itself is
    /// never included.
    pub fn iter_descendants(&self, parent: ReadCode) -> (r: Vec<ThEntry>)
        requires
            self.wf(),
            parent.wf(),
        ensures
            forall|k: int| 0 <= k < r@.len() ==> is_descendant((#[trigger] r@[k]).0, parent),
            entries_from(r@, self@),
            canonical_code(parent@) ==> entries_match(r@, self@.filter(descendant_pred(parent))),
    {
        let ghost pred = descendant_pred(parent);
        let n = self.entries.len();
        let start = self.after_code(&parent);
        proof {
            // entries before `start` are not descendants: a descendant sorts
            // strictly after its parent
            assert forall|j: int| 0 <= j < start implies !pred(#[trigger] self@[j]) by {
                if is_descendant(self@[j].0, parent) {
                    lemma_parent_lt_child(parent@, self@[j].0@);
                }
            }
        }
        let mut out: Vec<ThEntry> = Vec::new();
        let mut i: usize = start;
        while i < n
            invariant
                start <= i <= n,
                n == self@.len(),
                self.wf(),
                parent.wf(),
                pred == descendant_pred(parent),
                forall|j: int| start <= j < n ==> spec_code_lt(parent@, (#[trigger] self@[j]).0@),
                forall|j: int| 0 <= j < start ==> !pred(#[trigger] self@[j]),
                forall|j: int| start <= j < i ==> pred(#[trigger] self@[j]),
                entries_match(out@, self@.subrange(start as int, i as int)),
            decreases n - i,
        {
            if !self.entries[i].0.is_child_of(parent) {
                proof {
                    let w: int = i as int;
                    if canonical_code(parent@) {
                        // everything from the stop position on is outside the
                        // descendant run
                        assert forall|k: int| w <= k < n implies !pred(#[trigger] self@[k]) by {
                            if k > w && is_descendant(self@[k].0, parent) {
                                assert(spec_code_lt(parent@, self@[w].0@));
                                assert(spec_code_lt(self@[w].0@, self@[k].0@));
                                lemma_descendants_contiguous(parent@, self@[k].0@, self@[w].0@);
                            }
                        }
                        lemma_filter_is_subrange(self@, pred, start as int, w);
                    }
                    assert forall|k: int| 0 <= k < out@.len() implies is_descendant(
                        (#[trigger] out@[k]).0, parent) by {
                        let b = self@.subrange(start as int, w);
                        assert(out@[k].0 == b[k].0);
                        assert(b[k] == self@[start + k]);
                        assert(pred(self@[start + k]));
                    }
                    lemma_match_entries_from(out@, self@, start as int, w);
                }
                return out;
            }
            let descs = self.entries[i].1.clone();
            proof {
                lemma_string_vec_clone(self@[i as int].1, descs);
            }
            out.push((self.entries[i].0, descs));
            proof {
                let a = out@;
                let b = self@.subrange(start as int, i + 1);
                assert forall|k: int| 0 <= k < a.len() implies (#[trigger] a[k]).0 == b[k].0
                    && a[k].1@ == b[k].1@ by {
                    if k < a.len() - 1 {
                        assert(a[k] == a.drop_last()[k]);
                        assert(b[k] == self@.subrange(start as int, i as int)[k]);
                    }
                }
            }
            i += 1;
        }
        proof {
            if canonical_code(parent@) {
                lemma_filter_is_subrange(self@, pred, start as int, n as int);
            }
            assert forall|k: int| 0 <= k < out@.len() implies is_descendant(
                (#[trigger] out@[k]).0, parent) by {
                let b = self@.subrange(start as int, n as int);
                assert(out@[k].0 == b[k].0);
                assert(b[k] == self@[start + k]);
                assert(pred(self@[start + k]));
            }
            lemma_match_entries_from(out@, self@, start as int, n as int);
        }
        out
    }
}

/// `a` holds the same codes and description texts as `b`, in the same order.
pub open spec fn entries_match(a: Seq<ThEntry>, b: Seq<ThEntry>) -> bool {
    a.len() == b.len() && forall|k: int| 0 <= k < a.len() ==> (#[trigger] a[k]).0 == b[k].0
        && a[k].1@ == b[k].1@
}

/// Filtering keeps everything when the predicate holds everywhere.
proof fn lemma_filter_all_true(s: Seq<ThEntry>, pred: spec_fn(ThEntry) -> bool)
    requires
        forall|k: int| 0 <= k < s.len() ==> pred(#[trigger] s[k]),
    ensures
        s.filter(pred) =~= s,
    decreases s.len(),
{
    if s.len() > 0 {
        let pre = s.drop_last();
        assert forall|k: int| 0 <= k < pre.len() implies pred(#[trigger] pre[k]) by {
            assert(pre[k] == s[k]);
        }
        lemma_filter_all_true(pre, pred);
        pre.lemma_filter_push(s.last(), pred);
        assert(pre.push(s.last()) =~= s);
    } else {
        assert(s =~= Seq::<ThEntry>::empty());
        reveal(Seq::filter);
    }
}

/// Filtering keeps nothing when the predicate holds nowhere.
proof fn lemma_filter_all_false(s: Seq<ThEntry>, pred: spec_fn(ThEntry) -> bool)
    requires
        forall|k: int| 0 <= k < s.len() ==> !pred(#[trigger] s[k]),
    ensures
        s.filter(pred) =~= Seq::<ThEntry>::empty(),
    decreases s.len(),
{
    if s.len() > 0 {
        let pre = s.drop_last();
        assert forall|k: int| 0 <= k < pre.len() implies !pred(#[trigger] pre[k]) by {
            assert(pre[k] == s[k]);
        }
        lemma_filter_all_false(pre, pred);
        pre.lemma_filter_push(s.last(), pred);
        assert(pre.push(s.last()) =~= s);
    } else {
        assert(s =~= Seq::<ThEntry>::empty());
        reveal(Seq::filter);
    }
}

/// When the predicate holds exactly on `[lo, hi)`, filtering gives that
/// subrange.
proof fn lemma_filter_is_subrange(s: Seq<ThEntry>, pred: spec_fn(ThEntry) -> bool, lo: int,
    hi: int)
    requires
        0 <= lo <= hi <= s.len(),
        forall|k: int| lo <= k < hi ==> pred(#[trigger] s[k]),
        forall|k: int| 0 <= k < lo ==> !pred(#[trigger] s[k]),
        forall|k: int| hi <= k < s.len() ==> !pred(#[trigger] s[k]),
    ensures
        s.filter(pred) =~= s.subrange(lo, hi),
{
    let a = s.subrange(0, lo);
    let b = s.subrange(lo, hi);
    let c = s.subrange(hi, s.len() as int);
    assert(s =~= a + b + c);
    assert forall|k: int| 0 <= k < a.len() implies !pred(#[trigger] a[k]) by {
        assert(a[k] == s[k]);
    }
    assert forall|k: int| 0 <= k < b.len() implies pred(#[trigger] b[k]) by {
        assert(b[k] == s[lo + k]);
    }
    assert forall|k: int| 0 <= k < c.len() implies !pred(#[trigger] c[k]) by {
        assert(c[k] == s[hi + k]);
    }
    lemma_filter_all_false(a, pred);
    lemma_filter_all_true(b, pred);
    lemma_filter_all_false(c, pred);
    Seq::filter_distributes_over_add(a, b, pred);
    Seq::filter_distributes_over_add(a + b, c, pred);
    assert((a + b + c).filter(pred) =~= b);
    assert(s.filter(pred) == (a + b + c).filter(pred));
}

} // verus!
