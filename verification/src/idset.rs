//! Ordered, deduplicated sets of subject (patient) identifiers.

use vstd::prelude::*;

verus! {

/// A sequence of ids that is strictly increasing.
pub open spec fn ids_sorted(s: Seq<u64>) -> bool {
    forall|i: int, j: int| 0 <= i < j < s.len() ==> #[trigger] s[i] < #[trigger] s[j]
}

/// An ordered, deduplicated set of subject identifiers.
#[derive(Debug, Clone)]
pub struct IdSet {
    ids: Vec<u64>,
}

impl View for IdSet {
    type V = Seq<u64>;

    closed spec fn view(&self) -> Seq<u64> {
        self.ids@
    }
}

impl IdSet {
    /// The ids are strictly sorted (so also deduplicated).
    pub open spec fn wf(&self) -> bool {
        ids_sorted(self@)
    }

    /// The contents as a set.
    pub open spec fn to_set(&self) -> Set<u64> {
        self@.to_set()
    }

    pub fn new() -> (r: IdSet)
        ensures
            r@ =~= Seq::<u64>::empty(),
            r.wf(),
    {
        IdSet { ids: Vec::new() }
    }

    pub fn len(&self) -> (r: usize)
        ensures
            r == self@.len(),
    {
        self.ids.len()
    }

    pub fn is_empty(&self) -> (r: bool)
        ensures
            r == (self@.len() == 0),
            r == (self.to_set() =~= Set::<u64>::empty()),
    {
        proof {
            if self@.len() > 0 {
                assert(self.to_set().contains(self@[0]));
            }
        }
        self.ids.len() == 0
    }

    /// The ids in ascending order.
    pub fn iter(&self) -> (r: &Vec<u64>)
        ensures
            r@ == self@,
    {
        &self.ids
    }

    pub fn contains(&self, id: u64) -> (r: bool)
        ensures
            r == self@.contains(id),
    {
        let n = self.ids.len();
        let mut i: usize = 0;
        while i < n
            invariant
                0 <= i <= n,
                n == self@.len(),
                forall|j: int| 0 <= j < i ==> self@[j] != id,
            decreases n - i,
        {
            if self.ids[i] == id {
                return true;
            }
            i += 1;
        }
        false
    }

    /// The number of leading ids strictly below `id`.
    fn lower_bound(&self, id: u64) -> (r: usize)
        ensures
            0 <= r <= self@.len(),
            forall|j: int| 0 <= j < r ==> self@[j] < id,
            r < self@.len() ==> self@[r as int] >= id,
    {
        let n = self.ids.len();
        let mut i: usize = 0;
        while i < n
            invariant
                0 <= i <= n,
                n == self@.len(),
                forall|j: int| 0 <= j < i ==> self@[j] < id,
            decreases n - i,
        {
            if self.ids[i] >= id {
                return i;
            }
            i += 1;
        }
        i
    }

    /// Insert an id, keeping the set ordered and deduplicated.
    pub fn insert(&mut self, id: u64)
        requires
            old(self).wf(),
        ensures
            final(self).wf(),
            final(self).to_set() =~= old(self).to_set().insert(id),
            final(self)@.contains(id),
    {
        let n = self.ids.len();
        let i = self.lower_bound(id);
        if i < n && self.ids[i] == id {
            proof {
                assert(final(self).to_set() =~= old(self).to_set().insert(id));
            }
            return;
        }
        proof {
            assert forall|j: int| i <= j < n implies id < #[trigger] self@[j] by {
                if j > i {
                    assert(self@[i as int] < self@[j]);
                }
            }
        }
        self.ids.insert(i, id);
        proof {
            let w: int = i as int;
            let s_new = self@;
            let s_old = old(self)@;
            assert forall|p: int| 0 <= p < s_new.len() implies #[trigger] s_new[p] == (if p < w {
                s_old[p]
            } else if p == w {
                id
            } else {
                s_old[p - 1]
            }) by {}
            assert(ids_sorted(s_new));
            assert(final(self).to_set() =~= old(self).to_set().insert(id)) by {
                assert forall|x: u64| s_new.to_set().contains(x) implies
                    s_old.to_set().insert(id).contains(x) by {
                    let k = choose|k: int| 0 <= k < s_new.len() && s_new[k] == x;
                    if k != w {
                        let k0: int = if k < w { k } else { k - 1 };
                        assert(s_old[k0] == x);
                    }
                }
                assert forall|x: u64| s_old.to_set().insert(id).contains(x) implies
                    s_new.to_set().contains(x) by {
                    if x == id {
                        assert(s_new[w] == x);
                    } else {
                        let k0 = choose|k0: int| 0 <= k0 < s_old.len() && s_old[k0] == x;
                        let k: int = if k0 < w { k0 } else { k0 + 1 };
                        assert(s_new[k] == x);
                    }
                }
            }
            assert(s_new[w] == id);
        }
    }

    /// The ids present in both sets.
    pub fn intersect(&self, other: &IdSet) -> (r: IdSet)
        requires
            self.wf(),
        ensures
            r.wf(),
            r.to_set() =~= self.to_set().intersect(other.to_set()),
    {
        let n = self.ids.len();
        let mut out = IdSet::new();
        let mut i: usize = 0;
        while i < n
            invariant
                0 <= i <= n,
                n == self@.len(),
                self.wf(),
                out.wf(),
                out.to_set() =~= self@.take(i as int).to_set().intersect(other.to_set()),
            decreases n - i,
        {
            proof {
                assert(self@.take(i + 1).drop_last() =~= self@.take(i as int));
                assert(self@.take(i + 1).last() == self@[i as int]);
                assert(self@.take(i + 1) =~= self@.take(i as int).push(self@[i as int]));
            }
            let id = self.ids[i];
            if other.contains(id) {
                out.insert(id);
            }
            proof {
                assert(self@.take(i as int).push(self@[i as int]).to_set() =~= self@.take(
                    i as int).to_set().insert(self@[i as int]));
                assert(out.to_set() =~= self@.take(i + 1).to_set().intersect(other.to_set()));
            }
            i += 1;
        }
        proof {
            assert(self@.take(n as int) =~= self@);
        }
        out
    }

    /// The ids of this set that are absent from the other.
    pub fn difference(&self, other: &IdSet) -> (r: IdSet)
        requires
            self.wf(),
        ensures
            r.wf(),
            r.to_set() =~= self.to_set().difference(other.to_set()),
    {
        let n = self.ids.len();
        let mut out = IdSet::new();
        let mut i: usize = 0;
        while i < n
            invariant
                0 <= i <= n,
                n == self@.len(),
                self.wf(),
                out.wf(),
                out.to_set() =~= self@.take(i as int).to_set().difference(other.to_set()),
            decreases n - i,
        {
            proof {
                assert(self@.take(i + 1).drop_last() =~= self@.take(i as int));
                assert(self@.take(i + 1).last() == self@[i as int]);
                assert(self@.take(i + 1) =~= self@.take(i as int).push(self@[i as int]));
            }
            let id = self.ids[i];
            if !other.contains(id) {
                out.insert(id);
            }
            proof {
                assert(self@.take(i as int).push(self@[i as int]).to_set() =~= self@.take(
                    i as int).to_set().insert(self@[i as int]));
                assert(out.to_set() =~= self@.take(i + 1).to_set().difference(other.to_set()));
            }
            i += 1;
        }
        proof {
            assert(self@.take(n as int) =~= self@);
        }
        out
    }

    /// The ids present in either set.
    pub fn union(&self, other: &IdSet) -> (r: IdSet)
        requires
            self.wf(),
            other.wf(),
        ensures
            r.wf(),
            r.to_set() =~= self.to_set().union(other.to_set()),
    {
        let n = other.ids.len();
        let mut out = self.clone_set();
        let mut i: usize = 0;
        while i < n
            invariant
                0 <= i <= n,
                n == other@.len(),
                out.wf(),
                out.to_set() =~= self.to_set().union(other@.take(i as int).to_set()),
            decreases n - i,
        {
            proof {
                assert(other@.take(i + 1).drop_last() =~= other@.take(i as int));
                assert(other@.take(i + 1).last() == other@[i as int]);
                assert(other@.take(i + 1) =~= other@.take(i as int).push(other@[i as int]));
            }
            out.insert(other.ids[i]);
            proof {
                assert(other@.take(i as int).push(other@[i as int]).to_set() =~= other@.take(
                    i as int).to_set().insert(other@[i as int]));
                assert(out.to_set() =~= self.to_set().union(other@.take(i + 1).to_set()));
            }
            i += 1;
        }
        proof {
            assert(other@.take(n as int) =~= other@);
        }
        out
    }

    /// A copy of this set.
    pub fn clone_set(&self) -> (r: IdSet)
        ensures
            r@ == self@,
    {
        let n = self.ids.len();
        let mut ids: Vec<u64> = Vec::new();
        let mut i: usize = 0;
        while i < n
            invariant
                0 <= i <= n,
                n == self@.len(),
                ids@ =~= self@.take(i as int),
            decreases n - i,
        {
            ids.push(self.ids[i]);
            proof {
                assert(ids@ =~= self@.take(i + 1));
            }
            i += 1;
        }
        proof {
            assert(self@.take(n as int) =~= self@);
        }
        IdSet { ids }
    }
}

/// Two strictly sorted sequences holding the same set are the same
/// sequence: a set of ids has exactly one sorted form.
pub proof fn lemma_sorted_set_unique(a: Seq<u64>, b: Seq<u64>)
    requires
        ids_sorted(a),
        ids_sorted(b),
        a.to_set() =~= b.to_set(),
    ensures
        a =~= b,
    decreases a.len(),
{
    if a.len() == 0 {
        if b.len() > 0 {
            assert(b.to_set().contains(b[0]));
            assert(a.contains(b[0]));
        }
    } else if b.len() == 0 {
        assert(a.to_set().contains(a[0]));
        assert(b.contains(a[0]));
    } else {
        // both last elements are the maximum of the same set, so they match
        assert(a.to_set().contains(a.last()));
        assert(b.contains(a.last()));
        assert(b.to_set().contains(b.last()));
        assert(a.contains(b.last()));
        assert(a.last() == b.last()) by {
            let ia = choose|i: int| 0 <= i < a.len() && a[i] == b.last();
            let ib = choose|i: int| 0 <= i < b.len() && b[i] == a.last();
            if ia < a.len() - 1 {
                assert(a[ia] < a.last());
            }
            if ib < b.len() - 1 {
                assert(b[ib] < b.last());
            }
        }
        assert(a.drop_last().to_set() =~= b.drop_last().to_set()) by {
            assert forall|x: u64| a.drop_last().to_set().contains(x) implies
                b.drop_last().to_set().contains(x) by {
                let i = choose|i: int| 0 <= i < a.drop_last().len() && a.drop_last()[i] == x;
                assert(a[i] == x);
                assert(a[i] < a.last());
                assert(b.to_set().contains(x));
                let j = choose|j: int| 0 <= j < b.len() && b[j] == x;
                assert(j < b.len() - 1) by {
                    if j == b.len() - 1 {
                        assert(b[j] == b.last());
                    }
                }
                assert(b.drop_last()[j] == x);
            }
            assert forall|x: u64| b.drop_last().to_set().contains(x) implies
                a.drop_last().to_set().contains(x) by {
                let i = choose|i: int| 0 <= i < b.drop_last().len() && b.drop_last()[i] == x;
                assert(b[i] == x);
                assert(b[i] < b.last());
                assert(a.to_set().contains(x));
                let j = choose|j: int| 0 <= j < a.len() && a[j] == x;
                assert(j < a.len() - 1) by {
                    if j == a.len() - 1 {
                        assert(a[j] == a.last());
                    }
                }
                assert(a.drop_last()[j] == x);
            }
        }
        assert(ids_sorted(a.drop_last())) by {
            assert forall|i: int, j: int| 0 <= i < j < a.drop_last().len() implies
                #[trigger] a.drop_last()[i] < #[trigger] a.drop_last()[j] by {
                assert(a[i] < a[j]);
            }
        }
        assert(ids_sorted(b.drop_last())) by {
            assert forall|i: int, j: int| 0 <= i < j < b.drop_last().len() implies
                #[trigger] b.drop_last()[i] < #[trigger] b.drop_last()[j] by {
                assert(b[i] < b[j]);
            }
        }
        lemma_sorted_set_unique(a.drop_last(), b.drop_last());
        assert(a.len() == b.len());
        assert forall|i: int| 0 <= i < a.len() implies a[i] == b[i] by {
            if i < a.len() - 1 {
                assert(a.drop_last()[i] == b.drop_last()[i]);
            }
        }
    }
}

/// The one sorted sequence holding exactly the given finite set of ids.
pub open spec fn spec_sorted_seq(s: Set<u64>) -> Seq<u64> {
    choose|q: Seq<u64>| ids_sorted(q) && q.to_set() == s
}

/// A well-formed id set's vector is the sorted form of its contents.
pub proof fn lemma_idset_is_sorted_seq(ds: &IdSet)
    requires
        ds.wf(),
    ensures
        spec_sorted_seq(ds.to_set()) =~= ds@,
{
    assert(ids_sorted(ds@) && ds@.to_set() == ds.to_set());
    let q = spec_sorted_seq(ds.to_set());
    assert(ids_sorted(q) && q.to_set() == ds.to_set()) by {
        assert(exists|q2: Seq<u64>| ids_sorted(q2) && q2.to_set() == ds.to_set()) by {
            assert(ids_sorted(ds@) && ds@.to_set() == ds.to_set());
        }
    }
    lemma_sorted_set_unique(q, ds@);
}

} // verus!
