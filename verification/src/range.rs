//! Half-open ranges and range sets, used to bucket values (ages, dates as day
//! numbers) for cohort reports.

use vstd::prelude::*;

verus! {

/// Range where the lower bound is inclusive and the upper bound is exclusive
/// or unbounded.
#[derive(Clone, Copy, Debug)]
pub struct Range {
    pub lo: u64,
    pub hi: Option<u64>,
}

impl Range {
    /// The range is ordered low to high.
    pub open spec fn wf(self) -> bool {
        self.hi matches Some(h) ==> self.lo < h
    }

    /// Membership in the half-open (or unbounded) range.
    pub open spec fn spec_contains(self, val: u64) -> bool {
        match self.hi {
            Some(h) => self.lo <= val < h,
            None => self.lo <= val,
        }
    }

    pub fn new(from: u64, to: Option<u64>) -> (r: Range)
        requires
            to matches Some(t) ==> from < t,
        ensures
            r.lo == from,
            r.hi == to,
            r.wf(),
    {
        Range { lo: from, hi: to }
    }

    pub fn contains(&self, val: &u64) -> (r: bool)
        ensures
            r == self.spec_contains(*val),
    {
        match &self.hi {
            Some(end) => *val >= self.lo && *val < *end,
            None => *val >= self.lo,
        }
    }
}

/// How many of the values lie in the range.
pub open spec fn spec_count_in(vals: Seq<u64>, range: Range) -> nat
    decreases vals.len(),
{
    if vals.len() == 0 {
        0
    } else {
        spec_count_in(vals.drop_last(), range) + if range.spec_contains(vals.last()) {
            1nat
        } else {
            0nat
        }
    }
}

/// A count of values never exceeds the number of values.
pub proof fn lemma_count_in_le_len(vals: Seq<u64>, range: Range)
    ensures
        spec_count_in(vals, range) <= vals.len(),
    decreases vals.len(),
{
    if vals.len() > 0 {
        lemma_count_in_le_len(vals.drop_last(), range);
    }
}

/// How many of the values are missing (`None`).
pub open spec fn spec_count_missing(vals: Seq<Option<u64>>) -> nat
    decreases vals.len(),
{
    if vals.len() == 0 {
        0
    } else {
        spec_count_missing(vals.drop_last()) + if vals.last() is None {
            1nat
        } else {
            0nat
        }
    }
}

/// The present values, in order.
pub open spec fn spec_present(vals: Seq<Option<u64>>) -> Seq<u64>
    decreases vals.len(),
{
    if vals.len() == 0 {
        Seq::empty()
    } else {
        spec_present(vals.drop_last()) + match vals.last() {
            Some(v) => seq![v],
            None => Seq::empty(),
        }
    }
}

/// An ordered collection of ranges (possibly overlapping), each of which
/// becomes one bucket.
#[derive(Clone, Debug)]
pub struct RangeSet {
    pub ranges: Vec<Range>,
}

impl RangeSet {
    pub fn new(ranges: Vec<Range>) -> (r: RangeSet)
        ensures
            r.ranges@ == ranges@,
    {
        RangeSet { ranges }
    }

    /// The ranges of this set, in order.
    pub fn iter(&self) -> (r: &Vec<Range>)
        ensures
            r@ == self.ranges@,
    {
        &self.ranges
    }

    pub fn push(&mut self, range: Range)
        ensures
            final(self).ranges@ == old(self).ranges@.push(range),
    {
        self.ranges.push(range);
    }

    /// Count, for each range, how many of the values it contains. A value that
    /// lies in several overlapping ranges is counted in each.
    pub fn bucket_values(self, values: &Vec<u64>) -> (r: RangeSetCounts)
        ensures
            r.set.ranges@ == self.ranges@,
            r.counts@.len() == self.ranges@.len(),
            forall|i: int| 0 <= i < self.ranges@.len()
                ==> #[trigger] r.counts@[i] == spec_count_in(values@, self.ranges@[i]),
    {
        let counts = bucket_counts(&self.ranges, values);
        RangeSetCounts { set: self, counts }
    }

    /// As `bucket_values`, with an extra final bucket counting missing values.
    pub fn bucket_values_with_missing(self, values: &Vec<Option<u64>>) -> (r:
        RangeSetCountsWithMissing)
        ensures
            r.set.ranges@ == self.ranges@,
            r.counts@.len() == self.ranges@.len() + 1,
            forall|i: int| 0 <= i < self.ranges@.len()
                ==> #[trigger] r.counts@[i] == spec_count_in(spec_present(values@), self.ranges@[i]),
            r.counts@.last() == spec_count_missing(values@),
    {
        let mut present: Vec<u64> = Vec::new();
        let mut missing: usize = 0;
        let mut k: usize = 0;
        while k < values.len()
            invariant
                0 <= k <= values@.len(),
                present@ == spec_present(values@.take(k as int)),
                missing == spec_count_missing(values@.take(k as int)),
                missing <= k,
            decreases values@.len() - k,
        {
            proof {
                assert(values@.take(k + 1).drop_last() =~= values@.take(k as int));
                assert(values@.take(k + 1).last() == values@[k as int]);
            }
            match &values[k] {
                Some(v) => {
                    present.push(*v);
                    proof {
                        assert(present@ =~= spec_present(values@.take(k + 1)));
                    }
                },
                None => {
                    missing += 1;
                },
            }
            k += 1;
        }
        proof {
            assert(values@.take(values@.len() as int) =~= values@);
        }
        let mut counts = bucket_counts(&self.ranges, &present);
        counts.push(missing);
        RangeSetCountsWithMissing { set: self, counts }
    }
}

/// Count the values falling in each range.
fn bucket_counts(ranges: &Vec<Range>, values: &Vec<u64>) -> (r: Vec<usize>)
    ensures
        r@.len() == ranges@.len(),
        forall|i: int| 0 <= i < ranges@.len()
            ==> #[trigger] r@[i] == spec_count_in(values@, ranges@[i]),
{
    let mut buckets: Vec<usize> = Vec::new();
    let mut i: usize = 0;
    while i < ranges.len()
        invariant
            0 <= i <= ranges@.len(),
            buckets@.len() == i,
            forall|j: int| 0 <= j < i ==> #[trigger] buckets@[j] == 0,
        decreases ranges@.len() - i,
    {
        buckets.push(0);
        i += 1;
    }
    let mut k: usize = 0;
    while k < values.len()
        invariant
            0 <= k <= values@.len(),
            buckets@.len() == ranges@.len(),
            forall|j: int| 0 <= j < ranges@.len()
                ==> #[trigger] buckets@[j] == spec_count_in(values@.take(k as int), ranges@[j]),
        decreases values@.len() - k,
    {
        let v = values[k];
        let mut j: usize = 0;
        while j < ranges.len()
            invariant
                0 <= j <= ranges@.len(),
                0 <= k < values@.len(),
                v == values@[k as int],
                buckets@.len() == ranges@.len(),
                forall|m: int| j <= m < ranges@.len()
                    ==> #[trigger] buckets@[m] == spec_count_in(values@.take(k as int), ranges@[m]),
                forall|m: int| 0 <= m < j
                    ==> #[trigger] buckets@[m] == spec_count_in(values@.take(k + 1), ranges@[m]),
            decreases ranges@.len() - j,
        {
            proof {
                assert(values@.take(k + 1).drop_last() =~= values@.take(k as int));
                assert(values@.take(k + 1).last() == values@[k as int]);
                lemma_count_in_le_len(values@.take(k as int), ranges@[j as int]);
                assert(values@.take(k as int).len() == k as int);
                assert(buckets@[j as int] <= k);
                vstd::std_specs::vec::axiom_spec_len(values);
            }
            if ranges[j].contains(&v) {
                let old_count = buckets[j];
                buckets.set(j, old_count + 1);
            }
            j += 1;
        }
        k += 1;
    }
    proof {
        assert(values@.take(values@.len() as int) =~= values@);
    }
    buckets
}

/// A range set with values bucketed, and bucket sizes recorded.
#[derive(Clone, Debug)]
pub struct RangeSetCounts {
    pub set: RangeSet,
    pub counts: Vec<usize>,
}

impl RangeSetCounts {
    /// The ranges paired with their counts, in order.
    pub fn iter(&self) -> (r: Vec<(Range, usize)>)
        requires
            self.counts@.len() == self.set.ranges@.len(),
        ensures
            r@.len() == self.set.ranges@.len(),
            forall|i: int| 0 <= i < r@.len()
                ==> #[trigger] r@[i] == (self.set.ranges@[i], self.counts@[i]),
    {
        let mut out: Vec<(Range, usize)> = Vec::new();
        let mut i: usize = 0;
        while i < self.set.ranges.len()
            invariant
                0 <= i <= self.set.ranges@.len(),
                self.counts@.len() == self.set.ranges@.len(),
                out@.len() == i,
                forall|j: int| 0 <= j < i
                    ==> #[trigger] out@[j] == (self.set.ranges@[j], self.counts@[j]),
            decreases self.set.ranges@.len() - i,
        {
            out.push((self.set.ranges[i], self.counts[i]));
            i += 1;
        }
        out
    }
}

/// A range set with values bucketed, a final bucket counting missing values.
#[derive(Clone, Debug)]
pub struct RangeSetCountsWithMissing {
    pub set: RangeSet,
    pub counts: Vec<usize>,
}

impl RangeSetCountsWithMissing {
    /// The ranges paired with their counts, in order; the final entry has no
    /// range and counts the missing values.
    pub fn iter(&self) -> (r: Vec<(Option<Range>, usize)>)
        requires
            self.counts@.len() == self.set.ranges@.len() + 1,
        ensures
            r@.len() == self.counts@.len(),
            forall|i: int| 0 <= i < self.set.ranges@.len()
                ==> #[trigger] r@[i] == (Some(self.set.ranges@[i]), self.counts@[i]),
            r@.last() == (None::<Range>, self.counts@.last()),
    {
        let mut out: Vec<(Option<Range>, usize)> = Vec::new();
        let mut i: usize = 0;
        while i < self.set.ranges.len()
            invariant
                0 <= i <= self.set.ranges@.len(),
                self.counts@.len() == self.set.ranges@.len() + 1,
                out@.len() == i,
                forall|j: int| 0 <= j < i
                    ==> #[trigger] out@[j] == (Some(self.set.ranges@[j]), self.counts@[j]),
            decreases self.set.ranges@.len() - i,
        {
            out.push((Some(self.set.ranges[i]), self.counts[i]));
            i += 1;
        }
        out.push((None, self.counts[self.counts.len() - 1]));
        out
    }
}

} // verus!
