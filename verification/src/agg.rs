//! Distributed numeric aggregation.
//!
//! Each chunk of a scan folds the sizes it sees into a local `AggResult`;
//! the locals are then merged.  The merge is commutative, has the empty
//! aggregate as identity, and is associative on the aggregates a scan can
//! produce, so per-chunk aggregation followed by a merge equals a single
//! pass over the same input.  Sums saturate at the `i64` bounds instead
//! of overflowing.

use vstd::prelude::*;

verus! {

/// The aggregation requested over the size field.
#[derive(Clone, Copy, Debug, PartialEq, Eq, Structural)]
pub enum AggOp {
    Sum,
    Avg,
    Min,
    Max,
}

/// A partial aggregate of a set of `i64` samples.
#[derive(Clone, Copy, Debug, PartialEq, Eq, Structural)]
pub struct AggResult {
    /// Saturating sum of the samples.
    pub sum: i64,
    /// Number of samples.
    pub count: u64,
    /// Least sample, `i64::MAX` when empty.
    pub min: i64,
    /// Greatest sample, `i64::MIN` when empty.
    pub max: i64,
}

/// `i64` addition saturating at the type bounds.
pub open spec fn sat_add_i64(a: int, b: int) -> int {
    if a + b > i64::MAX {
        i64::MAX as int
    } else if a + b < i64::MIN {
        i64::MIN as int
    } else {
        a + b
    }
}

/// `u64` addition saturating at the type bound.
pub open spec fn sat_add_u64(a: int, b: int) -> int {
    if a + b > u64::MAX {
        u64::MAX as int
    } else {
        a + b
    }
}

/// The aggregate of no samples: the identity of the merge.
pub open spec fn agg_identity() -> AggResult {
    AggResult { sum: 0i64, count: 0u64, min: i64::MAX, max: i64::MIN }
}

/// The merge law: sums and counts add, the least and greatest survive.
pub open spec fn agg_merge(a: AggResult, b: AggResult) -> AggResult {
    AggResult {
        sum: sat_add_i64(a.sum as int, b.sum as int) as i64,
        count: sat_add_u64(a.count as int, b.count as int) as u64,
        min: if a.min <= b.min {
            a.min
        } else {
            b.min
        },
        max: if a.max >= b.max {
            a.max
        } else {
            b.max
        },
    }
}

/// One more sample folded into an aggregate.
pub open spec fn agg_step(a: AggResult, v: i64) -> AggResult {
    agg_merge(a, AggResult { sum: v, count: 1u64, min: v, max: v })
}

/// The aggregate of a sequence of samples.
pub open spec fn agg_of_samples(vs: Seq<i64>) -> AggResult
    decreases vs.len(),
{
    if vs.len() == 0 {
        agg_identity()
    } else {
        agg_step(agg_of_samples(vs.drop_last()), vs.last())
    }
}

/// The merge is commutative.
pub proof fn lemma_agg_merge_commutative(a: AggResult, b: AggResult)
    ensures
        agg_merge(a, b) == agg_merge(b, a),
{
}

/// The empty aggregate is the identity of the merge: merging it changes
/// nothing, so the least of an empty merge stays `i64::MAX`, the greatest
/// stays `i64::MIN`.
pub proof fn lemma_agg_merge_identity(a: AggResult)
    ensures
        agg_merge(agg_identity(), a) == a,
        agg_merge(a, agg_identity()) == a,
{
}

/// The merge is associative on aggregates with nonnegative sums, which is
/// every aggregate a scan over parsed sizes can produce.
pub proof fn lemma_agg_merge_associative(a: AggResult, b: AggResult, c: AggResult)
    requires
        a.sum >= 0,
        b.sum >= 0,
        c.sum >= 0,
    ensures
        agg_merge(agg_merge(a, b), c) == agg_merge(a, agg_merge(b, c)),
{
}

/// An aggregate of nonnegative samples keeps a nonnegative sum.
pub proof fn lemma_agg_of_samples_nonneg(vs: Seq<i64>)
    requires
        forall|i: int| 0 <= i < vs.len() ==> vs[i] >= 0,
    ensures
        agg_of_samples(vs).sum >= 0,
    decreases vs.len(),
{
    if vs.len() > 0 {
        lemma_agg_of_samples_nonneg(vs.drop_last());
    }
}

/// Per-chunk aggregation then a merge equals one aggregation over the
/// concatenated samples.
pub proof fn lemma_agg_of_samples_concat(a: Seq<i64>, b: Seq<i64>)
    requires
        forall|i: int| 0 <= i < a.len() ==> a[i] >= 0,
        forall|i: int| 0 <= i < b.len() ==> b[i] >= 0,
    ensures
        agg_of_samples(a + b) == agg_merge(agg_of_samples(a), agg_of_samples(b)),
    decreases b.len(),
{
    if b.len() == 0 {
        assert(a + b =~= a);
        lemma_agg_merge_identity(agg_of_samples(a));
    } else {
        lemma_agg_of_samples_concat(a, b.drop_last());
        assert((a + b).drop_last() =~= a + b.drop_last());
        assert((a + b).last() == b.last());
        lemma_agg_of_samples_nonneg(a);
        lemma_agg_of_samples_nonneg(b.drop_last());
        assert(b.last() >= 0);
        lemma_agg_merge_associative(
            agg_of_samples(a),
            agg_of_samples(b.drop_last()),
            AggResult { sum: b.last(), count: 1u64, min: b.last(), max: b.last() },
        );
    }
}

/// Truncating division for the average.
pub open spec fn div_trunc(x: int, d: int) -> int {
    if x >= 0 {
        x / d
    } else {
        -((-x) / d)
    }
}

/// The average of an aggregate: the truncated quotient of sum and count,
/// and 0 when the aggregate is empty.
pub open spec fn agg_avg(a: AggResult) -> int {
    if a.count == 0 {
        0
    } else {
        let d = if a.count > i64::MAX {
            i64::MAX as int
        } else {
            a.count as int
        };
        div_trunc(a.sum as int, d)
    }
}

impl AggResult {
    /// The aggregate of no samples.
    pub fn new() -> (r: AggResult)
        ensures
            r == agg_identity(),
    {
        AggResult { sum: 0, count: 0, min: i64::MAX, max: i64::MIN }
    }

    /// Fold another partial aggregate into this one.
    pub fn merge(&mut self, other: &AggResult)
        ensures
            *final(self) == agg_merge(*old(self), *other),
    {
        self.sum = match self.sum.checked_add(other.sum) {
            Some(v) => v,
            None => if self.sum < 0 {
                i64::MIN
            } else {
                i64::MAX
            },
        };
        self.count = self.count.saturating_add(other.count);
        if other.min < self.min {
            self.min = other.min;
        }
        if other.max > self.max {
            self.max = other.max;
        }
    }

    /// Fold one sample into this aggregate.
    pub fn add_sample(&mut self, v: i64)
        ensures
            *final(self) == agg_step(*old(self), v),
    {
        let unit = AggResult { sum: v, count: 1, min: v, max: v };
        self.merge(&unit);
    }

    /// The average sample; 0 when the aggregate is empty.
    pub fn avg(&self) -> (r: i64)
        ensures
            r == agg_avg(*self),
    {
        if self.count == 0 {
            return 0;
        }
        let d: i64 = if self.count > 0x7fff_ffff_ffff_ffff_u64 {
            i64::MAX
        } else {
            self.count as i64
        };
        match self.sum.checked_div(d) {
            Some(q) => q,
            None => {
                proof {
                    assert(false);
                }
                0
            },
        }
    }
}

} // verus!
