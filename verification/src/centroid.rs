//! Centroids, the clusters that a digest is made of, and the arithmetic of
//! folding one into another.

use crate::scalar::{F32, F64};
use std::cmp::Ordering;
use vstd::prelude::*;

verus! {

/// A cluster of samples: their mean and how many they are.
#[derive(Clone, Copy, Debug)]
pub struct Centroid {
    pub mean: F32,
    pub count: usize,
}

/// The sum of the counts of `centroids`.
pub open spec fn total_weight(centroids: Seq<Centroid>) -> nat
    decreases centroids.len(),
{
    if centroids.len() == 0 {
        0
    } else {
        total_weight(centroids.drop_last()) + centroids.last().count as nat
    }
}

/// Every centroid stands for at least one sample.
pub open spec fn all_positive(centroids: Seq<Centroid>) -> bool {
    forall|i: int| 0 <= i < centroids.len() ==> (#[trigger] centroids[i]).count >= 1
}

/// The weight of a concatenation is the sum of the weights.
pub proof fn lemma_total_weight_concat(a: Seq<Centroid>, b: Seq<Centroid>)
    ensures
        total_weight(a + b) == total_weight(a) + total_weight(b),
    decreases b.len(),
{
    if b.len() == 0 {
        assert(a + b =~= a);
    } else {
        assert((a + b).drop_last() =~= a + b.drop_last());
        lemma_total_weight_concat(a, b.drop_last());
    }
}

/// The weight of a single centroid is its count.
pub proof fn lemma_total_weight_single(c: Centroid)
    ensures
        total_weight(seq![c]) == c.count,
{
    assert(seq![c].drop_last() =~= Seq::<Centroid>::empty());
    assert(total_weight(seq![c].drop_last()) == 0);
}

/// The weight of a prefix grows by the count of each centroid it takes in,
/// and never exceeds the weight of the whole.
pub proof fn lemma_total_weight_prefix(centroids: Seq<Centroid>, i: int)
    requires
        0 <= i < centroids.len(),
    ensures
        total_weight(centroids.take(i + 1)) == total_weight(centroids.take(i))
            + centroids[i].count,
        total_weight(centroids.take(i + 1)) <= total_weight(centroids),
{
    assert(centroids.take(i + 1).drop_last() =~= centroids.take(i));
    assert(centroids =~= centroids.take(i + 1) + centroids.skip(i + 1));
    lemma_total_weight_concat(centroids.take(i + 1), centroids.skip(i + 1));
}

/// Taking one centroid out lowers the weight by its count.
proof fn lemma_total_weight_remove(centroids: Seq<Centroid>, i: int)
    requires
        0 <= i < centroids.len(),
    ensures
        total_weight(centroids) == total_weight(centroids.remove(i)) + centroids[i].count,
{
    let before = centroids.take(i);
    let after = centroids.skip(i + 1);
    assert(centroids =~= before + seq![centroids[i]] + after);
    assert(centroids.remove(i) =~= before + after);
    lemma_total_weight_concat(before + seq![centroids[i]], after);
    lemma_total_weight_concat(before, seq![centroids[i]]);
    lemma_total_weight_concat(before, after);
    lemma_total_weight_single(centroids[i]);
}

/// Two arrangements of the same centroids weigh the same.
pub proof fn lemma_total_weight_permutation(a: Seq<Centroid>, b: Seq<Centroid>)
    requires
        a.to_multiset() == b.to_multiset(),
    ensures
        total_weight(a) == total_weight(b),
        a.len() == b.len(),
        all_positive(a) ==> all_positive(b),
    decreases a.len(),
{
    a.to_multiset_ensures();
    b.to_multiset_ensures();
    if a.len() == 0 {
    } else {
        let x = a.last();
        assert(a.contains(x));
        assert(b.to_multiset().count(x) > 0);
        assert(b.contains(x));
        let k = choose|k: int| 0 <= k < b.len() && b[k] == x;
        let a1 = a.remove(a.len() - 1);
        assert(a1 =~= a.drop_last());
        let b1 = b.remove(k);
        assert(a1.to_multiset() == b1.to_multiset());
        lemma_total_weight_permutation(a1, b1);
        lemma_total_weight_remove(b, k);
        if all_positive(a) {
            assert forall|i: int| 0 <= i < b.len() implies (#[trigger] b[i]).count >= 1 by {
                assert(b.contains(b[i]));
                assert(a.to_multiset().count(b[i]) > 0);
                assert(a.contains(b[i]));
            }
        }
    }
}

/// The order in which means are sorted: the order of the numbers, with every
/// NaN after every number and all NaNs equal to each other.
pub open spec fn mean_order(lhs: F32, rhs: F32) -> Ordering {
    if lhs.is_nan() {
        if rhs.is_nan() {
            Ordering::Equal
        } else {
            Ordering::Greater
        }
    } else if rhs.is_nan() {
        Ordering::Less
    } else if lhs.lt(rhs) {
        Ordering::Less
    } else if rhs.lt(lhs) {
        Ordering::Greater
    } else {
        Ordering::Equal
    }
}

/// `lhs` may stand before `rhs` in a sorted sequence of means.
pub open spec fn precedes(lhs: F32, rhs: F32) -> bool {
    !(mean_order(lhs, rhs) is Greater)
}

/// The means of `centroids` never step down from one to the next.
pub open spec fn sorted_by_mean(centroids: Seq<Centroid>) -> bool {
    forall|i: int, j: int|
        0 <= i < j < centroids.len() ==> precedes(
            (#[trigger] centroids[i]).mean,
            (#[trigger] centroids[j]).mean,
        )
}

/// Compares two means under `mean_order`.
pub fn cmp_f32(lhs: F32, rhs: F32) -> (r: Ordering)
    ensures
        r == mean_order(lhs, rhs),
{
    if lhs.is_nan() {
        if rhs.is_nan() {
            Ordering::Equal
        } else {
            Ordering::Greater
        }
    } else if rhs.is_nan() {
        Ordering::Less
    } else if lhs.lt(rhs) {
        Ordering::Less
    } else if rhs.lt(lhs) {
        Ordering::Greater
    } else {
        Ordering::Equal
    }
}

/// `mean_order` is a total preorder: any two means compare, comparing them
/// the other way round gives the reverse, and the order is transitive. A
/// sort by it is therefore well defined.
pub proof fn lemma_mean_order_total(a: F32, b: F32, c: F32)
    ensures
        mean_order(a, a) is Equal,
        mean_order(a, b) is Less <==> mean_order(b, a) is Greater,
        mean_order(a, b) is Equal <==> mean_order(b, a) is Equal,
        precedes(a, b) && precedes(b, c) ==> precedes(a, c),
        mean_order(a, b) is Equal && mean_order(b, c) is Equal ==> mean_order(a, c) is Equal,
{
}

/// Whether a cluster of mean `l_mean` may take in a centroid of mean
/// `r_mean`: where the means are equal, or neither is infinite. An infinity
/// and anything else have no mean between them.
pub open spec fn spec_can_be_merged(l_mean: F64, r_mean: F32) -> bool {
    l_mean.eq(F64::from_single(r_mean)) || (!l_mean.is_infinite() && !r_mean.is_infinite())
}

/// Whether a cluster of mean `l_mean` may take in a centroid of mean `r_mean`.
#[verifier::when_used_as_spec(spec_can_be_merged)]
pub fn can_be_merged(l_mean: F64, r_mean: F32) -> (r: bool)
    ensures
        r == spec_can_be_merged(l_mean, r_mean),
{
    l_mean.eq(F64::from_single(r_mean)) || (!l_mean.is_infinite() && !r_mean.is_infinite())
}

/// A centroid under construction: the centroid as it would be stored now,
/// and its mean at the precision in which it is accumulated.
#[derive(Clone, Copy, Debug)]
pub struct Cluster {
    pub centroid: Centroid,
    pub mean: F64,
}

impl Cluster {
    /// What `start` returns.
    pub open spec fn spec_start(c: Centroid) -> Cluster {
        Cluster { centroid: c, mean: F64::from_single(c.mean) }
    }

    /// The cluster that holds `c` alone.
    #[verifier::when_used_as_spec(spec_start)]
    pub fn start(c: Centroid) -> (r: Cluster)
        ensures
            r == Cluster::spec_start(c),
    {
        Cluster { centroid: c, mean: F64::from_single(c.mean) }
    }

    /// The mean of the cluster once it has taken in `r`, for `count` samples
    /// in all: moved towards `r`'s mean by `r`'s share of the distance. Where
    /// the two means are equal nothing is computed, so that an infinity
    /// stays what it is.
    pub open spec fn merged_mean(self, r: Centroid, count: usize) -> F64 {
        let r_mean = F64::from_single(r.mean);
        if r_mean.eq(self.mean) {
            self.mean
        } else {
            self.mean.add(
                F64::from_usize(r.count).mul(r_mean.sub(self.mean)).div(F64::from_usize(count)),
            )
        }
    }

    /// What `absorb` returns.
    pub open spec fn spec_absorb(self, r: Centroid) -> Cluster {
        let count = (self.centroid.count + r.count) as usize;
        let mean = self.merged_mean(r, count);
        Cluster { centroid: Centroid { mean: mean.to_single(), count }, mean }
    }

    /// The cluster with `r` folded in.
    #[verifier::when_used_as_spec(spec_absorb)]
    pub fn absorb(self, r: Centroid) -> (merged: Cluster)
        requires
            self.centroid.count + r.count <= usize::MAX,
        ensures
            merged == self.spec_absorb(r),
            merged.centroid.count == self.centroid.count + r.count,
    {
        let count: usize = self.centroid.count + r.count;
        let r_mean = F64::from_single(r.mean);
        let mean = if r_mean.eq(self.mean) {
            self.mean
        } else {
            self.mean.add(
                F64::from_usize(r.count).mul(r_mean.sub(self.mean)).div(F64::from_usize(count)),
            )
        };
        Cluster { centroid: Centroid { mean: mean.to_single(), count }, mean }
    }
}

} // verus!
