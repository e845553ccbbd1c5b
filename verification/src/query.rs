//! Reading a quantile off a compressed sequence of centroids.

use crate::centroid::{lemma_total_weight_prefix, total_weight, Centroid};
use crate::scalar::{F32, F64};
use vstd::prelude::*;

verus! {

/// The point at `x` on the line through `(x1, y1)` and `(x2, y2)`.
pub open spec fn spec_interpolate(x: F32, x1: F32, y1: F32, x2: F32, y2: F32) -> F32 {
    let k = x.sub(x1).div(x2.sub(x1));
    F32::one().sub(k).mul(y1).add(k.mul(y2))
}

/// The point at `x` on the line through `(x1, y1)` and `(x2, y2)`.
#[verifier::when_used_as_spec(spec_interpolate)]
pub fn interpolate(x: F32, x1: F32, y1: F32, x2: F32, y2: F32) -> (y: F32)
    ensures
        y == spec_interpolate(x, x1, y1, x2, y2),
{
    let k = x.sub(x1).div(x2.sub(x1));
    F32::one().sub(k).mul(y1).add(k.mul(y2))
}

/// The position of the middle of a centroid of weight `count` that has the
/// weight `before` to its left.
pub open spec fn spec_midpoint(before: usize, count: usize) -> F64 {
    F64::from_usize(before).add(F64::from_usize(count).mul(F64::half()))
}

/// The position of the middle of a centroid.
#[verifier::when_used_as_spec(spec_midpoint)]
pub fn midpoint(before: usize, count: usize) -> (x: F64)
    ensures
        x == spec_midpoint(before, count),
{
    F64::from_usize(before).add(F64::from_usize(count).mul(F64::half()))
}

/// The estimate at position `x` between the centroid `prev`, whose middle is
/// at `prev_x`, and the centroid `c`, whose middle is at `current_x`.
///
/// A centroid of weight one is a sample, not a blend: its mean holds for
/// half a unit to either side of its middle, so the boundary on its side
/// moves inward by that much. At or beyond a boundary the answer is that
/// centroid's mean; between the two it is interpolated.
pub open spec fn spec_between(
    x: F64,
    prev_x: F64,
    prev: Centroid,
    current_x: F64,
    c: Centroid,
) -> F32 {
    let left = if prev.count == 1 {
        prev_x.add(F64::half())
    } else {
        prev_x
    };
    let right = if c.count == 1 {
        current_x.sub(F64::half())
    } else {
        current_x
    };
    if x.le(left) {
        prev.mean
    } else if x.ge(right) {
        c.mean
    } else {
        interpolate(x.to_single(), left.to_single(), prev.mean, right.to_single(), c.mean)
    }
}

/// The estimate at position `x` between two neighbouring centroids.
#[verifier::when_used_as_spec(spec_between)]
pub fn between(x: F64, prev_x: F64, prev: Centroid, current_x: F64, c: Centroid) -> (y: F32)
    ensures
        y == spec_between(x, prev_x, prev, current_x, c),
{
    let left = if prev.count == 1 {
        prev_x.add(F64::half())
    } else {
        prev_x
    };
    let right = if c.count == 1 {
        current_x.sub(F64::half())
    } else {
        current_x
    };
    if x.le(left) {
        prev.mean
    } else if x.ge(right) {
        c.mean
    } else {
        interpolate(x.to_single(), left.to_single(), prev.mean, right.to_single(), c.mean)
    }
}

/// The estimate at position `x`, found by walking `centroids` from index `i`
/// on: the first centroid whose middle is at or beyond `x` bounds the answer
/// on the right and the one before it, `prev` with its middle at `prev_x`, on
/// the left. Where no middle reaches `x`, the answer is the last mean.
pub open spec fn walk(
    centroids: Seq<Centroid>,
    i: int,
    x: F64,
    prev_x: F64,
    before: usize,
    prev: Centroid,
) -> F32
    decreases centroids.len() - i,
{
    if i < 0 || i >= centroids.len() {
        centroids.last().mean
    } else {
        let c = centroids[i];
        let current_x = midpoint(before, c.count);
        if current_x.ge(x) {
            between(x, prev_x, prev, current_x, c)
        } else {
            walk(centroids, i + 1, x, current_x, (before + c.count) as usize, c)
        }
    }
}

/// The estimate of the quantile at `level` that compressed `centroids` of
/// total weight `count` give: a NaN where there are none, the one mean where
/// there is one, and otherwise the value at position `level * count`.
pub open spec fn estimate(centroids: Seq<Centroid>, count: usize, level: F64) -> F32 {
    if centroids.len() == 0 {
        F32::nan()
    } else if centroids.len() == 1 {
        centroids[0].mean
    } else {
        walk(centroids, 0, level.mul(F64::from_usize(count)), F64::zero(), 0, centroids[0])
    }
}

/// Computes `estimate`.
pub fn estimate_quantile(centroids: &Vec<Centroid>, count: usize, level: F64) -> (y: F32)
    requires
        total_weight(centroids@) <= usize::MAX,
    ensures
        y == estimate(centroids@, count, level),
{
    let n: usize = centroids.len();
    if n == 0 {
        return F32::nan();
    }
    if n == 1 {
        return centroids[0].mean;
    }
    let x = level.mul(F64::from_usize(count));
    let mut prev_x = F64::zero();
    let mut before: usize = 0;
    let mut prev = centroids[0];
    let mut i: usize = 0;
    proof {
        assert(centroids@.take(0) =~= Seq::<Centroid>::empty());
    }
    while i < n
        invariant
            i <= n,
            n == centroids@.len(),
            n >= 2,
            total_weight(centroids@) <= usize::MAX,
            before == total_weight(centroids@.take(i as int)),
            walk(centroids@, i as int, x, prev_x, before, prev) == estimate(
                centroids@,
                count,
                level,
            ),
        decreases n - i,
    {
        let c = centroids[i];
        let current_x = midpoint(before, c.count);
        if current_x.ge(x) {
            return between(x, prev_x, prev, current_x, c);
        }
        proof {
            lemma_total_weight_prefix(centroids@, i as int);
        }
        before = before + c.count;
        prev = c;
        prev_x = current_x;
        i = i + 1;
    }
    centroids[n - 1].mean
}

} // verus!
