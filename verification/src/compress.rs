//! The two passes that shrink a sorted sequence of centroids: a sweep that
//! merges neighbours as far as the scale function allows, and a sweep that
//! merges fixed-size batches to force the sequence under a hard limit.

use crate::centroid::{
    all_positive, can_be_merged, lemma_total_weight_concat, lemma_total_weight_prefix,
    lemma_total_weight_single, total_weight, Centroid, Cluster,
};
use crate::scalar::{F32, F64};
use vstd::prelude::*;

verus! {

/// The weight that a merged pair may have: `4 * epsilon * N * min(ql * (1 -
/// ql), qr * (1 - qr))`, where `ql` is the quantile at the middle of the left
/// cluster and `qr` the one at the middle of the right centroid, `before`
/// being the weight to the left of both. `total` is `N` and `scale` is
/// `4 * epsilon * N`.
pub open spec fn spec_allowance(
    total: F64,
    scale: F64,
    before: usize,
    l_count: usize,
    r_count: usize,
) -> F64 {
    let sf = F64::from_usize(before);
    let lf = F64::from_usize(l_count);
    let rf = F64::from_usize(r_count);
    let ql = sf.add(lf.mul(F64::half())).div(total);
    let el = ql.mul(F64::one().sub(ql));
    let qr = sf.add(lf).add(rf.mul(F64::half())).div(total);
    let er = qr.mul(F64::one().sub(qr));
    let err = if el.gt(er) {
        er
    } else {
        el
    };
    scale.mul(err)
}

/// The weight that a merged pair may have.
#[verifier::when_used_as_spec(spec_allowance)]
pub fn allowance(total: F64, scale: F64, before: usize, l_count: usize, r_count: usize) -> (k:
    F64)
    ensures
        k == spec_allowance(total, scale, before, l_count, r_count),
{
    let sf = F64::from_usize(before);
    let lf = F64::from_usize(l_count);
    let rf = F64::from_usize(r_count);
    let ql = sf.add(lf.mul(F64::half())).div(total);
    let el = ql.mul(F64::one().sub(ql));
    let qr = sf.add(lf).add(rf.mul(F64::half())).div(total);
    let er = qr.mul(F64::one().sub(qr));
    let err = if el.gt(er) {
        er
    } else {
        el
    };
    scale.mul(err)
}

/// Whether the cluster `l` takes in its right neighbour `r`: their joint
/// weight is within the allowance, and their means can be merged.
pub open spec fn spec_fits(
    total: F64,
    scale: F64,
    before: usize,
    l: Cluster,
    r: Centroid,
) -> bool {
    F64::from_usize(l.centroid.count).add(F64::from_usize(r.count)).le(
        allowance(total, scale, before, l.centroid.count, r.count),
    ) && can_be_merged(l.mean, r.mean)
}

/// Whether the cluster `l` takes in its right neighbour `r`.
#[verifier::when_used_as_spec(spec_fits)]
pub fn fits(total: F64, scale: F64, before: usize, l: Cluster, r: Centroid) -> (b: bool)
    ensures
        b == spec_fits(total, scale, before, l, r),
{
    F64::from_usize(l.centroid.count).add(F64::from_usize(r.count)).le(
        allowance(total, scale, before, l.centroid.count, r.count),
    ) && can_be_merged(l.mean, r.mean)
}

/// `4 * epsilon * N` for a digest of weight `count`.
pub open spec fn scale_factor(count: usize, epsilon: F32) -> F64 {
    F64::from_usize(count).mul(F64::from_single(epsilon)).mul(F64::four())
}

/// What the scale sweep leaves of `src[i..]`, given the cluster `current`
/// under construction and the weight `before` of the centroids already
/// finished: each centroid is folded into the cluster while it fits, and
/// starts a new cluster where it does not.
pub open spec fn scale_sweep(
    src: Seq<Centroid>,
    i: int,
    total: F64,
    scale: F64,
    before: usize,
    current: Cluster,
) -> Seq<Centroid>
    decreases src.len() - i,
{
    if i < 0 || i >= src.len() {
        seq![current.centroid]
    } else if fits(total, scale, before, current, src[i]) {
        scale_sweep(src, i + 1, total, scale, before, current.absorb(src[i]))
    } else {
        seq![current.centroid] + scale_sweep(
            src,
            i + 1,
            total,
            scale,
            (before + current.centroid.count) as usize,
            Cluster::start(src[i]),
        )
    }
}

/// The result of the scale pass over `src`, for a digest of weight `count`
/// and accuracy `epsilon`.
pub open spec fn scale_merged(src: Seq<Centroid>, count: usize, epsilon: F32) -> Seq<Centroid> {
    if src.len() == 0 {
        src
    } else {
        scale_sweep(
            src,
            1,
            F64::from_usize(count),
            scale_factor(count, epsilon),
            0,
            Cluster::start(src[0]),
        )
    }
}

/// The centroid that a finished cluster leaves: none where its mean is a
/// NaN.
pub open spec fn kept(current: Cluster) -> Seq<Centroid> {
    if current.centroid.mean.is_nan() {
        Seq::empty()
    } else {
        seq![current.centroid]
    }
}

/// What the batch sweep leaves of `src[i..]`, given the cluster `current`
/// that holds the first `pos + 1` centroids of its batch: a batch is `batch`
/// centroids folded into one, and a batch whose mean has become a NaN is
/// left out.
pub open spec fn batch_sweep(
    src: Seq<Centroid>,
    i: int,
    batch: int,
    pos: int,
    current: Cluster,
) -> Seq<Centroid>
    decreases src.len() - i,
{
    if i < 0 || i >= src.len() {
        kept(current)
    } else if pos < batch - 1 {
        batch_sweep(src, i + 1, batch, pos + 1, current.absorb(src[i]))
    } else {
        kept(current) + batch_sweep(src, i + 1, batch, 0, Cluster::start(src[i]))
    }
}

/// The number of centroids to a batch that brings `len` centroids down to
/// `limit` at most: `len / limit`, rounded up.
pub open spec fn batch_size(len: int, limit: int) -> int {
    (len - 1) / limit + 1
}

/// The result of the batch pass over `src` under the limit `limit`: `src`
/// itself where it is short enough.
pub open spec fn batch_merged(src: Seq<Centroid>, limit: usize) -> Seq<Centroid> {
    if src.len() <= limit {
        src
    } else {
        batch_sweep(src, 1, batch_size(src.len() as int, limit as int), 0, Cluster::start(src[0]))
    }
}

/// The weight that a finished cluster takes with it where it is left out:
/// its count where its mean is a NaN, nothing otherwise.
pub open spec fn dropped(current: Cluster) -> nat {
    if current.centroid.mean.is_nan() {
        current.centroid.count as nat
    } else {
        0
    }
}

/// The weight that the batch sweep over `src[i..]` leaves out: that of the
/// batches whose mean has become a NaN.
pub open spec fn batch_sweep_loss(
    src: Seq<Centroid>,
    i: int,
    batch: int,
    pos: int,
    current: Cluster,
) -> nat
    decreases src.len() - i,
{
    if i < 0 || i >= src.len() {
        dropped(current)
    } else if pos < batch - 1 {
        batch_sweep_loss(src, i + 1, batch, pos + 1, current.absorb(src[i]))
    } else {
        dropped(current) + batch_sweep_loss(src, i + 1, batch, 0, Cluster::start(src[i]))
    }
}

/// The weight that the batch pass over `src` leaves out.
pub open spec fn batch_loss(src: Seq<Centroid>, limit: usize) -> nat {
    if src.len() <= limit {
        0
    } else {
        batch_sweep_loss(
            src,
            1,
            batch_size(src.len() as int, limit as int),
            0,
            Cluster::start(src[0]),
        )
    }
}

/// The weight of a suffix is the count of its first centroid and the weight
/// of the rest.
proof fn lemma_total_weight_skip(src: Seq<Centroid>, i: int)
    requires
        0 <= i < src.len(),
    ensures
        total_weight(src.skip(i)) == src[i].count + total_weight(src.skip(i + 1)),
        total_weight(src.skip(i)) <= total_weight(src),
{
    assert(src.skip(i) =~= seq![src[i]] + src.skip(i + 1));
    lemma_total_weight_concat(seq![src[i]], src.skip(i + 1));
    lemma_total_weight_single(src[i]);
    assert(src =~= src.take(i) + src.skip(i));
    lemma_total_weight_concat(src.take(i), src.skip(i));
}

/// The scale sweep loses no weight, leaves no empty centroid, and leaves at
/// least one centroid and at most as many as it was given.
pub proof fn lemma_scale_sweep(
    src: Seq<Centroid>,
    i: int,
    total: F64,
    scale: F64,
    before: usize,
    current: Cluster,
)
    requires
        0 <= i <= src.len(),
        all_positive(src),
        current.centroid.count >= 1,
        before + current.centroid.count + total_weight(src.skip(i)) <= usize::MAX,
    ensures
        total_weight(scale_sweep(src, i, total, scale, before, current))
            == current.centroid.count + total_weight(src.skip(i)),
        all_positive(scale_sweep(src, i, total, scale, before, current)),
        1 <= scale_sweep(src, i, total, scale, before, current).len() <= 1 + src.len() - i,
    decreases src.len() - i,
{
    let out = scale_sweep(src, i, total, scale, before, current);
    if i >= src.len() {
        assert(src.skip(i) =~= Seq::<Centroid>::empty());
        lemma_total_weight_single(current.centroid);
    } else {
        lemma_total_weight_skip(src, i);
        if fits(total, scale, before, current, src[i]) {
            lemma_scale_sweep(src, i + 1, total, scale, before, current.absorb(src[i]));
        } else {
            let rest = scale_sweep(
                src,
                i + 1,
                total,
                scale,
                (before + current.centroid.count) as usize,
                Cluster::start(src[i]),
            );
            lemma_scale_sweep(
                src,
                i + 1,
                total,
                scale,
                (before + current.centroid.count) as usize,
                Cluster::start(src[i]),
            );
            lemma_total_weight_concat(seq![current.centroid], rest);
            lemma_total_weight_single(current.centroid);
        }
    }
}

/// The scale sweep leaves one centroid at least and one for each centroid it
/// was given at most; where it leaves that many, it has merged nothing, and
/// what it leaves is what it was given.
pub proof fn lemma_scale_sweep_length(
    src: Seq<Centroid>,
    i: int,
    total: F64,
    scale: F64,
    before: usize,
    current: Cluster,
)
    requires
        0 <= i <= src.len(),
    ensures
        1 <= scale_sweep(src, i, total, scale, before, current).len() <= 1 + src.len() - i,
        scale_sweep(src, i, total, scale, before, current).len() == 1 + src.len() - i
            ==> scale_sweep(src, i, total, scale, before, current) == seq![current.centroid]
            + src.skip(i),
    decreases src.len() - i,
{
    let out = scale_sweep(src, i, total, scale, before, current);
    if i >= src.len() {
        assert(out =~= seq![current.centroid] + src.skip(i));
    } else if fits(total, scale, before, current, src[i]) {
        lemma_scale_sweep_length(src, i + 1, total, scale, before, current.absorb(src[i]));
    } else {
        let next = (before + current.centroid.count) as usize;
        lemma_scale_sweep_length(src, i + 1, total, scale, next, Cluster::start(src[i]));
        if out.len() == 1 + src.len() - i {
            assert(out =~= seq![current.centroid] + src.skip(i));
        }
    }
}

/// The scale pass never lengthens the sequence; where it leaves the length
/// as it is, it leaves the sequence as it is.
pub proof fn lemma_scale_merged_length(src: Seq<Centroid>, count: usize, epsilon: F32)
    ensures
        scale_merged(src, count, epsilon).len() <= src.len(),
        scale_merged(src, count, epsilon).len() == src.len() ==> scale_merged(src, count, epsilon)
            == src,
{
    if src.len() > 0 {
        lemma_scale_sweep_length(
            src,
            1,
            F64::from_usize(count),
            scale_factor(count, epsilon),
            0,
            Cluster::start(src[0]),
        );
        assert(seq![src[0]] + src.skip(1) =~= src);
    }
}

/// The scale pass leaves the first centroid as it is where the second does
/// not fit with it.
pub proof fn lemma_scale_merged_first(src: Seq<Centroid>, count: usize, epsilon: F32)
    requires
        src.len() >= 1,
        src.len() >= 2 ==> !fits(
            F64::from_usize(count),
            scale_factor(count, epsilon),
            0,
            Cluster::start(src[0]),
            src[1],
        ),
    ensures
        scale_merged(src, count, epsilon)[0] == src[0],
{
}

/// The scale pass loses no weight, leaves no empty centroid and never
/// lengthens the sequence.
pub proof fn lemma_scale_merged(src: Seq<Centroid>, count: usize, epsilon: F32)
    requires
        all_positive(src),
        total_weight(src) <= usize::MAX,
    ensures
        total_weight(scale_merged(src, count, epsilon)) == total_weight(src),
        all_positive(scale_merged(src, count, epsilon)),
        scale_merged(src, count, epsilon).len() <= src.len(),
        src.len() > 0 ==> scale_merged(src, count, epsilon).len() > 0,
{
    if src.len() > 0 {
        lemma_total_weight_skip(src, 0);
        assert(src.skip(0) =~= src);
        lemma_scale_sweep(
            src,
            1,
            F64::from_usize(count),
            scale_factor(count, epsilon),
            0,
            Cluster::start(src[0]),
        );
    }
}

/// The batch sweep leaves at most one centroid for the batch under
/// construction and one for each batch still to come: all but one of the
/// centroids it leaves stand for `batch` centroids each, counted from the
/// start of the current batch.
pub proof fn lemma_batch_sweep_length(
    src: Seq<Centroid>,
    i: int,
    batch: int,
    pos: int,
    current: Cluster,
)
    requires
        0 <= i <= src.len(),
        batch >= 1,
        0 <= pos < batch,
    ensures
        (batch_sweep(src, i, batch, pos, current).len() - 1) * batch <= src.len() - i + pos,
    decreases src.len() - i,
{
    let out = batch_sweep(src, i, batch, pos, current);
    if i >= src.len() {
        let k = out.len() - 1;
        assert(k * batch <= 0) by (nonlinear_arith)
            requires
                k <= 0,
                batch >= 1,
        ;
    } else if pos < batch - 1 {
        lemma_batch_sweep_length(src, i + 1, batch, pos + 1, current.absorb(src[i]));
    } else {
        let rest = batch_sweep(src, i + 1, batch, 0, Cluster::start(src[i]));
        lemma_batch_sweep_length(src, i + 1, batch, 0, Cluster::start(src[i]));
        let k = out.len() - 1;
        let j = rest.len() - 1;
        assert(k * batch <= j * batch + batch) by (nonlinear_arith)
            requires
                k <= j + 1,
                batch >= 1,
        ;
    }
}

/// The batch sweep leaves no empty centroid, and the weight it leaves and
/// the weight it leaves out are the weight it was given.
pub proof fn lemma_batch_sweep_weight(
    src: Seq<Centroid>,
    i: int,
    batch: int,
    pos: int,
    current: Cluster,
)
    requires
        0 <= i <= src.len(),
        all_positive(src),
        current.centroid.count >= 1,
        current.centroid.count + total_weight(src.skip(i)) <= usize::MAX,
    ensures
        total_weight(batch_sweep(src, i, batch, pos, current)) + batch_sweep_loss(
            src,
            i,
            batch,
            pos,
            current,
        ) == current.centroid.count + total_weight(src.skip(i)),
        all_positive(batch_sweep(src, i, batch, pos, current)),
    decreases src.len() - i,
{
    if i >= src.len() {
        assert(src.skip(i) =~= Seq::<Centroid>::empty());
        lemma_total_weight_single(current.centroid);
    } else {
        lemma_total_weight_skip(src, i);
        if pos < batch - 1 {
            lemma_batch_sweep_weight(src, i + 1, batch, pos + 1, current.absorb(src[i]));
        } else {
            let rest = batch_sweep(src, i + 1, batch, 0, Cluster::start(src[i]));
            lemma_batch_sweep_weight(src, i + 1, batch, 0, Cluster::start(src[i]));
            lemma_total_weight_concat(kept(current), rest);
            lemma_total_weight_single(current.centroid);
        }
    }
}

/// Batches of `len / limit` centroids, rounded up, are at most `limit`:
/// a sequence whose centroids, all but one, stand for a full batch each out
/// of `len - 1` is no longer than `limit`.
pub proof fn lemma_batch_count(len: int, limit: int, out_len: int)
    requires
        limit >= 1,
        len >= 1,
        (out_len - 1) * batch_size(len, limit) <= len - 1,
    ensures
        batch_size(len, limit) >= 1,
        out_len <= limit,
{
    let x = len - 1;
    let b = x / limit + 1;
    assert(x / limit >= 0 && x < limit * b) by (nonlinear_arith)
        requires
            x >= 0,
            limit >= 1,
            b == x / limit + 1,
    ;
    assert(out_len - 1 < limit) by (nonlinear_arith)
        requires
            (out_len - 1) * b <= x,
            x < limit * b,
            b >= 1,
    ;
}

/// The batch pass leaves at most `limit` centroids, and never more than it
/// was given.
pub proof fn lemma_batch_merged_length(src: Seq<Centroid>, limit: usize)
    requires
        limit >= 1,
    ensures
        batch_merged(src, limit).len() <= limit,
        batch_merged(src, limit).len() <= src.len(),
{
    if src.len() > limit {
        let batch = batch_size(src.len() as int, limit as int);
        assert(batch >= 1) by (nonlinear_arith)
            requires
                batch == (src.len() - 1) / (limit as int) + 1,
                src.len() >= 1,
                limit >= 1,
        ;
        lemma_batch_sweep_length(src, 1, batch, 0, Cluster::start(src[0]));
        lemma_batch_count(src.len() as int, limit as int, batch_merged(src, limit).len() as int);
    }
}

/// The batch pass leaves no empty centroid, and the weight it leaves and
/// the weight it leaves out are the weight it was given.
pub proof fn lemma_batch_merged_weight(src: Seq<Centroid>, limit: usize)
    requires
        all_positive(src),
        total_weight(src) <= usize::MAX,
    ensures
        total_weight(batch_merged(src, limit)) + batch_loss(src, limit) == total_weight(src),
        all_positive(batch_merged(src, limit)),
{
    if src.len() > limit {
        lemma_total_weight_skip(src, 0);
        assert(src.skip(0) =~= src);
        lemma_batch_sweep_weight(
            src,
            1,
            batch_size(src.len() as int, limit as int),
            0,
            Cluster::start(src[0]),
        );
    }
}

/// A copy of `src`.
pub fn copy_centroids(src: &Vec<Centroid>) -> (out: Vec<Centroid>)
    ensures
        out@ == src@,
{
    let mut out: Vec<Centroid> = Vec::new();
    let mut i: usize = 0;
    while i < src.len()
        invariant
            i <= src@.len(),
            out@ == src@.take(i as int),
        decreases src@.len() - i,
    {
        proof {
            assert(src@.take(i as int).push(src@[i as int]) =~= src@.take(i + 1));
        }
        out.push(src[i]);
        i = i + 1;
    }
    proof {
        assert(src@.take(src@.len() as int) =~= src@);
    }
    out
}

/// The scale pass: merges the neighbours of `sorted` that fit together, for
/// a digest of weight `count` and accuracy `epsilon`. Returns what is left
/// and its weight, summed anew.
pub fn merge_neighbours(sorted: &Vec<Centroid>, count: usize, epsilon: F32) -> (r: (
    Vec<Centroid>,
    usize,
))
    requires
        total_weight(sorted@) <= usize::MAX,
    ensures
        r.0@ == scale_merged(sorted@, count, epsilon),
        r.1 == total_weight(r.0@),
        r.1 == total_weight(sorted@),
{
    let mut out: Vec<Centroid> = Vec::new();
    let n: usize = sorted.len();
    if n == 0 {
        assert(out@ =~= sorted@);
        return (out, 0);
    }
    let total = F64::from_usize(count);
    let scale = total.mul(F64::from_single(epsilon)).mul(F64::four());
    let mut before: usize = 0;
    let mut current = Cluster::start(sorted[0]);
    let mut i: usize = 1;
    proof {
        assert(sorted@.take(1) =~= seq![sorted@[0]]);
        lemma_total_weight_single(sorted@[0]);
        assert(out@ + scale_sweep(sorted@, 1, total, scale, 0, current) =~= scale_sweep(
            sorted@,
            1,
            total,
            scale,
            0,
            current,
        ));
    }
    while i < n
        invariant
            1 <= i <= n,
            n == sorted@.len(),
            total_weight(sorted@) <= usize::MAX,
            before == total_weight(out@),
            before + current.centroid.count == total_weight(sorted@.take(i as int)),
            out@ + scale_sweep(sorted@, i as int, total, scale, before, current) == scale_merged(
                sorted@,
                count,
                epsilon,
            ),
        decreases n - i,
    {
        let r = sorted[i];
        proof {
            lemma_total_weight_prefix(sorted@, i as int);
        }
        if fits(total, scale, before, current, r) {
            current = current.absorb(r);
        } else {
            proof {
                let rest = scale_sweep(
                    sorted@,
                    i + 1,
                    total,
                    scale,
                    (before + current.centroid.count) as usize,
                    Cluster::start(r),
                );
                assert(out@.push(current.centroid) + rest =~= out@ + (seq![current.centroid]
                    + rest));
                assert(out@.push(current.centroid).drop_last() =~= out@);
            }
            out.push(current.centroid);
            before = before + current.centroid.count;
            current = Cluster::start(r);
        }
        i = i + 1;
    }
    proof {
        assert(out@.push(current.centroid) =~= out@ + seq![current.centroid]);
        assert(out@.push(current.centroid).drop_last() =~= out@);
        assert(sorted@.take(n as int) =~= sorted@);
    }
    out.push(current.centroid);
    (out, before + current.centroid.count)
}

/// The batch pass: where `src` is longer than `limit`, merges it in batches
/// of `len / limit` centroids, rounded up, and leaves out each batch whose
/// mean has become a NaN. Returns what is left and its weight, summed anew.
pub fn merge_batches(src: &Vec<Centroid>, limit: usize) -> (r: (Vec<Centroid>, usize))
    requires
        limit >= 1,
        total_weight(src@) <= usize::MAX,
    ensures
        r.0@ == batch_merged(src@, limit),
        r.1 == total_weight(r.0@),
{
    let n: usize = src.len();
    let mut out: Vec<Centroid> = Vec::new();
    let mut weight: usize = 0;
    if n <= limit {
        let mut i: usize = 0;
        proof {
            assert(src@.take(0) =~= out@);
        }
        while i < n
            invariant
                i <= n,
                n == src@.len(),
                out@ == src@.take(i as int),
                weight == total_weight(out@),
                total_weight(src@) <= usize::MAX,
            decreases n - i,
        {
            proof {
                lemma_total_weight_prefix(src@, i as int);
                assert(src@.take(i as int).push(src@[i as int]) =~= src@.take(i + 1));
            }
            out.push(src[i]);
            weight = weight + src[i].count;
            i = i + 1;
        }
        proof {
            assert(src@.take(n as int) =~= src@);
        }
        return (out, weight);
    }
    let batch: usize = (n - 1) / limit + 1;
    let mut current = Cluster::start(src[0]);
    let mut pos: usize = 0;
    let mut i: usize = 1;
    let ghost target = batch_sweep(src@, 1, batch as int, 0, current);
    proof {
        assert(src@.take(1) =~= seq![src@[0]]);
        lemma_total_weight_single(src@[0]);
        assert(out@ + target =~= target);
        assert(target == batch_merged(src@, limit));
    }
    while i < n
        invariant
            1 <= i <= n,
            n == src@.len(),
            batch >= 1,
            pos < batch,
            total_weight(src@) <= usize::MAX,
            weight == total_weight(out@),
            weight + current.centroid.count <= total_weight(src@.take(i as int)),
            out@ + batch_sweep(src@, i as int, batch as int, pos as int, current) == target,
        decreases n - i,
    {
        let r = src[i];
        proof {
            lemma_total_weight_prefix(src@, i as int);
        }
        if pos + 1 < batch {
            current = current.absorb(r);
            pos = pos + 1;
        } else {
            proof {
                let rest = batch_sweep(src@, i + 1, batch as int, 0, Cluster::start(r));
                assert((out@ + kept(current)) + rest =~= out@ + (kept(current) + rest));
            }
            if !current.centroid.mean.is_nan() {
                proof {
                    assert(out@.push(current.centroid) =~= out@ + kept(current));
                    assert(out@.push(current.centroid).drop_last() =~= out@);
                }
                out.push(current.centroid);
                weight = weight + current.centroid.count;
            } else {
                proof {
                    assert(out@ =~= out@ + kept(current));
                }
            }
            current = Cluster::start(r);
            pos = 0;
        }
        i = i + 1;
    }
    proof {
        assert(src@.take(n as int) =~= src@);
    }
    if !current.centroid.mean.is_nan() {
        proof {
            assert(out@.push(current.centroid) =~= out@ + kept(current));
            assert(out@.push(current.centroid).drop_last() =~= out@);
        }
        out.push(current.centroid);
        weight = weight + current.centroid.count;
    } else {
        proof {
            assert(out@ =~= out@ + kept(current));
        }
    }
    (out, weight)
}

} // verus!
