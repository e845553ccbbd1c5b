//! Laws of the digest that relate several of its operations.

use crate::centroid::{
    all_positive, lemma_total_weight_prefix, precedes, sorted_by_mean, total_weight, Centroid,
    Cluster,
};
use crate::compress::{
    fits, lemma_batch_merged_length, lemma_scale_merged_first, lemma_scale_merged_length,
    scale_factor,
};
use crate::digest::{lemma_compressed, State};
use crate::exact::{
    halves, lemma_from_nat_is_exact, lemma_half_is_exact, lemma_halves_are_exact,
    lemma_halves_increase, lemma_one_times_is_exact, lemma_sum_is_exact,
};
use crate::ieee::{from_nat, Format};
use crate::query::{midpoint, spec_between, walk};
use crate::scalar::F64;
use crate::sign::{
    lemma_from_nat_is_finite, lemma_product_non_negative, lemma_sum_non_negative, non_negative,
};
use crate::sorting::{lemma_sorted_ends, lemma_stable_sort, stable_sort};
use vstd::prelude::*;

verus! {

/// A compressed digest has nothing left to compress: its buffer of
/// unmerged centroids is empty and it is within its hard limit.
pub proof fn lemma_compression_settles(s: State)
    requires
        s.config.max_centroids >= 1,
    ensures
        s.compressed().unmerged == 0,
        s.compressed().centroids.len() <= s.config.max_centroids,
        !s.compressed().needs_merge(),
{
    if s.needs_merge() {
        lemma_batch_merged_length(s.scale_pass().centroids, s.config.max_centroids);
    } else {
        lemma_batch_merged_length(s.centroids, s.config.max_centroids);
    }
}

/// Compression is idempotent.
pub proof fn lemma_compression_is_idempotent(s: State)
    requires
        s.config.max_centroids >= 1,
    ensures
        s.compressed().compressed() == s.compressed(),
{
    lemma_compression_settles(s);
}

/// A compression that merges nothing sorts: where a digest with something
/// to merge comes out of compression with as many centroids as it went in
/// with, they are its centroids in the order of their means, those of equal
/// mean in the order in which they stood.
pub proof fn lemma_compression_without_merge_sorts(s: State)
    requires
        s.config.max_centroids >= 1,
        s.needs_merge(),
        s.compressed().centroids.len() == s.centroids.len(),
    ensures
        s.compressed().centroids == stable_sort(s.centroids),
        sorted_by_mean(s.compressed().centroids),
{
    let sorted = stable_sort(s.centroids);
    lemma_stable_sort(s.centroids);
    lemma_scale_merged_length(sorted, s.count, s.config.epsilon);
    lemma_batch_merged_length(s.scale_pass().centroids, s.config.max_centroids);
}

/// A quantile query can be repeated: asked again of the digest that the
/// first query left behind, with nothing inserted in between, it gives the
/// same answer bit for bit, and leaves the same digest.
pub proof fn lemma_quantile_is_repeatable(s: State, level: F64)
    requires
        s.config.max_centroids >= 1,
    ensures
        s.compressed().quantile(level) == s.quantile(level),
        s.compressed().compressed() == s.compressed(),
{
    lemma_compression_is_idempotent(s);
}

/// Taking a digest apart and putting it together again gives the digest
/// back, and with it the same answer to every query.
pub proof fn lemma_parts_round_trip(s: State, level: F64)
    requires
        s.wf(),
    ensures
        State::of_parts(s.parts()) == Some(s),
        State::of_parts(s.parts())->0.quantile(level) == s.quantile(level),
        State::of_parts(s.parts())->0.estimate(level) == s.estimate(level),
{
}

/// Taking a centroid in keeps a digest well formed, and adds its weight,
/// less what a compression drops.
pub proof fn lemma_with_centroid(s: State, c: Centroid)
    requires
        s.wf(),
        c.count >= 1,
        s.count + c.count <= usize::MAX,
    ensures
        s.with_centroid(c).wf(),
        s.with_centroid(c).config == s.config,
        s.with_centroid(c).count + s.with_centroid_loss(c) == s.count + c.count,
        s.unmerged < s.config.max_unmerged ==> s.with_centroid(c) == s.pushed(c)
            && s.with_centroid_loss(c) == 0,
{
    let t = s.pushed(c);
    assert(t.centroids.drop_last() =~= s.centroids);
    assert(t.wf());
    if t.unmerged > t.config.max_unmerged {
        lemma_compressed(t);
    }
}

/// Taking a run of centroids in keeps a digest well formed, and adds their
/// weights, less what compressions on the way drop. Nothing is dropped
/// where the run fits into the buffer of unmerged centroids.
pub proof fn lemma_absorbed(s: State, centroids: Seq<Centroid>)
    requires
        s.wf(),
        all_positive(centroids),
        s.count + total_weight(centroids) <= usize::MAX,
    ensures
        s.absorbed(centroids).wf(),
        s.absorbed(centroids).config == s.config,
        s.absorbed(centroids).count + s.absorbed_loss(centroids) == s.count + total_weight(
            centroids,
        ),
        s.unmerged + centroids.len() <= s.config.max_unmerged ==> {
            &&& s.absorbed_loss(centroids) == 0
            &&& s.absorbed(centroids).unmerged == s.unmerged + centroids.len()
        },
    decreases centroids.len(),
{
    if centroids.len() > 0 {
        let rest = centroids.drop_last();
        assert(rest =~= centroids.take(centroids.len() - 1));
        assert(centroids.take(centroids.len() as int) =~= centroids);
        lemma_total_weight_prefix(centroids, centroids.len() - 1);
        assert(all_positive(rest)) by {
            assert forall|i: int| 0 <= i < rest.len() implies (#[trigger] rest[i]).count >= 1 by {
                assert(centroids[i].count >= 1);
            }
        }
        lemma_absorbed(s, rest);
        lemma_with_centroid(s.absorbed(rest), centroids.last());
    }
}

/// The weight of a union is the sum of the weights, less what compressions
/// on the way drop: the two are equal exactly where nothing is dropped, and
/// nothing is where the union need not compress itself.
pub proof fn lemma_merge_adds_weights(a: State, b: State)
    requires
        a.wf(),
        b.wf(),
        a.count + b.count <= usize::MAX,
    ensures
        a.absorbed(b.centroids).wf(),
        a.absorbed(b.centroids).count + a.absorbed_loss(b.centroids) == a.count + b.count,
        a.absorbed(b.centroids).count == a.count + b.count <==> a.absorbed_loss(b.centroids)
            == 0,
        a.unmerged + b.centroids.len() <= a.config.max_unmerged ==> a.absorbed(
            b.centroids,
        ).count == a.count + b.count,
{
    lemma_absorbed(a, b.centroids);
}

/// The middle of a centroid lies at a non-negative position.
proof fn lemma_midpoint_non_negative(before: usize, count: usize)
    ensures
        non_negative(Format::Double, midpoint(before, count).bits as nat),
{
    reveal(F64::spec_from_usize);
    reveal(F64::spec_mul);
    reveal(F64::spec_add);
    let fmt = Format::Double;
    lemma_from_nat_is_finite(before as nat);
    lemma_from_nat_is_finite(count as nat);
    let half = F64::half().bits as nat;
    let weight = from_nat(fmt, count as nat);
    lemma_product_non_negative(fmt, weight, half);
    lemma_sum_non_negative(
        fmt,
        from_nat(fmt, before as nat),
        F64::from_usize(count).mul(F64::half()).bits as nat,
    );
}

/// At level zero a digest answers with the mean of its first centroid.
pub proof fn lemma_lowest_level_gives_first_mean(s: State)
    requires
        s.centroids.len() >= 1,
    ensures
        s.estimate(F64::zero()) == s.centroids[0].mean,
{
    if s.centroids.len() >= 2 {
        reveal(F64::spec_from_usize);
        reveal(F64::spec_mul);
        reveal(F64::spec_add);
        let fmt = Format::Double;
        let first = s.centroids[0];
        // The position asked for is zero.
        lemma_from_nat_is_finite(s.count as nat);
        lemma_product_non_negative(fmt, 0, from_nat(fmt, s.count as nat));
        let x = F64::zero().mul(F64::from_usize(s.count));
        assert(x.bits == 0);
        // The middle of the first centroid is at or beyond it.
        let current_x = midpoint(0, first.count);
        lemma_midpoint_non_negative(0, first.count);
        assert(current_x.ge(x));
        // And so is the left boundary, moved inward or not.
        lemma_sum_non_negative(fmt, 0, F64::half().bits as nat);
        let left = if first.count == 1 {
            F64::zero().add(F64::half())
        } else {
            F64::zero()
        };
        assert(x.le(left));
        assert(spec_between(x, F64::zero(), first, current_x, first) == first.mean);
        assert(walk(s.centroids, 0, x, F64::zero(), 0, first) == first.mean);
    }
}

/// Below a total of `2^52` the middle of a centroid is computed exactly: it
/// counts twice the weight before the centroid, and its own weight once, in
/// halves.
proof fn lemma_midpoint_is_exact(before: usize, count: usize)
    requires
        before + count < 0x10_0000_0000_0000,
    ensures
        midpoint(before, count).bits == halves((2 * before + count) as nat),
{
    reveal(F64::spec_from_usize);
    reveal(F64::spec_mul);
    reveal(F64::spec_add);
    lemma_from_nat_is_exact(before as nat);
    lemma_from_nat_is_exact(count as nat);
    lemma_half_is_exact(count as nat);
    lemma_sum_is_exact((2 * before) as nat, count as nat);
    lemma_halves_are_exact((2 * before) as nat);
    lemma_halves_are_exact((2 * count) as nat);
    lemma_halves_are_exact(count as nat);
    lemma_halves_are_exact((2 * before + count) as nat);
}

/// In a digest of total weight `count` below `2^52`, no centroid has its
/// middle at or beyond position `count`: the walk from any index runs to
/// the end and answers with the last mean.
proof fn lemma_walk_reaches_the_end(
    centroids: Seq<Centroid>,
    i: int,
    count: usize,
    prev_x: F64,
    prev: Centroid,
)
    requires
        0 <= i <= centroids.len(),
        all_positive(centroids),
        total_weight(centroids) == count,
        count < 0x10_0000_0000_0000,
    ensures
        walk(
            centroids,
            i,
            F64::one().mul(F64::from_usize(count)),
            prev_x,
            total_weight(centroids.take(i)) as usize,
            prev,
        ) == centroids.last().mean,
    decreases centroids.len() - i,
{
    if i < centroids.len() {
        let x = F64::one().mul(F64::from_usize(count));
        let before = total_weight(centroids.take(i)) as usize;
        let c = centroids[i];
        lemma_total_weight_prefix(centroids, i);
        let current_x = midpoint(before, c.count);
        lemma_midpoint_is_exact(before, c.count);
        assert(x.bits == halves((2 * count) as nat)) by {
            reveal(F64::spec_from_usize);
            reveal(F64::spec_mul);
            lemma_from_nat_is_exact(count as nat);
            lemma_one_times_is_exact((2 * count) as nat);
            lemma_halves_are_exact((2 * count) as nat);
        }
        lemma_halves_increase((2 * before + c.count) as nat, (2 * count) as nat);
        lemma_halves_are_exact((2 * before + c.count) as nat);
        lemma_halves_are_exact((2 * count) as nat);
        assert(!current_x.ge(x));
        lemma_walk_reaches_the_end(centroids, i + 1, count, current_x, c);
    }
}

/// At level one a digest whose total weight is below `2^52` answers with the
/// mean of its last centroid.
pub proof fn lemma_highest_level_gives_last_mean(s: State)
    requires
        s.wf(),
        s.centroids.len() >= 1,
        s.count < 0x10_0000_0000_0000,
    ensures
        s.estimate(F64::one()) == s.centroids.last().mean,
{
    if s.centroids.len() >= 2 {
        assert(s.centroids.take(0) =~= Seq::<Centroid>::empty());
        lemma_walk_reaches_the_end(s.centroids, 0, s.count, F64::zero(), s.centroids[0]);
    }
}

/// Compression leaves the least centroid as it is where the one next to it
/// in the order of the means does not fit with it, and the scale pass brings
/// the digest within its hard limit.
pub proof fn lemma_least_centroid_survives(s: State)
    requires
        s.wf(),
        s.needs_merge(),
        s.centroids.len() >= 2 ==> !fits(
            F64::from_usize(s.count),
            scale_factor(s.count, s.config.epsilon),
            0,
            Cluster::start(stable_sort(s.centroids)[0]),
            stable_sort(s.centroids)[1],
        ),
        s.scale_pass().centroids.len() <= s.config.max_centroids,
    ensures
        s.compressed().centroids.len() >= 1,
        s.compressed().centroids[0] == stable_sort(s.centroids)[0],
{
    lemma_stable_sort(s.centroids);
    lemma_scale_merged_first(stable_sort(s.centroids), s.count, s.config.epsilon);
    lemma_compressed(s);
}

/// The answer at level zero is the least of the means that the digest
/// held before the query, where the compression has left the least mean as
/// it was.
pub proof fn lemma_lowest_level_gives_least_mean(s: State)
    requires
        s.wf(),
        s.needs_merge(),
        s.compressed().centroids.len() >= 1,
        s.compressed().centroids[0].mean == stable_sort(s.centroids)[0].mean,
    ensures
        forall|i: int|
            0 <= i < s.centroids.len() ==> precedes(
                s.quantile(F64::zero()),
                (#[trigger] s.centroids[i]).mean,
            ),
        exists|j: int|
            0 <= j < s.centroids.len() && (#[trigger] s.centroids[j]).mean == s.quantile(
                F64::zero(),
            ),
{
    let sorted = stable_sort(s.centroids);
    lemma_stable_sort(s.centroids);
    lemma_compressed(s);
    lemma_lowest_level_gives_first_mean(s.compressed());
    assert forall|i: int| 0 <= i < s.centroids.len() implies precedes(
        s.quantile(F64::zero()),
        (#[trigger] s.centroids[i]).mean,
    ) by {
        lemma_sorted_ends(s.centroids, sorted, i);
    }
    lemma_sorted_ends(s.centroids, sorted, 0);
    let j = choose|j: int| 0 <= j < s.centroids.len() && s.centroids[j] == sorted[0];
    assert(s.centroids[j].mean == s.quantile(F64::zero()));
}

/// The answer at level one is the greatest of the means that the digest
/// held before the query, where the compression has left the greatest mean
/// as it was and the total weight is below `2^52`.
pub proof fn lemma_highest_level_gives_greatest_mean(s: State)
    requires
        s.wf(),
        s.needs_merge(),
        s.count < 0x10_0000_0000_0000,
        s.compressed().centroids.len() >= 1,
        s.compressed().centroids.last().mean == stable_sort(s.centroids).last().mean,
    ensures
        forall|i: int|
            0 <= i < s.centroids.len() ==> precedes(
                (#[trigger] s.centroids[i]).mean,
                s.quantile(F64::one()),
            ),
        exists|j: int|
            0 <= j < s.centroids.len() && (#[trigger] s.centroids[j]).mean == s.quantile(
                F64::one(),
            ),
{
    let sorted = stable_sort(s.centroids);
    lemma_stable_sort(s.centroids);
    lemma_compressed(s);
    lemma_highest_level_gives_last_mean(s.compressed());
    assert forall|i: int| 0 <= i < s.centroids.len() implies precedes(
        (#[trigger] s.centroids[i]).mean,
        s.quantile(F64::one()),
    ) by {
        lemma_sorted_ends(s.centroids, sorted, i);
    }
    lemma_sorted_ends(s.centroids, sorted, 0);
    let j = choose|j: int| 0 <= j < s.centroids.len() && s.centroids[j] == sorted.last();
    assert(s.centroids[j].mean == s.quantile(F64::one()));
}

} // verus!
