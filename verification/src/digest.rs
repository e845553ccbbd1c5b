//! The digest: a store of centroids that takes weighted samples in,
//! compresses itself when its buffer of fresh centroids overflows, and
//! answers quantile queries.

use crate::centroid::{
    all_positive, cmp_f32, lemma_total_weight_permutation, total_weight, Centroid,
};
use crate::compress::{
    batch_loss, batch_merged, copy_centroids, lemma_batch_merged_length,
    lemma_batch_merged_weight, lemma_scale_merged, merge_batches, merge_neighbours, scale_merged,
};
use crate::query::{estimate, estimate_quantile};
use crate::scalar::{F32, F64};
use crate::sorting::{is_stable_sort, lemma_stable_sort, lemma_stable_sort_is_unique, stable_sort};
use vstd::prelude::*;

verus! {

/// The settings of a digest, fixed when it is built.
#[derive(Clone, Copy, Debug)]
pub struct Config {
    /// The accuracy: the share of the total weight that a centroid at the
    /// median may hold is about this much.
    pub epsilon: F32,
    /// The number of centroids that a compressed digest holds at most.
    pub max_centroids: usize,
    /// The number of centroids that may be appended before the digest
    /// compresses itself.
    pub max_unmerged: usize,
}

impl Config {
    /// An accuracy of `0.01` and limits of 2048.
    pub open spec fn spec_default() -> Config {
        Config { epsilon: F32 { bits: 0x3c23_d70a }, max_centroids: 2048, max_unmerged: 2048 }
    }
}

impl Default for Config {
    fn default() -> (r: Self)
        ensures
            r == Config::spec_default(),
    {
        Config { epsilon: F32 { bits: 0x3c23_d70a }, max_centroids: 2048, max_unmerged: 2048 }
    }
}

/// What a digest holds, as mathematics.
pub struct State {
    pub config: Config,
    /// The centroids, in the order in which they are stored.
    pub centroids: Seq<Centroid>,
    /// The total weight.
    pub count: usize,
    /// How many of the centroids were appended since the last compression.
    pub unmerged: usize,
}

impl State {
    /// No centroid is empty, the count is the sum of the weights, the
    /// unmerged centroids are among the stored ones, and the hard limit
    /// leaves room for one centroid at least.
    pub open spec fn wf(self) -> bool {
        &&& self.config.max_centroids >= 1
        &&& all_positive(self.centroids)
        &&& total_weight(self.centroids) == self.count
        &&& self.unmerged <= self.centroids.len()
    }

    /// The digest of the given settings that holds nothing.
    pub open spec fn empty(config: Config) -> State {
        State { config, centroids: Seq::empty(), count: 0, unmerged: 0 }
    }

    /// The digest emptied, its settings kept.
    pub open spec fn cleared(self) -> State {
        State::empty(self.config)
    }

    /// Whether a compression has anything to merge: fresh centroids, or
    /// more centroids than the hard limit allows.
    pub open spec fn needs_merge(self) -> bool {
        self.unmerged > 0 || self.centroids.len() > self.config.max_centroids
    }

    /// The digest after the scale pass: its centroids are sorted by mean,
    /// stably, and neighbours are merged as far as the scale function allows.
    /// The buffer of unmerged centroids is empty afterwards, and the count is
    /// the sum of the weights that are left.
    pub open spec fn scale_pass(self) -> State {
        let merged = scale_merged(stable_sort(self.centroids), self.count, self.config.epsilon);
        State {
            config: self.config,
            centroids: merged,
            count: total_weight(merged) as usize,
            unmerged: 0,
        }
    }

    /// The digest after the batch pass, which forces it under the hard
    /// limit. A digest within the limit stays as it is.
    pub open spec fn batch_pass(self) -> State {
        if self.centroids.len() <= self.config.max_centroids {
            self
        } else {
            let merged = batch_merged(self.centroids, self.config.max_centroids);
            State {
                config: self.config,
                centroids: merged,
                count: total_weight(merged) as usize,
                unmerged: self.unmerged,
            }
        }
    }

    /// The digest compressed: the scale pass where there is anything to
    /// merge, then the batch pass.
    pub open spec fn compressed(self) -> State {
        if self.needs_merge() {
            self.scale_pass().batch_pass()
        } else {
            self.batch_pass()
        }
    }

    /// The weight that compression drops: that of the batches whose mean
    /// becomes a NaN in the batch pass.
    pub open spec fn compression_loss(self) -> nat {
        if self.needs_merge() {
            batch_loss(self.scale_pass().centroids, self.config.max_centroids)
        } else {
            batch_loss(self.centroids, self.config.max_centroids)
        }
    }

    /// The digest with `c` appended, not yet compressed.
    pub open spec fn pushed(self, c: Centroid) -> State {
        State {
            config: self.config,
            centroids: self.centroids.push(c),
            count: (self.count + c.count) as usize,
            unmerged: (self.unmerged + 1) as usize,
        }
    }

    /// The digest after it has taken `c` in: appended, and compressed where
    /// that overflows the buffer of unmerged centroids.
    pub open spec fn with_centroid(self, c: Centroid) -> State {
        let s = self.pushed(c);
        if s.unmerged > s.config.max_unmerged {
            s.compressed()
        } else {
            s
        }
    }

    /// The weight that is dropped when the digest takes `c` in: that which
    /// the compression drops, where there is one.
    pub open spec fn with_centroid_loss(self, c: Centroid) -> nat {
        let s = self.pushed(c);
        if s.unmerged > s.config.max_unmerged {
            s.compression_loss()
        } else {
            0
        }
    }

    /// The digest after `weight` samples of `value` were inserted. A NaN and
    /// a weight of zero are no sample.
    pub open spec fn inserted(self, value: F32, weight: usize) -> State {
        if weight == 0 || value.is_nan() {
            self
        } else {
            self.with_centroid(Centroid { mean: value, count: weight })
        }
    }

    /// The weight that an insertion adds: nothing for a NaN or a weight of
    /// zero.
    pub open spec fn sample_weight(value: F32, weight: usize) -> nat {
        if weight == 0 || value.is_nan() {
            0
        } else {
            weight as nat
        }
    }

    /// The weight that is dropped when `weight` samples of `value` are
    /// inserted.
    pub open spec fn inserted_loss(self, value: F32, weight: usize) -> nat {
        if weight == 0 || value.is_nan() {
            0
        } else {
            self.with_centroid_loss(Centroid { mean: value, count: weight })
        }
    }

    /// The digest after it has taken in each of `centroids` in turn.
    pub open spec fn absorbed(self, centroids: Seq<Centroid>) -> State
        decreases centroids.len(),
    {
        if centroids.len() == 0 {
            self
        } else {
            self.absorbed(centroids.drop_last()).with_centroid(centroids.last())
        }
    }

    /// The weight that is dropped while the digest takes in each of
    /// `centroids` in turn.
    pub open spec fn absorbed_loss(self, centroids: Seq<Centroid>) -> nat
        decreases centroids.len(),
    {
        if centroids.len() == 0 {
            0
        } else {
            self.absorbed_loss(centroids.drop_last()) + self.absorbed(
                centroids.drop_last(),
            ).with_centroid_loss(centroids.last())
        }
    }

    /// The digest after each of `values` was inserted once, in turn.
    pub open spec fn extended(self, values: Seq<F32>) -> State
        decreases values.len(),
    {
        if values.len() == 0 {
            self
        } else {
            self.extended(values.drop_last()).inserted(values.last(), 1)
        }
    }

    /// How many of `values` are samples: those that are no NaN.
    pub open spec fn samples(values: Seq<F32>) -> nat
        decreases values.len(),
    {
        if values.len() == 0 {
            0
        } else {
            State::samples(values.drop_last()) + State::sample_weight(values.last(), 1)
        }
    }

    /// The weight that is dropped while each of `values` is inserted once,
    /// in turn.
    pub open spec fn extended_loss(self, values: Seq<F32>) -> nat
        decreases values.len(),
    {
        if values.len() == 0 {
            0
        } else {
            self.extended_loss(values.drop_last()) + self.extended(
                values.drop_last(),
            ).inserted_loss(values.last(), 1)
        }
    }

    /// The parts of the digest: its settings, its centroids in the order in
    /// which they are stored, its total weight and the number of its
    /// unmerged centroids.
    pub open spec fn parts(self) -> (Config, Seq<Centroid>, usize, usize) {
        (self.config, self.centroids, self.count, self.unmerged)
    }

    /// The digest made of the given parts: none where they do not make a
    /// well-formed one.
    pub open spec fn of_parts(parts: (Config, Seq<Centroid>, usize, usize)) -> Option<State> {
        let s = State { config: parts.0, centroids: parts.1, count: parts.2, unmerged: parts.3 };
        if s.wf() {
            Some(s)
        } else {
            None
        }
    }

    /// The estimate of the quantile at `level` that the digest gives as it
    /// stands.
    pub open spec fn estimate(self, level: F64) -> F32 {
        estimate(self.centroids, self.count, level)
    }

    /// The estimate of the quantile at `level`, read after compression.
    pub open spec fn quantile(self, level: F64) -> F32 {
        self.compressed().estimate(level)
    }
}

/// Compression keeps a digest well formed, empties its buffer of unmerged
/// centroids and brings it within the hard limit. The count of what it
/// leaves is the sum of the weights, and is the count before less what the
/// batch pass has dropped.
pub proof fn lemma_compressed(s: State)
    requires
        s.wf(),
    ensures
        s.compressed().wf(),
        s.compressed().unmerged == 0,
        s.compressed().centroids.len() <= s.config.max_centroids,
        s.compressed().centroids.len() <= s.centroids.len(),
        s.compressed().count + s.compression_loss() == s.count,
        s.compressed().config == s.config,
        total_weight(s.compressed().centroids) == s.compressed().count,
        s.needs_merge() ==> s.scale_pass().wf() && s.scale_pass().count == s.count,
{
    if s.needs_merge() {
        let sorted = stable_sort(s.centroids);
        lemma_stable_sort(s.centroids);
        lemma_total_weight_permutation(s.centroids, sorted);
        lemma_scale_merged(sorted, s.count, s.config.epsilon);
        let t = s.scale_pass();
        lemma_batch_merged_length(t.centroids, t.config.max_centroids);
        lemma_batch_merged_weight(t.centroids, t.config.max_centroids);
    } else {
        lemma_batch_merged_length(s.centroids, s.config.max_centroids);
        lemma_batch_merged_weight(s.centroids, s.config.max_centroids);
    }
}

/// Sorts `centroids` by mean.
///
/// Calls `slice::sort_by` with `cmp_f32` on the means. The contract claims
/// what the method documents: it sorts the slice in place by the comparison
/// given, so the vector holds the same centroids and its means never step
/// down; and the sort is stable, so centroids of equal mean keep their
/// order. The method may panic where the comparison does not order its
/// arguments totally; `mean_order` does (`lemma_mean_order_total`).
#[verifier::external_body]
fn sort_by_mean(centroids: &mut Vec<Centroid>)
    ensures
        is_stable_sort(old(centroids)@, final(centroids)@),
{
    centroids.sort_by(|l, r| cmp_f32(l.mean, r.mean));
}

/// Builds a `TDigest` with settings other than the default ones.
#[derive(Debug)]
pub struct TDigestBuilder {
    config: Config,
}

impl TDigestBuilder {
    /// The settings chosen so far.
    pub closed spec fn config(&self) -> Config {
        self.config
    }

    /// A builder with the default settings.
    pub fn new() -> (r: Self)
        ensures
            r.config() == Config::spec_default(),
    {
        TDigestBuilder { config: Config::default() }
    }

    /// The empty digest with the settings chosen. It is well formed, and so
    /// fit for use, where the hard limit is not zero.
    pub fn build(self) -> (r: TDigest)
        ensures
            r@ == State::empty(self.config()),
            r.wf() == (self.config().max_centroids >= 1),
    {
        TDigest { config: self.config, centroids: Vec::new(), count: 0, unmerged: 0 }
    }

    /// Sets the accuracy.
    pub fn epsilon(&mut self, epsilon: F32) -> (r: &mut Self)
        ensures
            r.config() == (Config { epsilon, ..old(self).config() }),
            final(self).config() == final(r).config(),
    {
        self.config.epsilon = epsilon;
        self
    }

    /// Sets the number of centroids that a compressed digest holds at most.
    pub fn max_centroids(&mut self, max_centroids: usize) -> (r: &mut Self)
        ensures
            r.config() == (Config { max_centroids, ..old(self).config() }),
            final(self).config() == final(r).config(),
    {
        self.config.max_centroids = max_centroids;
        self
    }

    /// Sets the number of centroids that may be appended before the digest
    /// compresses itself.
    pub fn max_unmerged(&mut self, max_unmerged: usize) -> (r: &mut Self)
        ensures
            r.config() == (Config { max_unmerged, ..old(self).config() }),
            final(self).config() == final(r).config(),
    {
        self.config.max_unmerged = max_unmerged;
        self
    }
}

impl Default for TDigestBuilder {
    fn default() -> (r: Self)
        ensures
            r.config() == Config::spec_default(),
    {
        TDigestBuilder::new()
    }
}

/// A t-digest: a sketch of a distribution from which quantiles are
/// estimated.
#[derive(Debug)]
pub struct TDigest {
    config: Config,
    centroids: Vec<Centroid>,
    count: usize,
    unmerged: usize,
}

impl View for TDigest {
    type V = State;

    closed spec fn view(&self) -> State {
        State {
            config: self.config,
            centroids: self.centroids@,
            count: self.count,
            unmerged: self.unmerged,
        }
    }
}

impl TDigest {
    /// Whether the digest is fit for use: see `State::wf`.
    pub open spec fn wf(&self) -> bool {
        self@.wf()
    }

    /// An empty digest with the default settings.
    pub fn new() -> (r: Self)
        ensures
            r@ == State::empty(Config::spec_default()),
            r.wf(),
    {
        TDigest::builder().build()
    }

    /// A builder with the default settings.
    pub fn builder() -> (r: TDigestBuilder)
        ensures
            r.config() == Config::spec_default(),
    {
        TDigestBuilder::new()
    }

    /// The total weight of the samples held.
    pub fn len(&self) -> (n: usize)
        ensures
            n == self@.count,
    {
        self.count
    }

    /// Whether the digest holds no weight.
    pub fn is_empty(&self) -> (b: bool)
        ensures
            b == (self@.count == 0),
    {
        self.len() == 0
    }

    /// Empties the digest. Its settings stay.
    pub fn clear(&mut self)
        ensures
            final(self)@ == old(self)@.cleared(),
            old(self).wf() ==> final(self).wf(),
    {
        self.centroids.clear();
        self.count = 0;
        self.unmerged = 0;
    }

    /// Forces the digest under its hard limit: the batch pass.
    fn compress_brute(&mut self)
        requires
            old(self)@.config.max_centroids >= 1,
            total_weight(old(self)@.centroids) <= usize::MAX,
        ensures
            final(self)@ == old(self)@.batch_pass(),
    {
        if self.centroids.len() <= self.config.max_centroids {
            return;
        }
        let (merged, weight) = merge_batches(&self.centroids, self.config.max_centroids);
        self.centroids = merged;
        self.count = weight;
    }

    /// Compresses the digest: the scale pass where there is anything to
    /// merge, then the batch pass.
    fn compress(&mut self)
        requires
            old(self).wf(),
        ensures
            final(self)@ == old(self)@.compressed(),
            final(self).wf(),
            final(self)@.unmerged == 0,
            final(self)@.centroids.len() <= final(self)@.config.max_centroids,
            final(self)@.centroids.len() <= old(self)@.centroids.len(),
            final(self)@.count + old(self)@.compression_loss() == old(self)@.count,
            final(self)@.config == old(self)@.config,
    {
        let ghost before = self@;
        proof {
            lemma_compressed(before);
        }
        if self.unmerged > 0 || self.centroids.len() > self.config.max_centroids {
            sort_by_mean(&mut self.centroids);
            proof {
                lemma_stable_sort(before.centroids);
                lemma_stable_sort_is_unique(
                    before.centroids,
                    self.centroids@,
                    stable_sort(before.centroids),
                );
                lemma_total_weight_permutation(before.centroids, self.centroids@);
            }
            let (merged, weight) = merge_neighbours(
                &self.centroids,
                self.count,
                self.config.epsilon,
            );
            self.centroids = merged;
            self.count = weight;
            self.unmerged = 0;
        }
        self.compress_brute();
    }

    /// Takes the centroid `c` in: appends it, and compresses the digest
    /// where that overflows the buffer of unmerged centroids.
    fn insert_centroid(&mut self, c: &Centroid)
        requires
            old(self).wf(),
            c.count >= 1,
            old(self)@.count + c.count <= usize::MAX,
        ensures
            final(self)@ == old(self)@.with_centroid(*c),
            final(self).wf(),
            final(self)@.count + old(self)@.with_centroid_loss(*c) == old(self)@.count + c.count,
            final(self)@.config == old(self)@.config,
    {
        proof {
            assert(self@.centroids.push(*c).drop_last() =~= self@.centroids);
        }
        self.count = self.count + c.count;
        self.centroids.push(*c);
        let stored: usize = self.centroids.len();
        assert(self.unmerged < stored);
        self.unmerged = self.unmerged + 1;
        if self.unmerged > self.config.max_unmerged {
            self.compress();
        }
    }

    /// Inserts `count` samples of `value`. A NaN and a count of zero are no
    /// sample: the digest stays as it is.
    pub fn insert_many(&mut self, value: F32, count: usize)
        requires
            old(self).wf(),
            count != 0 && !value.is_nan() ==> old(self)@.count + count <= usize::MAX,
        ensures
            final(self)@ == old(self)@.inserted(value, count),
            final(self).wf(),
            final(self)@.count + old(self)@.inserted_loss(value, count) == old(self)@.count
                + State::sample_weight(value, count),
            final(self)@.config == old(self)@.config,
    {
        if count == 0 || value.is_nan() {
            return;
        }
        self.insert_centroid(&Centroid { mean: value, count });
    }

    /// Inserts one sample.
    pub fn insert(&mut self, value: F32)
        requires
            old(self).wf(),
            !value.is_nan() ==> old(self)@.count + 1 <= usize::MAX,
        ensures
            final(self)@ == old(self)@.inserted(value, 1),
            final(self).wf(),
            final(self)@.count + old(self)@.inserted_loss(value, 1) == old(self)@.count
                + State::sample_weight(value, 1),
            final(self)@.config == old(self)@.config,
    {
        self.insert_many(value, 1);
    }

    /// The estimate of the quantile at `level` that the digest gives as it
    /// stands.
    fn quantile_uncompressed(&self, level: F64) -> (y: F32)
        requires
            self.wf(),
        ensures
            y == self@.estimate(level),
    {
        estimate_quantile(&self.centroids, self.count, level)
    }

    /// Estimates the quantile at `level`. The digest is compressed first,
    /// so that the answer reflects all that was inserted; an empty digest
    /// answers with a NaN.
    pub fn quantile(&mut self, level: F64) -> (y: F32)
        requires
            old(self).wf(),
        ensures
            y == old(self)@.quantile(level),
            final(self)@ == old(self)@.compressed(),
            final(self).wf(),
            final(self)@.unmerged == 0,
            final(self)@.centroids.len() <= final(self)@.config.max_centroids,
            final(self)@.count + old(self)@.compression_loss() == old(self)@.count,
    {
        self.compress();
        self.quantile_uncompressed(level)
    }

    /// A handle that answers quantile queries on the compressed digest
    /// without changing it.
    pub fn quantiles(&mut self) -> (q: Quantiles<'_>)
        requires
            old(self).wf(),
        ensures
            q.digest()@ == old(self)@.compressed(),
            final(self)@ == old(self)@.compressed(),
            final(self).wf(),
    {
        self.compress();
        Quantiles { digest: self }
    }

    /// Inserts each of `values` once, in turn.
    pub fn extend(&mut self, values: &[F32])
        requires
            old(self).wf(),
            old(self)@.count + values@.len() <= usize::MAX,
        ensures
            final(self)@ == old(self)@.extended(values@),
            final(self).wf(),
            final(self)@.count + old(self)@.extended_loss(values@) == old(self)@.count
                + State::samples(values@),
            final(self)@.config == old(self)@.config,
    {
        let n: usize = values.len();
        let mut i: usize = 0;
        proof {
            assert(values@.take(0) =~= Seq::<F32>::empty());
        }
        while i < n
            invariant
                i <= n,
                n == values@.len(),
                self.wf(),
                old(self)@.count + n <= usize::MAX,
                self@ == old(self)@.extended(values@.take(i as int)),
                self@.count + old(self)@.extended_loss(values@.take(i as int)) == old(self)@.count
                    + State::samples(values@.take(i as int)),
                State::samples(values@.take(i as int)) <= i,
                self@.config == old(self)@.config,
            decreases n - i,
        {
            proof {
                assert(values@.take(i + 1).drop_last() =~= values@.take(i as int));
            }
            self.insert(values[i]);
            i = i + 1;
        }
        proof {
            assert(values@.take(n as int) =~= values@);
        }
    }

    /// The digest with the default settings that holds each of `values`
    /// once.
    pub fn from_values(values: &[F32]) -> (r: TDigest)
        ensures
            r@ == State::empty(Config::spec_default()).extended(values@),
            r.wf(),
            r@.count + State::empty(Config::spec_default()).extended_loss(values@)
                == State::samples(values@),
    {
        let mut digest = TDigest::new();
        let n: usize = values.len();
        assert(digest@.count + n <= usize::MAX);
        digest.extend(values);
        digest
    }

    /// Takes in every centroid of `other`, as if each were a weighted sample:
    /// the union of the two digests, in place. The weights add up, less what
    /// compressions on the way have dropped.
    pub fn merge_from(&mut self, other: &TDigest)
        requires
            old(self).wf(),
            other.wf(),
            old(self)@.count + other@.count <= usize::MAX,
        ensures
            final(self)@ == old(self)@.absorbed(other@.centroids),
            final(self).wf(),
            final(self)@.count + old(self)@.absorbed_loss(other@.centroids) == old(self)@.count
                + other@.count,
            final(self)@.config == old(self)@.config,
    {
        let n: usize = other.centroids.len();
        let mut i: usize = 0;
        proof {
            assert(other@.centroids.take(0) =~= Seq::<Centroid>::empty());
        }
        while i < n
            invariant
                i <= n,
                n == other@.centroids.len(),
                other.wf(),
                self.wf(),
                old(self)@.count + other@.count <= usize::MAX,
                self@ == old(self)@.absorbed(other@.centroids.take(i as int)),
                self@.count + old(self)@.absorbed_loss(other@.centroids.take(i as int)) == old(
                    self,
                )@.count + total_weight(other@.centroids.take(i as int)),
                self@.config == old(self)@.config,
            decreases n - i,
        {
            proof {
                crate::centroid::lemma_total_weight_prefix(other@.centroids, i as int);
                assert(other@.centroids.take(i + 1).drop_last() =~= other@.centroids.take(
                    i as int,
                ));
            }
            self.insert_centroid(&other.centroids[i]);
            i = i + 1;
        }
        proof {
            assert(other@.centroids.take(n as int) =~= other@.centroids);
        }
    }

    /// The union of the two digests: a copy of `self` that has taken in
    /// every centroid of `other`.
    pub fn merge(&self, other: &TDigest) -> (r: TDigest)
        requires
            self.wf(),
            other.wf(),
            self@.count + other@.count <= usize::MAX,
        ensures
            r@ == self@.absorbed(other@.centroids),
            r.wf(),
            r@.count + self@.absorbed_loss(other@.centroids) == self@.count + other@.count,
    {
        let mut result = self.clone();
        result.merge_from(other);
        result
    }

    /// Moves the contents of `other` into `self`: `self` takes in every
    /// centroid of `other`, and `other` is left empty.
    pub fn append(&mut self, other: &mut TDigest)
        requires
            old(self).wf(),
            old(other).wf(),
            old(self)@.count + old(other)@.count <= usize::MAX,
        ensures
            final(self)@ == old(self)@.absorbed(old(other)@.centroids),
            final(self).wf(),
            final(self)@.count + old(self)@.absorbed_loss(old(other)@.centroids) == old(
                self,
            )@.count + old(other)@.count,
            final(other)@ == old(other)@.cleared(),
            final(other).wf(),
    {
        self.merge_from(other);
        other.clear();
    }

    /// The parts of the digest: its settings, its centroids in the order in
    /// which they are stored, its total weight and the number of its
    /// unmerged centroids.
    pub fn to_parts(&self) -> (r: (Config, Vec<Centroid>, usize, usize))
        ensures
            (r.0, r.1@, r.2, r.3) == self@.parts(),
    {
        (self.config, copy_centroids(&self.centroids), self.count, self.unmerged)
    }

    /// The digest made of the given parts, or nothing where they do not make
    /// a well-formed one: where a centroid is empty, the count is not the
    /// sum of the weights, more centroids are said to be unmerged than there
    /// are, or the hard limit is zero.
    pub fn from_parts(
        config: Config,
        centroids: Vec<Centroid>,
        count: usize,
        unmerged: usize,
    ) -> (r: Option<TDigest>)
        ensures
            match r {
                Some(digest) => State::of_parts((config, centroids@, count, unmerged)) == Some(
                    digest@,
                ) && digest.wf(),
                None => State::of_parts((config, centroids@, count, unmerged)) is None,
            },
    {
        let n: usize = centroids.len();
        if config.max_centroids == 0 || unmerged > n {
            return None;
        }
        let mut sum: usize = 0;
        let mut i: usize = 0;
        proof {
            assert(centroids@.take(0) =~= Seq::<Centroid>::empty());
        }
        while i < n
            invariant
                i <= n,
                n == centroids@.len(),
                sum == total_weight(centroids@.take(i as int)),
                sum <= count,
                all_positive(centroids@.take(i as int)),
            decreases n - i,
        {
            let c = centroids[i];
            proof {
                crate::centroid::lemma_total_weight_prefix(centroids@, i as int);
            }
            if c.count == 0 || c.count > count - sum {
                return None;
            }
            sum = sum + c.count;
            i = i + 1;
        }
        proof {
            assert(centroids@.take(n as int) =~= centroids@);
        }
        if sum != count {
            return None;
        }
        Some(TDigest { config, centroids, count, unmerged })
    }
}

impl Clone for TDigest {
    fn clone(&self) -> (r: Self)
        ensures
            r@ == self@,
    {
        TDigest {
            config: self.config,
            centroids: copy_centroids(&self.centroids),
            count: self.count,
            unmerged: self.unmerged,
        }
    }
}

impl Default for TDigest {
    fn default() -> (r: Self)
        ensures
            r@ == State::empty(Config::spec_default()),
            r.wf(),
    {
        TDigest::new()
    }
}

/// Answers quantile queries on a compressed digest, which it borrows and
/// cannot change.
pub struct Quantiles<'a> {
    digest: &'a TDigest,
}

impl<'a> Quantiles<'a> {
    /// The digest that is queried.
    pub closed spec fn digest(&self) -> TDigest {
        *self.digest
    }

    #[verifier::type_invariant]
    spec fn well_formed(self) -> bool {
        self.digest.wf()
    }

    /// Estimates the quantile at `level`: a NaN where the digest is empty.
    pub fn get(&self, level: F64) -> (y: F32)
        ensures
            y == self.digest()@.estimate(level),
    {
        proof {
            use_type_invariant(self);
        }
        self.digest.quantile_uncompressed(level)
    }
}

} // verus!
