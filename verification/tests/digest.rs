use tdigest_ch::{Centroid, Config, TDigest, TDigestBuilder, F32, F64};

fn single(x: f32) -> F32 {
    F32::from_bits(x.to_bits())
}

fn double(x: f64) -> F64 {
    F64::from_bits(x.to_bits())
}

fn digest_of(values: &[f32]) -> TDigest {
    let values: Vec<F32> = values.iter().map(|x| single(*x)).collect();
    TDigest::from_values(&values)
}

fn built(epsilon: f32, max_centroids: usize, max_unmerged: usize) -> TDigest {
    let mut builder = TDigestBuilder::new();
    builder.epsilon(single(epsilon)).max_centroids(max_centroids).max_unmerged(max_unmerged);
    builder.build()
}

fn query(digest: &mut TDigest, level: f64) -> f32 {
    f32::from_bits(digest.quantile(double(level)).to_bits())
}

fn means(digest: &TDigest) -> Vec<f32> {
    digest.to_parts().1.iter().map(|c| f32::from_bits(c.mean.to_bits())).collect()
}

fn weights(digest: &TDigest) -> Vec<usize> {
    digest.to_parts().1.iter().map(|c| c.count).collect()
}

fn unmerged(digest: &TDigest) -> usize {
    digest.to_parts().3
}

#[test]
fn default_settings() {
    let (config, centroids, count, unmerged) = TDigest::new().to_parts();
    assert_eq!(config.epsilon.to_bits(), 0.01f32.to_bits());
    assert_eq!(config.max_centroids, 2048);
    assert_eq!(config.max_unmerged, 2048);
    assert!(centroids.is_empty());
    assert_eq!(count, 0);
    assert_eq!(unmerged, 0);
    let config = Config::default();
    assert_eq!(config.epsilon.to_bits(), 0.01f32.to_bits());
    assert_eq!((config.max_centroids, config.max_unmerged), (2048, 2048));
    let (config, _, _, _) = TDigest::default().to_parts();
    assert_eq!((config.max_centroids, config.max_unmerged), (2048, 2048));
    let (config, _, _, _) = TDigest::builder().build().to_parts();
    assert_eq!(config.epsilon.to_bits(), 0.01f32.to_bits());
    let (config, _, _, _) = TDigestBuilder::default().build().to_parts();
    assert_eq!((config.max_centroids, config.max_unmerged), (2048, 2048));
}

#[test]
fn builder_sets_each_field() {
    let (config, _, _, _) = built(0.5, 7, 9).to_parts();
    assert_eq!(config.epsilon.to_bits(), 0.5f32.to_bits());
    assert_eq!(config.max_centroids, 7);
    assert_eq!(config.max_unmerged, 9);
    let mut builder = TDigestBuilder::new();
    builder.max_unmerged(3);
    let (config, _, _, _) = builder.build().to_parts();
    assert_eq!(config.epsilon.to_bits(), 0.01f32.to_bits());
    assert_eq!((config.max_centroids, config.max_unmerged), (2048, 3));
}

#[test]
fn empty_digest_answers_nan() {
    let mut digest = TDigest::new();
    assert!(digest.is_empty());
    assert_eq!(digest.len(), 0);
    assert!(query(&mut digest, 0.5).is_nan());
    assert!(query(&mut digest, 0.0).is_nan());
}

#[test]
fn single_centroid_answers_its_mean_at_every_level() {
    let mut digest = digest_of(&[42.5]);
    for level in [-1.0, 0.0, 0.3, 0.5, 1.0, 2.0, f64::NAN] {
        assert_eq!(query(&mut digest, level), 42.5);
    }
}

#[test]
fn nan_and_zero_weight_are_no_sample() {
    let mut digest = TDigest::new();
    digest.insert(single(f32::NAN));
    digest.insert_many(single(1.0), 0);
    digest.insert_many(single(f32::NAN), 5);
    assert!(digest.is_empty());
    assert!(means(&digest).is_empty());
    assert_eq!(unmerged(&digest), 0);
    digest.insert_many(single(2.0), 3);
    assert_eq!(digest.len(), 3);
    assert_eq!(means(&digest), vec![2.0]);
    assert_eq!(weights(&digest), vec![3]);
    assert_eq!(unmerged(&digest), 1);
}

#[test]
fn insert_appends_until_the_buffer_overflows() {
    let mut digest = built(0.0, 100, 3);
    for (i, value) in [5.0f32, 1.0, 4.0].iter().enumerate() {
        digest.insert(single(*value));
        assert_eq!(unmerged(&digest), i + 1);
    }
    // Appended as they came, not yet sorted.
    assert_eq!(means(&digest), vec![5.0, 1.0, 4.0]);
    digest.insert(single(2.0));
    // The fourth overflows a buffer of three: the digest compresses itself.
    assert_eq!(unmerged(&digest), 0);
    assert_eq!(means(&digest), vec![1.0, 2.0, 4.0, 5.0]);
    assert_eq!(weights(&digest), vec![1, 1, 1, 1]);
    assert_eq!(digest.len(), 4);
}

#[test]
fn clear_resets_to_empty_and_keeps_the_settings() {
    let mut digest = built(0.5, 7, 9);
    digest.insert(single(1.0));
    digest.insert(single(2.0));
    digest.clear();
    assert!(digest.is_empty());
    let (config, centroids, count, unmerged) = digest.to_parts();
    assert!(centroids.is_empty());
    assert_eq!((count, unmerged), (0, 0));
    assert_eq!((config.max_centroids, config.max_unmerged), (7, 9));
    assert!(query(&mut digest, 0.5).is_nan());
}

#[test]
fn a_query_sorts_what_was_inserted() {
    let mut digest = digest_of(&[3.0, 1.0, 2.0]);
    assert_eq!(query(&mut digest, 0.0), 1.0);
    assert_eq!(query(&mut digest, 1.0), 3.0);
    assert_eq!(means(&digest), vec![1.0, 2.0, 3.0]);
}

#[test]
fn lowest_and_highest_level_give_minimum_and_maximum() {
    let values: Vec<f32> = (0..5000u32).map(|i| ((i * 7919) % 5003) as f32 - 2500.0).collect();
    let min = values.iter().cloned().fold(f32::INFINITY, f32::min);
    let max = values.iter().cloned().fold(f32::NEG_INFINITY, f32::max);
    let mut digest = digest_of(&values);
    assert_eq!(query(&mut digest, 0.0), min);
    assert_eq!(query(&mut digest, 1.0), max);
}

#[test]
fn one_to_five() {
    let mut digest = digest_of(&[1.0, 2.0, 3.0, 4.0, 5.0]);
    assert_eq!(query(&mut digest, 0.0), 1.0);
    assert_eq!(query(&mut digest, 0.5), 3.0);
    assert_eq!(query(&mut digest, 1.0), 5.0);
}

#[test]
fn one_to_ten() {
    let values: Vec<f32> = (1..=10).map(|i| i as f32).collect();
    let mut digest = digest_of(&values);
    let levels = [0.0, 0.1, 0.5, 0.9, 1.0];
    let expected = [1.0, 1.0, 5.0, 9.0, 10.0];
    for (level, want) in levels.iter().zip(expected.iter()) {
        assert_eq!(query(&mut digest, *level), *want);
    }
}

#[test]
fn mixed_infinities() {
    let mut digest = TDigest::new();
    digest.insert(single(f32::INFINITY));
    for _ in 0..499_999 {
        digest.insert(single(f32::NEG_INFINITY));
    }
    for _ in 0..500_000 {
        digest.insert(single(f32::INFINITY));
    }
    assert_eq!(digest.len(), 1_000_000);
    assert_eq!(query(&mut digest, 0.01), f32::NEG_INFINITY);
    assert_eq!(query(&mut digest, 0.99), f32::INFINITY);
    assert!(query(&mut digest, 0.5).is_nan());
}

#[test]
fn a_singleton_holds_for_half_a_unit_to_either_side() {
    // The middles are at 0.5 and 1.5; position 1 is at the inward boundary of the left sample.
    let mut digest = digest_of(&[1.0, 2.0]);
    assert_eq!(query(&mut digest, 0.5), 1.0);
    assert_eq!(query(&mut digest, 0.25), 1.0);
    assert_eq!(query(&mut digest, 0.75), 2.0);
}

#[test]
fn between_two_blended_centroids_the_answer_is_interpolated() {
    // Weights of two: middles at 1 and 3, no boundary moves.
    let mut digest = TDigest::new();
    digest.insert_many(single(0.0), 2);
    digest.insert_many(single(10.0), 2);
    assert_eq!(query(&mut digest, 0.5), 5.0);
    assert_eq!(query(&mut digest, 0.375), 2.5);
    assert_eq!(query(&mut digest, 0.25), 0.0);
    assert_eq!(query(&mut digest, 0.75), 10.0);
    assert_eq!(query(&mut digest, 0.1), 0.0);
    assert_eq!(query(&mut digest, 0.9), 10.0);
}

#[test]
fn the_scale_function_decides_what_merges() {
    // N = 3: the pair (1, 2) may weigh 4 * eps * 3 * (1/6 * 5/6) = 1.67 * eps.
    let mut digest = built(1.0, 100, 100);
    digest.extend(&[single(1.0), single(2.0), single(3.0)]);
    let _ = query(&mut digest, 0.5);
    assert_eq!(means(&digest), vec![1.0, 2.0, 3.0]);
    assert_eq!(weights(&digest), vec![1, 1, 1]);

    let mut digest = built(2.0, 100, 100);
    digest.extend(&[single(1.0), single(2.0), single(3.0)]);
    let _ = query(&mut digest, 0.5);
    assert_eq!(means(&digest), vec![2.0]);
    assert_eq!(weights(&digest), vec![3]);
    assert_eq!(digest.len(), 3);
}

#[test]
fn the_batch_pass_forces_the_hard_limit() {
    // With an accuracy of zero the scale pass merges nothing.
    let mut digest = built(0.0, 2, 100);
    digest.extend(&[single(1.0), single(2.0), single(3.0), single(4.0), single(5.0)]);
    let _ = query(&mut digest, 0.5);
    // Batches of ceil(5 / 2) = 3.
    assert_eq!(means(&digest), vec![2.0, 4.5]);
    assert_eq!(weights(&digest), vec![3, 2]);
    assert_eq!(digest.len(), 5);

    let mut digest = built(0.0, 3, 100);
    let values: Vec<F32> = (1..=10).map(|i| single(i as f32)).collect();
    digest.extend(&values);
    let _ = query(&mut digest, 0.5);
    // Batches of ceil(10 / 3) = 4.
    assert_eq!(means(&digest), vec![2.5, 6.5, 9.5]);
    assert_eq!(weights(&digest), vec![4, 4, 2]);
}

#[test]
fn a_batch_that_becomes_nan_is_dropped_with_its_weight() {
    let mut digest = built(0.01, 1, 100);
    digest.insert(single(f32::NEG_INFINITY));
    digest.insert(single(f32::INFINITY));
    assert_eq!(digest.len(), 2);
    assert!(query(&mut digest, 0.5).is_nan());
    assert_eq!(digest.len(), 0);
    assert!(means(&digest).is_empty());

    let mut digest = built(0.0, 2, 100);
    digest.extend(&[
        single(f32::NEG_INFINITY),
        single(f32::INFINITY),
        single(1.0),
        single(f32::INFINITY),
    ]);
    let _ = query(&mut digest, 0.5);
    // Batches of two: (-inf, 1) is a NaN and goes, (inf, inf) stays.
    assert_eq!(means(&digest), vec![f32::INFINITY]);
    assert_eq!(weights(&digest), vec![2]);
    assert_eq!(digest.len(), 2);
}

#[test]
fn equal_infinities_merge_without_loss() {
    let mut digest = built(100.0, 100, 100);
    digest.insert_many(single(f32::INFINITY), 3);
    digest.insert_many(single(f32::INFINITY), 4);
    let _ = query(&mut digest, 0.5);
    assert_eq!(means(&digest), vec![f32::INFINITY]);
    assert_eq!(weights(&digest), vec![7]);
}

#[test]
fn an_infinity_and_a_number_do_not_merge_in_the_scale_pass() {
    let mut digest = built(100.0, 100, 100);
    digest.insert_many(single(1.0), 3);
    digest.insert_many(single(f32::INFINITY), 4);
    digest.insert_many(single(f32::NEG_INFINITY), 2);
    let _ = query(&mut digest, 0.5);
    assert_eq!(means(&digest), vec![f32::NEG_INFINITY, 1.0, f32::INFINITY]);
    assert_eq!(weights(&digest), vec![2, 3, 4]);
}

#[test]
fn compression_keeps_the_invariants() {
    let mut digest = built(0.01, 50, 64);
    for i in 0..20_000u32 {
        let value = ((i * 7919) % 10_007) as f32 * 0.5 - 1000.0;
        digest.insert_many(single(value), 1 + (i % 3) as usize);
        if i % 997 == 0 {
            let _ = query(&mut digest, 0.5);
            let (config, centroids, count, unmerged) = digest.to_parts();
            assert_eq!(unmerged, 0);
            assert!(centroids.len() <= config.max_centroids);
            assert_eq!(centroids.iter().map(|c| c.count).sum::<usize>(), count);
            assert_eq!(count, digest.len());
            assert!(centroids.iter().all(|c| c.count >= 1));
            let means = means(&digest);
            assert!(means.windows(2).all(|w| w[0] <= w[1]));
        }
    }
    let total: usize = (0..20_000u32).map(|i| 1 + (i % 3) as usize).sum();
    assert_eq!(digest.len(), total);
}

#[test]
fn extreme_weights_can_move_a_mean_past_its_neighbour() {
    // 1 + r rounds up in binary64, and a weight of 2^60 makes the merged
    // mean take the whole of that step.
    let r = f32::from_bits(((127 - 53) << 23) | 1);
    let mut digest = built(1e30, 2048, 2048);
    digest.insert_many(single(-1.0), 1);
    digest.insert_many(single(r), 1 << 60);
    digest.insert_many(single(r), 1);
    let _ = query(&mut digest, 0.5);
    assert_eq!(weights(&digest), vec![(1 << 60) + 1, 1]);
    let means = means(&digest);
    assert_eq!(means[1], r);
    assert!(means[0] > means[1]);
    assert_eq!(digest.len(), (1 << 60) + 2);
}

#[test]
fn repeated_queries_are_bit_identical() {
    let mut digest = TDigest::new();
    for i in 0..30_000u32 {
        digest.insert(single(((i * 104_729) % 65_521) as f32 / 7.0));
    }
    for level in [0.0, 0.001, 0.02, 0.33, 0.5, 0.77, 0.999, 1.0] {
        let first = query(&mut digest, level);
        let parts = digest.to_parts();
        let second = query(&mut digest, level);
        assert_eq!(first.to_bits(), second.to_bits());
        let again = digest.to_parts();
        assert_eq!(parts.1.len(), again.1.len());
        assert_eq!((parts.2, parts.3), (again.2, again.3));
        for (l, r) in parts.1.iter().zip(again.1.iter()) {
            assert_eq!((l.mean.to_bits(), l.count), (r.mean.to_bits(), r.count));
        }
    }
}

#[test]
fn quantiles_handle_answers_as_quantile_does() {
    let mut digest = digest_of(&[1.0, 2.0, 3.0, 4.0, 5.0]);
    {
        let quantiles = digest.quantiles();
        assert_eq!(f32::from_bits(quantiles.get(double(0.0)).to_bits()), 1.0);
        assert_eq!(f32::from_bits(quantiles.get(double(0.5)).to_bits()), 3.0);
        assert_eq!(f32::from_bits(quantiles.get(double(1.0)).to_bits()), 5.0);
        assert_eq!(f32::from_bits(quantiles.get(double(0.5)).to_bits()), 3.0);
    }
    assert_eq!(unmerged(&digest), 0);
    assert_eq!(query(&mut digest, 0.5), 3.0);
}

#[test]
fn merge_adds_the_weights() {
    let a = digest_of(&[1.0, 2.0, 3.0]);
    let b = digest_of(&[3.0, 4.0, 5.0]);
    let mut c = a.merge(&b);
    assert_eq!(c.len(), a.len() + b.len());
    assert_eq!(c.len(), 6);
    assert_eq!(query(&mut c, 0.5), 3.0);
    // The operands stay as they were.
    assert_eq!(a.len(), 3);
    assert_eq!(means(&a), vec![1.0, 2.0, 3.0]);
    assert_eq!(means(&b), vec![3.0, 4.0, 5.0]);
}

#[test]
fn merge_from_replays_the_centroids() {
    let mut a = digest_of(&[1.0, 2.0, 3.0]);
    let mut b = TDigest::new();
    b.insert_many(single(10.0), 4);
    b.insert_many(single(20.0), 6);
    a.merge_from(&b);
    assert_eq!(a.len(), 13);
    assert_eq!(means(&a), vec![1.0, 2.0, 3.0, 10.0, 20.0]);
    assert_eq!(weights(&a), vec![1, 1, 1, 4, 6]);
    assert_eq!(unmerged(&a), 5);
    assert_eq!(b.len(), 10);
}

#[test]
fn merge_approximates_the_digest_of_all_points() {
    let left: Vec<f32> = (0..20_000u32).map(|i| ((i * 7919) % 10_007) as f32).collect();
    let right: Vec<f32> =
        (0..20_000u32).map(|i| ((i * 104_729) % 10_007) as f32 + 5000.0).collect();
    let mut merged = digest_of(&left).merge(&digest_of(&right));
    let mut all: Vec<f32> = left.iter().chain(right.iter()).cloned().collect();
    let mut whole = digest_of(&all);
    assert_eq!(merged.len(), whole.len());
    all.sort_by(|a, b| a.partial_cmp(b).unwrap());
    for level in [0.01, 0.1, 0.25, 0.5, 0.75, 0.9, 0.99] {
        let exact = all[((all.len() - 1) as f64 * level) as usize];
        let range = all[all.len() - 1] - all[0];
        assert!((query(&mut merged, level) - exact).abs() <= 0.01 * range, "level {}", level);
        assert!((query(&mut whole, level) - exact).abs() <= 0.01 * range, "level {}", level);
    }
}

#[test]
fn append_drains_the_other_digest() {
    let mut a = digest_of(&[-10.0, 1.0, 2.0, 2.0, 3.0]);
    let mut b = digest_of(&[-20.0, 5.0, 43.0]);
    a.append(&mut b);
    assert_eq!(a.len(), 8);
    assert!(b.is_empty());
    assert!(means(&b).is_empty());
    assert_eq!(unmerged(&b), 0);
    assert_eq!(query(&mut a, 0.0), -20.0);
    assert_eq!(query(&mut a, 1.0), 43.0);
}

#[test]
fn extend_is_a_run_of_inserts() {
    let values = [4.0f32, f32::NAN, 1.0, 3.0, 2.0];
    let mut one = TDigest::new();
    for value in values.iter() {
        one.insert(single(*value));
    }
    let mut other = TDigest::new();
    other.extend(&values.iter().map(|x| single(*x)).collect::<Vec<F32>>());
    assert_eq!(one.len(), 4);
    assert_eq!(other.len(), 4);
    assert_eq!(means(&one), means(&other));
    let third = digest_of(&values);
    assert_eq!(means(&one), means(&third));
    let copy = one.clone();
    assert_eq!(means(&one), means(&copy));
    assert_eq!(copy.len(), 4);
}

#[test]
fn stored_nan_means_sort_after_every_number() {
    let centroids = vec![
        Centroid { mean: single(f32::NAN), count: 1 },
        Centroid { mean: single(f32::INFINITY), count: 1 },
        Centroid { mean: single(-1.0), count: 1 },
        Centroid { mean: single(f32::NEG_INFINITY), count: 1 },
    ];
    let config = Config { epsilon: single(0.0), max_centroids: 10, max_unmerged: 10 };
    let mut digest = TDigest::from_parts(config, centroids, 4, 4).unwrap();
    let _ = query(&mut digest, 0.5);
    let means = means(&digest);
    assert_eq!(&means[..3], &[f32::NEG_INFINITY, -1.0, f32::INFINITY]);
    assert!(means[3].is_nan());
}

#[test]
fn a_level_beyond_the_ends_gives_the_ends() {
    let values: Vec<f32> = (0..500).map(|i| i as f32).collect();
    let mut digest = digest_of(&values);
    assert_eq!(query(&mut digest, -3.0), 0.0);
    assert_eq!(query(&mut digest, 7.0), 499.0);
    assert_eq!(query(&mut digest, f64::NAN), 499.0);
}

#[test]
fn the_hard_limit_can_merge_the_extremes() {
    let mut digest = built(0.01, 1, 100);
    digest.insert(single(1.0));
    digest.insert(single(2.0));
    assert_eq!(query(&mut digest, 0.0), 1.5);
    assert_eq!(query(&mut digest, 1.0), 1.5);
    assert_eq!(means(&digest), vec![1.5]);
    assert_eq!(weights(&digest), vec![2]);
}

#[test]
fn beyond_two_to_the_52_the_highest_level_can_miss_the_last_mean() {
    // The middle of the second centroid, 2^60 + 0.5, rounds to the position asked for.
    let mut digest = TDigest::new();
    digest.insert_many(single(0.0), 1 << 60);
    digest.insert(single(1.0));
    digest.insert(single(2.0));
    assert_eq!(query(&mut digest, 1.0), 1.0);
    assert_eq!(means(&digest), vec![0.0, 1.0, 2.0]);
    // Below 2^52 nothing rounds.
    let mut digest = TDigest::new();
    digest.insert_many(single(0.0), (1 << 52) - 3);
    digest.insert(single(1.0));
    digest.insert(single(2.0));
    assert_eq!(query(&mut digest, 1.0), 2.0);
    assert_eq!(query(&mut digest, 0.0), 0.0);
}

#[test]
fn a_union_can_drop_weight() {
    let mut a = built(0.01, 1, 1);
    a.insert(single(f32::NEG_INFINITY));
    let b = digest_of(&[f32::INFINITY]);
    // The second centroid overflows the buffer, and the one batch becomes a NaN.
    let c = a.merge(&b);
    assert_eq!(c.len(), 0);
    assert!(means(&c).is_empty());
    assert_eq!(a.len() + b.len(), 2);
}
