use std::cmp::Ordering;

use tdigest_ch::centroid::{can_be_merged, cmp_f32, Cluster};
use tdigest_ch::compress::{allowance, copy_centroids, fits, merge_batches, merge_neighbours};
use tdigest_ch::ieee::Format;
use tdigest_ch::power::{bit_length, pow2_u128};
use tdigest_ch::query::{between, estimate_quantile, interpolate, midpoint};
use tdigest_ch::soft::{
    add_bits, divide, from_u64, multiply, negate, pack_rounded, round_int, round_ratio, unpack,
    Class,
};
use tdigest_ch::{Centroid, F32, F64};

fn single(x: f32) -> F32 {
    F32::from_bits(x.to_bits())
}

fn double(x: f64) -> F64 {
    F64::from_bits(x.to_bits())
}

fn centroid(mean: f32, count: usize) -> Centroid {
    Centroid { mean: single(mean), count }
}

fn pairs(centroids: &[Centroid]) -> Vec<(f32, usize)> {
    centroids.iter().map(|c| (f32::from_bits(c.mean.to_bits()), c.count)).collect()
}

#[test]
fn powers_of_two() {
    assert_eq!(pow2_u128(0), 1);
    assert_eq!(pow2_u128(1), 2);
    assert_eq!(pow2_u128(64), 1u128 << 64);
    assert_eq!(pow2_u128(127), 1u128 << 127);
}

#[test]
fn bit_lengths() {
    assert_eq!(bit_length(0), 0);
    assert_eq!(bit_length(1), 1);
    assert_eq!(bit_length(2), 2);
    assert_eq!(bit_length(3), 2);
    assert_eq!(bit_length(255), 8);
    assert_eq!(bit_length(256), 9);
    assert_eq!(bit_length(u64::MAX as u128), 64);
    assert_eq!(bit_length(1u128 << 64), 65);
    assert_eq!(bit_length(u128::MAX), 128);
    for k in 0..128u32 {
        assert_eq!(bit_length(1u128 << k), k + 1);
        assert_eq!(bit_length((1u128 << k) | 1), k + 1);
        if k > 0 {
            assert_eq!(bit_length((1u128 << k) - 1), k);
        }
    }
}

#[test]
fn format_constants() {
    assert_eq!(Format::Single.precision_bits(), 24);
    assert_eq!(Format::Double.precision_bits(), 53);
    assert_eq!(Format::Single.hidden_bit(), 1 << 23);
    assert_eq!(Format::Double.hidden_bit(), 1 << 52);
    assert_eq!(Format::Single.least_exp(), -149);
    assert_eq!(Format::Double.least_exp(), -1074);
    assert_eq!(Format::Single.infinity_bits(), f32::INFINITY.to_bits() as u64);
    assert_eq!(Format::Double.infinity_bits(), f64::INFINITY.to_bits());
    assert_eq!(Format::Single.sign_mask(), (-0.0f32).to_bits() as u64);
    assert_eq!(Format::Double.sign_mask(), (-0.0f64).to_bits());
    assert!(f32::from_bits(Format::Single.nan_bits() as u32).is_nan());
    assert!(f64::from_bits(Format::Double.nan_bits()).is_nan());
    assert_eq!(Format::Double.zero_bits(true), (-0.0f64).to_bits());
    assert_eq!(Format::Double.zero_bits(false), 0);
    assert_eq!(Format::Double.signed_infinity_bits(true), f64::NEG_INFINITY.to_bits());
    assert_eq!(Format::Single.signed_infinity_bits(false), f32::INFINITY.to_bits() as u64);
}

#[test]
fn unpacking() {
    let one = unpack(Format::Double, 1.0f64.to_bits());
    assert!(matches!(one.class, Class::Finite));
    assert_eq!((one.negative, one.sig, one.exp), (false, 1 << 52, -52));
    let least = unpack(Format::Double, 1);
    assert_eq!((least.negative, least.sig, least.exp), (false, 1, -1074));
    let minus = unpack(Format::Single, (-1.5f32).to_bits() as u64);
    assert_eq!((minus.negative, minus.sig, minus.exp), (true, 3 << 22, -23));
    assert!(matches!(unpack(Format::Double, f64::NAN.to_bits()).class, Class::Nan));
    let inf = unpack(Format::Single, f32::NEG_INFINITY.to_bits() as u64);
    assert!(matches!(inf.class, Class::Infinite));
    assert!(inf.negative);
}

#[test]
fn rounding_integers() {
    assert_eq!(round_int(Format::Double, false, 1, 0), 1.0f64.to_bits());
    assert_eq!(round_int(Format::Double, false, 3, -1), 1.5f64.to_bits());
    assert_eq!(round_int(Format::Double, true, 5, 2), (-20.0f64).to_bits());
    assert_eq!(round_int(Format::Single, true, 5, 2), (-20.0f32).to_bits() as u64);
    assert_eq!(round_int(Format::Double, false, 0, 7), 0);
    assert_eq!(round_int(Format::Double, true, 0, 7), (-0.0f64).to_bits());
    // Overflow goes to infinity.
    assert_eq!(round_int(Format::Double, false, 1, 1024), f64::INFINITY.to_bits());
    assert_eq!(round_int(Format::Double, false, 1, 1023), 2.0f64.powi(1023).to_bits());
    assert_eq!(round_int(Format::Single, true, 1, 128), f32::NEG_INFINITY.to_bits() as u64);
    // The largest double, and the first value that rounds up past it.
    assert_eq!(round_int(Format::Double, false, (1 << 53) - 1, 971), f64::MAX.to_bits());
    assert_eq!(round_int(Format::Double, false, (1 << 54) - 1, 970), f64::INFINITY.to_bits());
    // Underflow: half the least subnormal is a tie and goes to the even zero.
    assert_eq!(round_int(Format::Double, false, 1, -1074), 1);
    assert_eq!(round_int(Format::Double, false, 1, -1075), 0);
    assert_eq!(round_int(Format::Double, false, 3, -1076), 1);
    assert_eq!(round_int(Format::Double, false, 3, -1075), 2);
    assert_eq!(round_int(Format::Double, false, 1, -3000), 0);
    assert_eq!(round_int(Format::Double, false, u128::MAX, -1202), 1);
    assert_eq!(round_int(Format::Double, false, 1 << 127, -1202), 0);
    // Ties to even in the normal range.
    assert_eq!(round_int(Format::Double, false, (1 << 53) + 1, 0), 9007199254740992.0f64.to_bits());
    assert_eq!(round_int(Format::Double, false, (1 << 53) + 3, 0), 9007199254740996.0f64.to_bits());
    assert_eq!(from_u64(Format::Double, u64::MAX), (u64::MAX as f64).to_bits());
    assert_eq!(from_u64(Format::Single, 16_777_217), (16_777_217u64 as f32).to_bits() as u64);
}

#[test]
fn rounding_ratios() {
    assert_eq!(round_ratio(Format::Double, false, 1, 3, 0), (1.0f64 / 3.0).to_bits());
    assert_eq!(round_ratio(Format::Double, true, 2, 3, 0), (-2.0f64 / 3.0).to_bits());
    assert_eq!(round_ratio(Format::Double, false, 10, 4, 0), 2.5f64.to_bits());
    assert_eq!(round_ratio(Format::Single, false, 1, 3, 0), (1.0f32 / 3.0).to_bits() as u64);
    assert_eq!(round_ratio(Format::Double, false, 0, 3, 0), 0);
    assert_eq!(round_ratio(Format::Double, false, 1, 3, 2000), f64::INFINITY.to_bits());
    assert_eq!(round_ratio(Format::Double, false, 1, 3, -2000), 0);
    assert_eq!(round_ratio(Format::Double, false, 7, 1, -3), 0.875f64.to_bits());
}

#[test]
fn kernel_operations_on_patterns() {
    let d = Format::Double;
    let (a, b) = (1.25f64, -3.5f64);
    assert_eq!(add_bits(d, a.to_bits(), b.to_bits()), (a + b).to_bits());
    assert_eq!(negate(d, a.to_bits()), (-a).to_bits());
    assert_eq!(negate(d, (-0.0f64).to_bits()), 0);
    assert_eq!(multiply(d, unpack(d, a.to_bits()), unpack(d, b.to_bits())), (a * b).to_bits());
    assert_eq!(divide(d, unpack(d, a.to_bits()), unpack(d, b.to_bits())), (a / b).to_bits());
    assert_eq!(
        pack_rounded(Format::Single, unpack(d, 0.1f64.to_bits())),
        (0.1f64 as f32).to_bits() as u64
    );
    assert_eq!(
        pack_rounded(d, unpack(Format::Single, 0.1f32.to_bits() as u64)),
        (0.1f32 as f64).to_bits()
    );
}

#[test]
fn means_are_ordered_with_nan_last() {
    let nan = single(f32::NAN);
    let values = [f32::NEG_INFINITY, -1.0, -0.0, 0.0, 1e-40, 1.0, f32::INFINITY];
    for (i, a) in values.iter().enumerate() {
        for (j, b) in values.iter().enumerate() {
            let expected = a.partial_cmp(b).unwrap();
            assert_eq!(cmp_f32(single(*a), single(*b)), expected, "{} {}", i, j);
        }
        assert_eq!(cmp_f32(single(*a), nan), Ordering::Less);
        assert_eq!(cmp_f32(nan, single(*a)), Ordering::Greater);
    }
    assert_eq!(cmp_f32(nan, nan), Ordering::Equal);
    assert_eq!(cmp_f32(nan, F32::from_bits(0xffc0_0001)), Ordering::Equal);
    assert_eq!(cmp_f32(single(0.0), single(-0.0)), Ordering::Equal);
}

#[test]
fn what_may_be_merged() {
    let inf = f32::INFINITY;
    assert!(can_be_merged(double(1.0), single(2.0)));
    assert!(can_be_merged(double(f64::INFINITY), single(inf)));
    assert!(can_be_merged(double(f64::NEG_INFINITY), single(-inf)));
    assert!(!can_be_merged(double(f64::INFINITY), single(-inf)));
    assert!(!can_be_merged(double(1.0), single(inf)));
    assert!(!can_be_merged(double(f64::NEG_INFINITY), single(1.0)));
    assert!(can_be_merged(double(f64::NAN), single(1.0)));
    assert!(!can_be_merged(double(f64::NAN), single(inf)));
}

#[test]
fn a_cluster_takes_the_weighted_mean() {
    let start = Cluster::start(centroid(1.0, 1));
    assert_eq!(start.mean.to_bits(), 1.0f64.to_bits());
    assert_eq!(pairs(&[start.centroid]), vec![(1.0, 1)]);
    let merged = start.absorb(centroid(3.0, 1));
    assert_eq!(merged.mean.to_bits(), 2.0f64.to_bits());
    assert_eq!(pairs(&[merged.centroid]), vec![(2.0, 2)]);
    let merged = merged.absorb(centroid(8.0, 2));
    // 2 + 2 * (8 - 2) / 4
    assert_eq!(merged.mean.to_bits(), 5.0f64.to_bits());
    assert_eq!(pairs(&[merged.centroid]), vec![(5.0, 4)]);
    // The mean is kept in binary64 and stored in binary32.
    let third = Cluster::start(centroid(0.0, 2)).absorb(centroid(1.0, 1));
    assert_eq!(third.mean.to_bits(), (0.0f64 + 1.0 * (1.0 - 0.0) / 3.0).to_bits());
    assert_eq!(third.centroid.mean.to_bits(), ((1.0f64 / 3.0) as f32).to_bits());
    // Equal means are left alone, so that an infinity stays one.
    let infinite = Cluster::start(centroid(f32::INFINITY, 2)).absorb(centroid(f32::INFINITY, 3));
    assert_eq!(pairs(&[infinite.centroid]), vec![(f32::INFINITY, 5)]);
    let lost = Cluster::start(centroid(f32::NEG_INFINITY, 1)).absorb(centroid(1.0, 1));
    assert!(lost.mean.is_nan());
    assert!(lost.centroid.mean.is_nan());
    assert_eq!(lost.centroid.count, 2);
}

fn native_allowance(total: f64, scale: f64, before: usize, l: usize, r: usize) -> f64 {
    let ql = (before as f64 + l as f64 * 0.5) / total;
    let mut err = ql * (1. - ql);
    let qr = (before as f64 + l as f64 + r as f64 * 0.5) / total;
    let err2 = qr * (1. - qr);
    if err > err2 {
        err = err2;
    }
    scale * err
}

#[test]
fn the_allowance_follows_the_scale_function() {
    // N = 100, eps = 0.01: at the median a pair may weigh 4 * 0.01 * 100 * 1/4 = 1.
    let total = 100.0f64;
    let scale = total * 0.01f32 as f64 * 4.;
    let k = allowance(double(total), double(scale), 49, 1, 1);
    assert_eq!(k.to_bits(), native_allowance(total, scale, 49, 1, 1).to_bits());
    // ql = 0.495, qr = 0.505: both give 0.249975.
    let value = f64::from_bits(k.to_bits());
    assert!((value - 4.0 * 0.01 * 100.0 * 0.249975).abs() < 1e-7);
    let cases = [(0, 1, 1), (0, 5, 7), (10, 20, 30), (90, 5, 5), (99, 1, 0), (0, 100, 1)];
    for (before, l, r) in cases {
        let k = allowance(double(total), double(scale), before, l, r);
        assert_eq!(k.to_bits(), native_allowance(total, scale, before, l, r).to_bits());
    }
    // With nothing counted the quantiles are 0 / 0.
    assert!(allowance(double(0.0), double(0.0), 0, 0, 0).is_nan());
}

#[test]
fn a_pair_fits_within_the_allowance() {
    let total = double(3.0);
    let left = Cluster::start(centroid(1.0, 1));
    // 1.67 * eps against a joint weight of 2.
    assert!(!fits(total, double(3.0 * 1.0 * 4.0), 0, left, centroid(2.0, 1)));
    assert!(fits(total, double(3.0 * 2.0 * 4.0), 0, left, centroid(2.0, 1)));
    // Within the allowance, but an infinity and a number do not merge.
    assert!(!fits(total, double(3.0 * 2.0 * 4.0), 0, left, centroid(f32::INFINITY, 1)));
}

#[test]
fn the_scale_pass_on_a_sorted_sequence() {
    let sorted = vec![centroid(1.0, 1), centroid(2.0, 1), centroid(3.0, 1)];
    let (out, weight) = merge_neighbours(&sorted, 3, single(1.0));
    assert_eq!(pairs(&out), vec![(1.0, 1), (2.0, 1), (3.0, 1)]);
    assert_eq!(weight, 3);
    let (out, weight) = merge_neighbours(&sorted, 3, single(2.0));
    assert_eq!(pairs(&out), vec![(2.0, 3)]);
    assert_eq!(weight, 3);
    let (out, weight) = merge_neighbours(&Vec::new(), 0, single(0.01));
    assert!(out.is_empty());
    assert_eq!(weight, 0);
    let (out, weight) = merge_neighbours(&vec![centroid(7.0, 9)], 9, single(0.01));
    assert_eq!(pairs(&out), vec![(7.0, 9)]);
    assert_eq!(weight, 9);
    // A generous accuracy folds the middle and leaves the tails apart.
    let many: Vec<Centroid> = (0..100).map(|i| centroid(i as f32, 1)).collect();
    let (out, weight) = merge_neighbours(&many, 100, single(0.5));
    assert_eq!(weight, 100);
    assert_eq!(out.iter().map(|c| c.count).sum::<usize>(), 100);
    assert!(out.len() < 100);
    assert_eq!(pairs(&out)[0], (0.0, 1));
    assert_eq!(pairs(&out)[out.len() - 1], (99.0, 1));
    let middle = out.iter().map(|c| c.count).max().unwrap();
    assert!(middle > 1);
}

#[test]
fn the_batch_pass_on_a_sequence() {
    let src: Vec<Centroid> = (1..=10).map(|i| centroid(i as f32, 1)).collect();
    let (out, weight) = merge_batches(&src, 10);
    assert_eq!(pairs(&out), pairs(&src));
    assert_eq!(weight, 10);
    let (out, weight) = merge_batches(&src, 100);
    assert_eq!(pairs(&out), pairs(&src));
    assert_eq!(weight, 10);
    // ceil(10 / 4) = 3 to a batch.
    let (out, weight) = merge_batches(&src, 4);
    assert_eq!(pairs(&out), vec![(2.0, 3), (5.0, 3), (8.0, 3), (10.0, 1)]);
    assert_eq!(weight, 10);
    // ceil(10 / 9) = 2 to a batch: five centroids, well under nine.
    let (out, _) = merge_batches(&src, 9);
    assert_eq!(pairs(&out), vec![(1.5, 2), (3.5, 2), (5.5, 2), (7.5, 2), (9.5, 2)]);
    let (out, weight) = merge_batches(&src, 1);
    assert_eq!(pairs(&out), vec![(5.5, 10)]);
    assert_eq!(weight, 10);
    // A batch that becomes a NaN is left out, and its weight with it.
    let mixed = vec![
        centroid(f32::NEG_INFINITY, 2),
        centroid(0.0, 3),
        centroid(1.0, 4),
        centroid(f32::INFINITY, 5),
    ];
    let (out, weight) = merge_batches(&mixed, 2);
    assert_eq!(pairs(&out), vec![(f32::INFINITY, 9)]);
    assert_eq!(weight, 9);
    let (out, weight) = merge_batches(&mixed[..2].to_vec(), 1);
    assert!(out.is_empty());
    assert_eq!(weight, 0);
    assert_eq!(pairs(&copy_centroids(&mixed)), pairs(&mixed));
}

#[test]
fn interpolation_is_linear() {
    let y = interpolate(single(2.0), single(1.0), single(0.0), single(3.0), single(10.0));
    assert_eq!(f32::from_bits(y.to_bits()), 5.0);
    let y = interpolate(single(1.5), single(1.0), single(0.0), single(3.0), single(10.0));
    assert_eq!(f32::from_bits(y.to_bits()), 2.5);
    let (x, x1, y1, x2, y2) = (0.3f32, 0.1f32, 7.0f32, 0.9f32, -2.0f32);
    let k = (x - x1) / (x2 - x1);
    let expected = (1. - k) * y1 + k * y2;
    let y = interpolate(single(x), single(x1), single(y1), single(x2), single(y2));
    assert_eq!(y.to_bits(), expected.to_bits());
    // Between opposite infinities there is no value.
    let y = interpolate(
        single(2.0),
        single(1.0),
        single(f32::NEG_INFINITY),
        single(3.0),
        single(f32::INFINITY),
    );
    assert!(y.is_nan());
}

#[test]
fn the_middle_of_a_centroid() {
    assert_eq!(midpoint(0, 1).to_bits(), 0.5f64.to_bits());
    assert_eq!(midpoint(10, 4).to_bits(), 12.0f64.to_bits());
    assert_eq!(midpoint(7, 0).to_bits(), 7.0f64.to_bits());
    let big = (1usize << 60) + 1;
    assert_eq!(midpoint(big, 3).to_bits(), (big as f64 + 3 as f64 * 0.5).to_bits());
}

#[test]
fn between_two_centroids() {
    let (l, r) = (centroid(0.0, 2), centroid(10.0, 2));
    let at = |x: f64| f32::from_bits(between(double(x), double(1.0), l, double(3.0), r).to_bits());
    assert_eq!(at(1.0), 0.0);
    assert_eq!(at(0.0), 0.0);
    assert_eq!(at(3.0), 10.0);
    assert_eq!(at(2.0), 5.0);
    assert_eq!(at(2.5), 7.5);
    // Samples hold for half a unit to either side.
    let (l, r) = (centroid(0.0, 1), centroid(10.0, 1));
    let at = |x: f64| f32::from_bits(between(double(x), double(0.5), l, double(1.5), r).to_bits());
    assert_eq!(at(1.0), 0.0);
    assert_eq!(at(0.9), 0.0);
    assert_eq!(at(1.1), 10.0);
}

#[test]
fn estimating_on_a_sequence() {
    let none: Vec<Centroid> = Vec::new();
    assert!(estimate_quantile(&none, 0, double(0.5)).is_nan());
    let one = vec![centroid(3.0, 8)];
    assert_eq!(estimate_quantile(&one, 8, double(0.9)).to_bits(), 3.0f32.to_bits());
    let two = vec![centroid(0.0, 2), centroid(10.0, 2)];
    let at = |level: f64| f32::from_bits(estimate_quantile(&two, 4, double(level)).to_bits());
    assert_eq!(at(0.0), 0.0);
    assert_eq!(at(0.5), 5.0);
    assert_eq!(at(0.625), 7.5);
    assert_eq!(at(1.0), 10.0);
    assert_eq!(at(3.0), 10.0);
    assert_eq!(at(-3.0), 0.0);
}
