//! Exact expected values for the fixed-point mathematics and statistics.

use genoa_sim::math::{div_floor, isqrt, ln_fp};
use genoa_sim::stats::{pearson_fp, stddev_fp, STAT_BOUND};
use genoa_sim::config::Distribution;
use genoa_sim::rng::rng_from_seed;
use genoa_sim::FP;

#[test]
fn test_isqrt_exact() {
    assert_eq!(isqrt(0), 0);
    assert_eq!(isqrt(1), 1);
    assert_eq!(isqrt(3), 1);
    assert_eq!(isqrt(4), 2);
    assert_eq!(isqrt(999_999), 999);
    assert_eq!(isqrt(1_000_000), 1000);
    assert_eq!(isqrt(u64::MAX as u128 * u64::MAX as u128), u64::MAX);
}

#[test]
fn test_div_floor_rounds_toward_negative_infinity() {
    assert_eq!(div_floor(7, 2), 3);
    assert_eq!(div_floor(-7, 2), -4);
    assert_eq!(div_floor(-8, 2), -4);
    assert_eq!(div_floor(0, 5), 0);
}

#[test]
fn test_ln_fp_landmarks() {
    // ln(1) = 0 exactly; ln(2) and ln(1/2) come out as the ln(2) constant
    assert_eq!(ln_fp(FP), 0);
    assert_eq!(ln_fp(2 * FP), 693_147);
    assert_eq!(ln_fp(FP / 2), -693_147);
    // ln(4) is two doublings
    assert_eq!(ln_fp(4 * FP), 2 * 693_147);
    // ln(e): within a whisper of one
    let e_fp = 2_718_282;
    let ln_e = ln_fp(e_fp);
    assert!((ln_e - FP as i64).abs() < 50, "ln(e) = {ln_e}");
    // ln(1.5): 405465 up to series truncation
    let l = ln_fp(1_500_000);
    assert!((l - 405_465).abs() < 20, "ln(1.5) = {l}");
}

#[test]
fn test_stddev_known_sample() {
    // sample {-693147, 0}: Bessel-corrected deviation ln(2)/sqrt(2)
    let v = vec![-693_147i128, 0];
    assert_eq!(stddev_fp(&v, STAT_BOUND), 490_128);
    // a constant sample has zero deviation
    let c = vec![5i128, 5, 5, 5];
    assert_eq!(stddev_fp(&c, STAT_BOUND), 0);
}

#[test]
fn test_pearson_perfect_and_degenerate() {
    // proportional vectors correlate at (about) one
    let xs = vec![0i128, 3_000_000, 6_000_000];
    let ys = vec![0i128, 500_000, 1_000_000];
    let r = pearson_fp(&xs, &ys).expect("correlation defined");
    assert!(r >= 999_000, "r = {r}");
    // anticorrelated vectors at (about) minus one
    let ys_neg = vec![1_000_000i128, 500_000, 0];
    let rn = pearson_fp(&xs, &ys_neg).expect("correlation defined");
    assert!(rn <= -999_000, "r = {rn}");
    // zero variance on either side: undefined, reported as None
    let flat = vec![400_000i128, 400_000, 400_000];
    assert_eq!(pearson_fp(&xs, &flat), None);
    assert_eq!(pearson_fp(&flat, &ys), None);
}

#[test]
fn test_distribution_samples_respect_bounds() {
    let mut rng = rng_from_seed(99);
    let uni = Distribution::Uniform { start: -5 * FP as i64, end: 5 * FP as i64 };
    for _ in 0..200 {
        let v = uni.sample_fp(&mut rng);
        assert!(v >= -5 * FP as i64 && v < 5 * FP as i64);
    }
    let bern = Distribution::Bernoulli { p: FP / 2 };
    for _ in 0..50 {
        let v = bern.sample_fp(&mut rng);
        assert!(v == 0 || v == FP as i64);
    }
    let fixed = Distribution::static_value(2_500_000);
    assert_eq!(fixed.sample_fp(&mut rng), 2_500_000);
    assert_eq!(fixed.sample_usize(&mut rng), 3);
    assert_eq!(fixed.sample_isize(&mut rng), 3);
    assert!(fixed.sample_bool(&mut rng));
    let clamped = Distribution::Clamp {
        min: 0,
        max: FP as i64,
        inner: Box::new(Distribution::Normal { mean: 3 * FP as i64, sd: FP as i64 }),
    };
    for _ in 0..100 {
        let v = clamped.sample_fp(&mut rng);
        assert!(v >= 0 && v <= FP as i64);
    }
    let rounded = Distribution::Round {
        inner: Box::new(Distribution::Uniform { start: 0, end: 10 * FP as i64 }),
    };
    for _ in 0..100 {
        let v = rounded.sample_fp(&mut rng);
        assert_eq!(v % FP as i64, 0);
    }
    let zero = Distribution::Bernoulli { p: 0 };
    for _ in 0..20 {
        assert_eq!(zero.sample_fp(&mut rng), 0);
    }
}

#[test]
fn test_normal_distribution_spread() {
    let mut rng = rng_from_seed(4);
    let normal = Distribution::Normal { mean: 10 * FP as i64, sd: FP as i64 };
    for _ in 0..200 {
        let v = normal.sample_fp(&mut rng);
        assert!(v >= 4 * FP as i64 && v <= 16 * FP as i64);
    }
}
