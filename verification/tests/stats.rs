use pbench::stats::hdr::{HdrError, HdrRecorder};
use pbench::stats::exact::ExactPercentiles;
use pbench::stats::sample::{RawSample, SampleCollection};
use pbench::stats::wide::{add_wide, isqrt_scaled, mul_wide, scaled_square, wide_le};
use pbench::stats::{PercentileSet, PercentileStats};
use pbench::time::FineDuration;

fn sample(picos: u128, sample_size: u32) -> RawSample {
    RawSample { duration: FineDuration { picos }, sample_size }
}

#[test]
fn collection_add_and_sort() {
    let mut coll: SampleCollection = SampleCollection::new();
    coll.push(sample(300, 1));
    coll.push(sample(100, 1));
    coll.push(sample(200, 1));
    let sorted: Vec<u128> = coll.sorted_picos();
    assert_eq!(sorted, vec![100, 200, 300]);
}

#[test]
fn collection_total_duration() {
    let mut coll: SampleCollection = SampleCollection::new();
    coll.push(sample(100, 1));
    coll.push(sample(200, 1));
    let total: FineDuration = coll.total_duration();
    assert_eq!(total.picos, 300);
}

#[test]
fn collection_total_iterations() {
    let mut coll: SampleCollection = SampleCollection::new();
    coll.push(sample(100, 10));
    coll.push(sample(200, 20));
    let total: u64 = coll.total_iterations();
    assert_eq!(total, 30);
}

#[test]
fn collection_new_is_empty() {
    let coll: SampleCollection = SampleCollection::new();
    assert!(coll.is_empty());
    assert_eq!(coll.len(), 0);
}

#[test]
fn collection_with_capacity() {
    let mut coll: SampleCollection = SampleCollection::with_capacity(100);
    assert!(coll.is_empty());
    coll.push(sample(42, 1));
    assert_eq!(coll.len(), 1);
    assert!(!coll.is_empty());
}

#[test]
fn collection_raw_picos_preserves_order() {
    let mut coll: SampleCollection = SampleCollection::new();
    coll.push(sample(300, 1));
    coll.push(sample(100, 1));
    coll.push(sample(200, 1));
    let raw: Vec<u128> = coll.raw_picos();
    assert_eq!(raw, vec![300, 100, 200]);
}

#[test]
fn percentile_single_sample() {
    let samples: Vec<u128> = vec![100];

    assert_eq!(ExactPercentiles::compute_percentile(&samples, 0, 1), 100);
    assert_eq!(ExactPercentiles::compute_percentile(&samples, 1, 2), 100);
    assert_eq!(ExactPercentiles::compute_percentile(&samples, 99, 100), 100);
    assert_eq!(ExactPercentiles::compute_percentile(&samples, 1, 1), 100);
}

#[test]
fn percentile_two_samples() {
    let samples: Vec<u128> = vec![100, 200];

    assert_eq!(ExactPercentiles::compute_percentile(&samples, 0, 1), 100);
    assert_eq!(ExactPercentiles::compute_percentile(&samples, 1, 2), 150);
    assert_eq!(ExactPercentiles::compute_percentile(&samples, 1, 1), 200);
}

#[test]
fn percentile_ten_samples() {
    let samples: Vec<u128> = (0..10).collect();

    // rank = 0.5 * 9 = 4.5 → interp(4, 5, 0.5) = 4.5 → truncated to 4
    assert_eq!(ExactPercentiles::compute_percentile(&samples, 1, 2), 4);

    // rank = 0.9 * 9 = 8.1 → interp(8, 9, 0.1) = 8.1 → truncated to 8
    assert_eq!(ExactPercentiles::compute_percentile(&samples, 9, 10), 8);
}

#[test]
fn percentile_hundred_samples() {
    let samples: Vec<u128> = (0..100).collect();

    // rank = 0.99 * 99 = 98.01 → interp(98, 99, 0.01) ≈ 98
    let p99: u128 = ExactPercentiles::compute_percentile(&samples, 99, 100);

    assert!((98..=99).contains(&p99), "p99 was {p99}");
}

#[test]
fn compute_all_percentiles() {
    let samples: Vec<u128> = (0..1000).collect();
    let pset: PercentileSet = ExactPercentiles::compute_percentile_set(&samples);
    assert!(pset.p50.picos >= 495 && pset.p50.picos <= 505, "p50={}", pset.p50.picos);
    assert!(pset.p99.picos >= 985 && pset.p99.picos <= 995, "p99={}", pset.p99.picos);
    assert!(pset.p99_99.picos >= 998, "p99.99={}", pset.p99_99.picos);
}

#[test]
fn mean_basic() {
    assert_eq!(ExactPercentiles::compute_mean(&[10, 20, 30]), 20);
}

#[test]
fn mean_single() {
    assert_eq!(ExactPercentiles::compute_mean(&[42]), 42);
}

#[test]
fn std_dev_uniform() {
    let samples: Vec<u128> = (0..100).collect();
    let sd: u128 = ExactPercentiles::compute_std_dev(&samples);
    assert!((27..=30).contains(&sd), "std_dev={sd}");
}

#[test]
fn std_dev_identical_values() {
    let samples: Vec<u128> = vec![100; 50];
    assert_eq!(ExactPercentiles::compute_std_dev(&samples), 0);
}

#[test]
fn compute_stats_exact_mode() {
    let samples: Vec<u128> = (0..100).collect();
    let stats: PercentileStats = PercentileStats::compute(&samples, 1);
    assert_eq!(stats.sample_count, 100);
    assert_eq!(stats.iter_count, 100);
    assert_eq!(stats.min.picos, 0);
    assert_eq!(stats.max.picos, 99);
    assert!((48..=50).contains(&stats.mean.picos), "mean={}", stats.mean.picos);
    assert!((45..=55).contains(&stats.percentiles.p50.picos), "p50={}", stats.percentiles.p50.picos);
}

#[test]
fn compute_stats_exact_mode_with_sample_size() {
    let samples: Vec<u128> = (0..50).collect();
    let stats: PercentileStats = PercentileStats::compute(&samples, 10);
    assert_eq!(stats.sample_count, 50);
    assert_eq!(stats.iter_count, 500);
}

#[test]
fn compute_stats_exact_mode_unsorted_input() {
    let samples: Vec<u128> = (0..100).rev().collect();
    let stats: PercentileStats = PercentileStats::compute(&samples, 1);
    assert_eq!(stats.min.picos, 0);
    assert_eq!(stats.max.picos, 99);
}

#[test]
fn compute_stats_hdr_mode() {
    let samples: Vec<u128> = (0..100_000).collect();
    let stats: PercentileStats = PercentileStats::compute(&samples, 1);
    assert_eq!(stats.sample_count, 100_000);
    assert_eq!(stats.iter_count, 100_000);
    assert!(stats.mean.picos > 0);
    assert!(stats.percentiles.p50.picos > 0);
}

#[test]
fn compute_stats_hdr_boundary() {
    let exact_samples: Vec<u128> = (0..99_999).collect();
    let exact_stats: PercentileStats = PercentileStats::compute(&exact_samples, 1);
    let hdr_samples: Vec<u128> = (0..100_000).collect();
    let hdr_stats: PercentileStats = PercentileStats::compute(&hdr_samples, 1);
    assert_eq!(exact_stats.sample_count, 99_999);
    assert_eq!(hdr_stats.sample_count, 100_000);
    assert!(exact_stats.percentiles.p50.picos > 0);
    assert!(hdr_stats.percentiles.p50.picos > 0);
}

#[test]
fn sample_sufficiency_config_too_low() {
    let warnings: Vec<String> = PercentileStats::check_sample_sufficiency(100, 100);
    assert_eq!(warnings.len(), 2);
    assert!(warnings[0].contains("p99.9"));
    assert!(warnings[0].contains("increase sample_count"));
    assert!(warnings[1].contains("p99.99"));
    assert!(warnings[1].contains("increase sample_count"));
}

#[test]
fn sample_sufficiency_max_time_truncated() {
    let warnings: Vec<String> = PercentileStats::check_sample_sufficiency(100, 10_000);
    assert_eq!(warnings.len(), 2);
    assert!(warnings[0].contains("p99.9"));
    assert!(warnings[0].contains("max_time"));
    assert!(warnings[1].contains("p99.99"));
    assert!(warnings[1].contains("max_time"));
    assert!(warnings[1].contains("only 100"));
}

#[test]
fn sample_sufficiency_all_ok() {
    let warnings: Vec<String> = PercentileStats::check_sample_sufficiency(10_000, 10_000);
    assert!(warnings.is_empty());
}

#[test]
fn sample_sufficiency_very_low() {
    let warnings: Vec<String> = PercentileStats::check_sample_sufficiency(10, 10);
    assert_eq!(warnings.len(), 4);
}

#[test]
fn exact_percentiles_match_uniform_analytical() {
    let n: usize = 10_000;
    let samples: Vec<u128> = (0..n as u128).collect();
    let set: PercentileSet = ExactPercentiles::compute_percentile_set(&samples);
    let n_f: f64 = (n - 1) as f64;
    let cases: [(&str, u128, f64); 5] = [
        ("p50", set.p50.picos, 0.50),
        ("p95", set.p95.picos, 0.95),
        ("p99", set.p99.picos, 0.99),
        ("p99.9", set.p99_9.picos, 0.999),
        ("p99.99", set.p99_99.picos, 0.9999),
    ];
    for (label, actual, quantile) in cases {
        let expected: u128 = (n_f * quantile) as u128;
        assert!(
            actual.abs_diff(expected) <= 1,
            "{label}: expected={expected}, actual={actual} (quantile={quantile})"
        );
    }
    let mean: u128 = ExactPercentiles::compute_mean(&samples);
    let expected_mean: u128 = (n as u128 - 1) / 2;
    assert_eq!(mean, expected_mean, "mean: expected={expected_mean}, actual={mean}");
}

#[test]
fn compute_stats_exact_values() {
    let samples: Vec<u128> = vec![400, 100, 300, 200];
    let stats: PercentileStats = PercentileStats::compute(&samples, 2);
    assert_eq!(stats.sample_count, 4);
    assert_eq!(stats.iter_count, 8);
    assert_eq!(stats.min.picos, 100);
    assert_eq!(stats.max.picos, 400);
    assert_eq!(stats.mean.picos, 250);
    assert_eq!(stats.std_dev.picos, 111);
    assert_eq!(stats.percentiles.p50.picos, 250);
}

#[test]
fn hdr_min_max_len() {
    let mut recorder: HdrRecorder = HdrRecorder::new(3).unwrap();

    recorder.record(100);
    recorder.record(500);
    recorder.record(1000);

    assert_eq!(recorder.min(), 100);
    assert_eq!(recorder.max(), 1000);
    assert_eq!(recorder.len(), 3);
    assert!(!recorder.is_empty());
}

#[test]
fn hdr_empty() {
    let recorder: HdrRecorder = HdrRecorder::new(3).unwrap();

    assert!(recorder.is_empty());
    assert_eq!(recorder.len(), 0);
}

#[test]
fn hdr_clamps_u128_to_u64() {
    let mut recorder: HdrRecorder = HdrRecorder::new(3).unwrap();

    // Values above u64::MAX should be clamped, not panic
    recorder.record(u128::from(u64::MAX) + 1);

    assert_eq!(recorder.len(), 1);
}

#[test]
fn hdr_refuses_six_significant_figures() {
    assert_eq!(HdrRecorder::new(6).err(), Some(HdrError::Creation));
    assert!(HdrRecorder::new(5).is_ok());
}

#[test]
fn hdr_min_max_within_resolution() {
    let mut recorder: HdrRecorder = HdrRecorder::new(3).unwrap();
    recorder.record(123_456);
    recorder.record(987_654_321);
    let min: u128 = recorder.min();
    let max: u128 = recorder.max();
    assert!(min <= 123_456 && 123_456 - min <= 123_456 / 1_000, "min={min}");
    assert!(max >= 987_654_321 && max - 987_654_321 <= 987_654_321 / 1_000, "max={max}");
}

#[test]
fn histogram_threshold_decision() {
    assert!(!PercentileStats::uses_histogram(0));
    assert!(!PercentileStats::uses_histogram(99_999));
    assert!(PercentileStats::uses_histogram(100_000));
    assert!(PercentileStats::uses_histogram(1_000_000));
}

#[test]
fn std_dev_of_squares_beyond_u128() {
    let samples: Vec<u128> = vec![0, u128::MAX];
    assert_eq!(ExactPercentiles::compute_std_dev(&samples), 170141183460469231731687303715884105727);
    let spread: Vec<u128> = vec![1 << 100, 3, 1 << 127, 5];
    assert_eq!(ExactPercentiles::compute_std_dev(&spread), 73673293370387958343621845030188593101);
    let stats: PercentileStats = PercentileStats::compute(&spread, 1);
    assert_eq!(stats.std_dev.picos, 73673293370387958343621845030188593101);
}

#[test]
fn wide_product_and_root() {
    assert_eq!(mul_wide(u128::MAX, u128::MAX), (u128::MAX - 1, 1));
    assert_eq!(mul_wide(1 << 64, 1 << 64), (1, 0));
    assert_eq!(add_wide(0, u128::MAX, u128::MAX, 0, 1), (1, 0, 0));
    assert_eq!(scaled_square(1 << 64, 3), (0, 3, 0));
    assert!(wide_le(0, 3, 0, 1, 0, 0));
    assert!(!wide_le(1, 0, 0, 0, u128::MAX, u128::MAX));
    assert_eq!(isqrt_scaled(0, 0, 99, 1), 9);
    assert_eq!(isqrt_scaled(0, 0, 100, 4), 5);
    assert_eq!(isqrt_scaled(1, 0, 0, 1), u128::MAX);
}
