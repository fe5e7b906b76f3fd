use dns_bench::histogram::{mean_is_below, LatencyHistogram};

fn histogram_of(values: &[u64]) -> LatencyHistogram {
    let mut histogram = LatencyHistogram::new();
    for value in values {
        histogram.record(*value);
    }
    histogram
}

#[test]
fn an_empty_histogram_reports_zero() {
    let histogram = LatencyHistogram::new();
    assert!(histogram.is_empty());
    assert_eq!(histogram.len(), 0);
    assert_eq!(histogram.min(), 0);
    assert_eq!(histogram.max(), 0);
    assert_eq!(histogram.sum(), 0);
    assert_eq!(histogram.value_at_quantile(50, 100), 0);
    assert_eq!(histogram.to_vec(), Vec::<u64>::new());
}

#[test]
fn record_keeps_the_samples_in_ascending_order() {
    let histogram = histogram_of(&[30, 10, 20, 10, 40]);
    assert_eq!(histogram.to_vec(), vec![10, 10, 20, 30, 40]);
    assert_eq!(histogram.len(), 5);
    assert!(!histogram.is_empty());
    assert_eq!(histogram.sum(), 110);
}

#[test]
fn min_and_max_are_exact_at_any_magnitude() {
    let histogram = histogram_of(&[2049, 1_000_003, u64::MAX, 2051]);
    assert_eq!(histogram.min(), 2049);
    assert_eq!(histogram.max(), u64::MAX);
    assert_eq!(histogram.sum(), 2049 + 1_000_003 + 2051 + u64::MAX as u128);
}

#[test]
fn percentiles_of_one_to_a_hundred() {
    let values: Vec<u64> = (1..=100).collect();
    let histogram = histogram_of(&values);
    assert_eq!(histogram.value_at_quantile(0, 100), 1);
    assert_eq!(histogram.value_at_quantile(1, 100), 1);
    assert_eq!(histogram.value_at_quantile(50, 100), 50);
    assert_eq!(histogram.value_at_quantile(95, 100), 95);
    assert_eq!(histogram.value_at_quantile(99, 100), 99);
    assert_eq!(histogram.value_at_quantile(999, 1000), 100);
    assert_eq!(histogram.value_at_quantile(100, 100), 100);
}

#[test]
fn percentiles_round_the_rank_up() {
    let histogram = histogram_of(&[10, 20, 30]);
    assert_eq!(histogram.value_at_quantile(1, 3), 10);
    assert_eq!(histogram.value_at_quantile(34, 100), 20);
    assert_eq!(histogram.value_at_quantile(50, 100), 20);
    assert_eq!(histogram.value_at_quantile(2, 3), 20);
    assert_eq!(histogram.value_at_quantile(67, 100), 30);
    assert_eq!(histogram.value_at_quantile(95, 100), 30);
}

#[test]
fn a_quantile_of_one_or_more_is_the_largest_sample() {
    let histogram = histogram_of(&[5, 7, 9]);
    assert_eq!(histogram.value_at_quantile(3, 3), 9);
    assert_eq!(histogram.value_at_quantile(7, 2), 9);
    assert_eq!(histogram.value_at_quantile(1, 0), 9);
    assert_eq!(histogram.value_at_quantile(0, 0), 9);
}

#[test]
fn percentiles_of_a_single_sample() {
    let histogram = histogram_of(&[42]);
    assert_eq!(histogram.value_at_quantile(0, 1), 42);
    assert_eq!(histogram.value_at_quantile(50, 100), 42);
    assert_eq!(histogram.value_at_quantile(999, 1000), 42);
}

#[test]
fn percentiles_with_the_largest_arguments() {
    let histogram = histogram_of(&[1, 2, 3, 4]);
    assert_eq!(histogram.value_at_quantile(u64::MAX - 1, u64::MAX), 4);
    assert_eq!(histogram.value_at_quantile(1, u64::MAX), 1);
    assert_eq!(histogram.value_at_quantile(u64::MAX / 2, u64::MAX), 2);
}

#[test]
fn means_compare_exactly() {
    let thirds = histogram_of(&[1, 1, 2]);
    let more = histogram_of(&[1, 2, 1, 2, 2, 1, 2]);
    assert!(thirds.has_lower_mean(&more));
    assert!(!more.has_lower_mean(&thirds));
    let same = histogram_of(&[2, 1, 1, 1, 2, 1]);
    assert!(!thirds.has_lower_mean(&same));
    assert!(!same.has_lower_mean(&thirds));
}

#[test]
fn a_histogram_without_samples_has_no_lower_mean() {
    let empty = LatencyHistogram::new();
    let filled = histogram_of(&[u64::MAX]);
    assert!(filled.has_lower_mean(&empty));
    assert!(!empty.has_lower_mean(&filled));
    assert!(!empty.has_lower_mean(&LatencyHistogram::new()));
}

#[test]
fn mean_is_below_with_large_sums() {
    let max = u64::MAX as u128;
    assert!(mean_is_below(max * 3 - 1, 3, max * 5, 5));
    assert!(!mean_is_below(max * 5, 5, max * 3 - 1, 3));
    assert!(!mean_is_below(max * 3, 3, max * 5, 5));
    assert!(mean_is_below(u128::MAX - 1, usize::MAX, u128::MAX, usize::MAX));
    assert!(mean_is_below(7, 2, 11, 3));
    assert!(!mean_is_below(11, 3, 7, 2));
    assert!(mean_is_below(0, 1, 0, 0));
    assert!(!mean_is_below(0, 0, 5, 1));
}

#[test]
fn a_clone_holds_the_same_samples() {
    let histogram = histogram_of(&[3, 1, 2]);
    let copy = histogram.clone();
    assert_eq!(copy, histogram);
    assert_eq!(copy.to_vec(), vec![1, 2, 3]);
}
