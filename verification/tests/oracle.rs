use soroscope::oracle::{Error, OracleAggregator, OracleRecord};

/// Ledger time used by the aggregation scenarios.
const NOW: u64 = 1_000;

fn fresh(price: i128) -> Option<OracleRecord> {
    Some(OracleRecord { price, timestamp: NOW })
}

/// A record last updated 500 s before `NOW`.
fn stale() -> Option<OracleRecord> {
    Some(OracleRecord { price: 100, timestamp: NOW.saturating_sub(500) })
}

/// A source that fails to answer.
fn unresponsive() -> Option<OracleRecord> {
    None
}

fn outlier() -> Option<OracleRecord> {
    fresh(150_000)
}

#[test]
fn test_aggregate_three_fresh_sources() {
    let sources = vec![fresh(100), fresh(101), fresh(99)];
    assert_eq!(OracleAggregator::aggregate_price(NOW, 60, &sources), Ok(100));
}

#[test]
fn test_aggregate_ignores_outlier_keeps_fresh_median() {
    let sources = vec![fresh(100), fresh(101), fresh(99), outlier()];
    assert_eq!(OracleAggregator::aggregate_price(NOW, 60, &sources), Ok(100));
}

#[test]
fn test_aggregate_skips_unresponsive_source() {
    let sources = vec![fresh(100), fresh(101), fresh(99), unresponsive()];
    assert_eq!(OracleAggregator::aggregate_price(NOW, 60, &sources), Ok(100));
}

#[test]
fn test_stale_source_excluded_when_three_fresh_remain() {
    let sources = vec![fresh(100), fresh(101), fresh(99), stale()];
    assert_eq!(OracleAggregator::aggregate_price(NOW, 60, &sources), Ok(100));
}

#[test]
fn test_returns_oracle_staleness_when_too_few_fresh_sources() {
    let sources = vec![fresh(100), stale(), stale()];
    assert_eq!(OracleAggregator::aggregate_price(NOW, 60, &sources), Err(Error::OracleStaleness));
}

#[test]
fn test_all_stale_returns_oracle_staleness() {
    let sources = vec![stale(), stale(), stale()];
    assert_eq!(OracleAggregator::aggregate_price(NOW, 60, &sources), Err(Error::OracleStaleness));
}

#[test]
fn test_stale_source_accepted_when_max_age_is_generous() {
    let sources = vec![fresh(100), fresh(101), stale()];
    assert_eq!(OracleAggregator::aggregate_price(NOW, 600, &sources), Ok(100));
}

#[test]
fn test_exact_boundary_age_is_fresh() {
    let sources = vec![fresh(100), fresh(101), stale()];
    assert_eq!(OracleAggregator::aggregate_price(NOW, 500, &sources), Ok(100));
}

#[test]
fn test_one_second_over_threshold_is_stale() {
    let sources = vec![fresh(100), fresh(101), stale(), stale()];
    assert_eq!(OracleAggregator::aggregate_price(NOW, 499, &sources), Err(Error::OracleStaleness));
}

#[test]
fn test_reject_when_not_enough_sources() {
    let sources = vec![fresh(100), fresh(101)];
    assert_eq!(OracleAggregator::aggregate_price(NOW, 60, &sources), Err(Error::NotEnoughSources));
}

#[test]
fn test_aggregate_median_even_number_sources() {
    // 4 sources: 100, 101, 99, 101 -> sorted: 99, 100, 101, 101
    // Median should be (100 + 101) / 2 = 100
    let sources = vec![fresh(100), fresh(101), fresh(99), fresh(101)];
    assert_eq!(OracleAggregator::aggregate_price(NOW, 60, &sources), Ok(100));
}

#[test]
fn not_enough_valid_prices_when_fresh_prices_are_not_positive() {
    let sources = vec![fresh(100), fresh(0), fresh(-5), fresh(101)];
    assert_eq!(OracleAggregator::aggregate_price(NOW, 60, &sources), Err(Error::NotEnoughValidPrices));
}

#[test]
fn not_enough_reliable_sources_when_prices_scatter() {
    // sorted 100, 200, 300: median 200, only 200 itself lies within 5%.
    let sources = vec![fresh(300), fresh(100), fresh(200)];
    assert_eq!(OracleAggregator::aggregate_price(NOW, 60, &sources), Err(Error::NotEnoughReliableSources));
}

#[test]
fn future_timestamps_count_as_fresh() {
    let ahead = Some(OracleRecord { price: 102, timestamp: NOW + 10_000 });
    let sources = vec![fresh(100), ahead, fresh(98)];
    assert_eq!(OracleAggregator::aggregate_price(NOW, 0, &sources), Ok(100));
}

#[test]
fn sort_prices_orders_ascending() {
    assert_eq!(OracleAggregator::sort_prices(vec![5, -3, 9, 0, 5, 1]), vec![-3, 0, 1, 5, 5, 9]);
    assert_eq!(OracleAggregator::sort_prices(vec![]), Vec::<i128>::new());
}

#[test]
fn median_of_odd_and_even_lengths() {
    assert_eq!(OracleAggregator::median(&vec![1, 5, 9]), 5);
    assert_eq!(OracleAggregator::median(&vec![1, 4]), 2);
    // The mean of the two middle prices rounds toward zero.
    assert_eq!(OracleAggregator::median(&vec![-4, 1]), -1);
}

#[test]
fn filter_outliers_keeps_prices_within_five_percent() {
    let prices = vec![94, 95, 100, 105, 106];
    assert_eq!(OracleAggregator::filter_outliers(&prices, 100), vec![95, 100, 105]);
}

#[test]
fn abs_diff_is_symmetric() {
    assert_eq!(OracleAggregator::abs_diff(3, 10), 7);
    assert_eq!(OracleAggregator::abs_diff(10, 3), 7);
    assert_eq!(OracleAggregator::abs_diff(-5, 5), 10);
}

#[test]
fn checked_aggregate_reports_median_overflow() {
    let big = i128::MAX - 1;
    let sources = vec![fresh(big), fresh(big), fresh(big), fresh(big)];
    assert_eq!(OracleAggregator::checked_aggregate_price(NOW, 60, &sources), None);
    let ok = vec![fresh(100), fresh(101), fresh(99)];
    assert_eq!(OracleAggregator::checked_aggregate_price(NOW, 60, &ok), Some(Ok(100)));
}

#[test]
fn aggregates_are_positive_prices() {
    let sources = vec![fresh(100), fresh(100), fresh(101), fresh(-5), fresh(0)];
    let price = OracleAggregator::aggregate_price(NOW, 60, &sources).unwrap();
    assert_eq!(price, 100);
    assert!(price > 0);
}

#[test]
fn filter_outliers_saturates_both_sides() {
    // Both the threshold and the deviations saturate at i128::MAX, so every
    // price passes against a huge median.
    let big = i128::MAX / 3;
    let prices = vec![1, big - 1, big];
    assert_eq!(OracleAggregator::filter_outliers(&prices, big), vec![1, big - 1, big]);
}
