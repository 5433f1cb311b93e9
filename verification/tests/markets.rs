use tokyo_weather::bucket::{Bucket, BucketKind};
use tokyo_weather::markets::{
    band_covers, count_covered, evaluate_band_coverage, is_ensemble_temperature_series,
    is_exhaustive_neg_risk_group, is_tracked_open_market, legacy_band_start,
    nearest_point_index, order_by_bucket_threshold, predicted_market_index, winner_index,
    DecimalPrice,
};

fn q(text: &str) -> Option<String> {
    Some(format!("Will the highest temperature in Tokyo be {text} on September 5?"))
}

#[test]
fn markets_sort_stably_by_threshold() {
    let questions = vec![q("25°C"), None, q("23°C or below"), q("24°C"), q("27°C or higher"), q("24°C")];
    assert_eq!(order_by_bucket_threshold(&questions), vec![2, 3, 5, 0, 4, 1]);
    assert_eq!(order_by_bucket_threshold(&vec![]), Vec::<usize>::new());
}

#[test]
fn forecast_lands_in_the_first_holding_bucket() {
    let questions = vec![q("21°C or below"), q("22°C"), q("23°C"), q("24°C or higher")];
    assert_eq!(predicted_market_index(&questions, 20), Some(0));
    assert_eq!(predicted_market_index(&questions, 23), Some(2));
    assert_eq!(predicted_market_index(&questions, 30), Some(3));
    assert_eq!(predicted_market_index(&vec![q("22°C"), None], 25), None);
}

#[test]
fn legacy_band_takes_two_below_and_one_above() {
    assert_eq!(legacy_band_start(5, 10), 3);
    assert_eq!(legacy_band_start(1, 10), 0);
    assert_eq!(legacy_band_start(9, 10), 6);
    assert_eq!(legacy_band_start(0, 4), 0);
}

#[test]
fn coverage_counts_members_in_any_bucket() {
    let buckets = vec![
        Bucket { threshold: 21, kind: BucketKind::AtOrBelow },
        Bucket { threshold: 23, kind: BucketKind::Exact },
    ];
    assert_eq!(count_covered(&buckets, &vec![20, 21, 22, 23, 24, 23]), 4);
    assert_eq!(count_covered(&vec![], &vec![20]), 0);
}

#[test]
fn band_coverage_needs_four_parsed_buckets() {
    let questions = vec![q("21°C or below"), q("22°C"), q("23°C"), q("24°C"), q("25°C or higher")];
    let members = vec![20, 22, 22, 25, 30];
    assert_eq!(evaluate_band_coverage(&questions, 5, 0, 4, &members), Some(3));
    assert_eq!(evaluate_band_coverage(&questions, 5, 1, 5, &members), Some(4));
    assert_eq!(evaluate_band_coverage(&questions, 4, 0, 4, &members), None);
    assert_eq!(evaluate_band_coverage(&questions, 5, 2, 5, &members), None);
    assert_eq!(evaluate_band_coverage(&questions, 5, 2, 6, &members), None);
    let broken = vec![q("21°C or below"), Some("Tokyo".to_string()), q("23°C"), q("24°C")];
    assert_eq!(evaluate_band_coverage(&broken, 4, 0, 4, &members), None);
}

#[test]
fn band_membership() {
    assert!(band_covers(2, 2));
    assert!(band_covers(2, 5));
    assert!(!band_covers(2, 6));
    assert!(!band_covers(2, 1));
}

#[test]
fn winner_is_the_first_yes_at_ninety_nine_cents() {
    let price = |mantissa: i128, scale: u32| Some(DecimalPrice { mantissa, scale });
    let prices = vec![price(1, 3), None, price(989, 3), price(99, 2), price(1, 0)];
    assert_eq!(winner_index(&prices), Some(3));
    assert_eq!(winner_index(&vec![price(9899999, 7), price(0, 0)]), None);
    assert_eq!(winner_index(&vec![price(990000000000000000000000000, 27)]), Some(0));
}

#[test]
fn nearest_price_point_prefers_the_first_tie() {
    let times = vec![Some(1_000), None, Some(1_300), Some(700), Some(1_290)];
    assert_eq!(nearest_point_index(&times, 1_000), Some(0));
    assert_eq!(nearest_point_index(&times, 1_295), Some(2));
    assert_eq!(nearest_point_index(&vec![Some(900), Some(1_100)], 1_000), Some(0));
    assert_eq!(nearest_point_index(&vec![None, None], 1_000), Some(0));
    assert_eq!(nearest_point_index(&vec![], 1_000), None);
}

#[test]
fn neg_risk_group_needs_one_shared_id() {
    let id = |b: u8| Some(vec![b; 4]);
    assert!(is_exhaustive_neg_risk_group(&vec![Some(true), Some(true)], &vec![id(1), id(1)]));
    assert!(!is_exhaustive_neg_risk_group(&vec![Some(true), Some(true)], &vec![id(1), id(2)]));
    assert!(!is_exhaustive_neg_risk_group(&vec![Some(true), None], &vec![id(1), id(1)]));
    assert!(!is_exhaustive_neg_risk_group(&vec![Some(true)], &vec![None]));
    assert!(!is_exhaustive_neg_risk_group(&vec![], &vec![]));
}

#[test]
fn tracked_markets_are_open_tokyo_markets_of_the_day() {
    let question = q("25°C").map(|s| s.to_lowercase().replace("tokyo", "Tokyo"));
    assert!(is_tracked_open_market(&question, Some(10), None, 10));
    assert!(is_tracked_open_market(&question, Some(10), Some(false), 10));
    assert!(!is_tracked_open_market(&question, Some(10), Some(true), 10));
    assert!(!is_tracked_open_market(&question, Some(11), None, 10));
    assert!(!is_tracked_open_market(&Some("Will it rain in Tokyo?".to_string()), Some(10), None, 10));
    assert!(!is_tracked_open_market(&None, Some(10), None, 10));
}

#[test]
fn ensemble_series_are_control_and_members() {
    assert!(is_ensemble_temperature_series("temperature_2m"));
    assert!(is_ensemble_temperature_series("temperature_2m_member01"));
    assert!(!is_ensemble_temperature_series("temperature_2m_spread"));
    assert!(!is_ensemble_temperature_series("time"));
}
