use tokyo_weather::events::{
    bounds_in_order,    resolve_event, CandidateMarkets, DayCandidate, LongestListByDay, ResolvedEventQuery,
};
use tokyo_weather::markets::DecimalPrice;

fn q(text: &str) -> Option<String> {
    Some(format!("Will the highest temperature in Tokyo be {text} on September 5?"))
}

fn yes() -> Option<DecimalPrice> {
    Some(DecimalPrice { mantissa: 1, scale: 0 })
}

fn no() -> Option<DecimalPrice> {
    Some(DecimalPrice { mantissa: 5, scale: 4 })
}

fn candidate(day: i32, winner: Option<usize>, count: usize) -> CandidateMarkets {
    let labels = ["26°C", "24°C", "25°C", "23°C or below", "27°C or higher"];
    let questions = (0..count).map(|i| q(labels[i % labels.len()])).collect();
    let yes_prices = (0..count).map(|i| if Some(i) == winner { yes() } else { no() }).collect();
    CandidateMarkets { day, questions, yes_prices }
}

#[test]
fn queries_need_a_positive_count() {
    assert!(ResolvedEventQuery::new(None, None, 0).is_none());
    let query = ResolvedEventQuery::new(Some(3), None, 14).unwrap();
    assert_eq!(query.since, Some(3));
    assert_eq!(query.recent, 14);
}

#[test]
fn queries_admit_series_events_in_range() {
    let query = ResolvedEventQuery::new(Some(10), Some(20), 14).unwrap();
    let title = Some("Highest temperature in Tokyo on September 5?");
    assert!(query.admits(10, title));
    assert!(query.admits(20, title));
    assert!(!query.admits(9, title));
    assert!(!query.admits(21, title));
    assert!(!query.admits(15, Some("Highest temperature in Seoul on September 5?")));
    assert!(!query.admits(15, None));
    assert!(bounds_in_order(Some(10), Some(20)));
    assert!(bounds_in_order(Some(20), Some(20)));
    assert!(bounds_in_order(None, Some(20)));
    assert!(!bounds_in_order(Some(21), Some(20)));
}

#[test]
fn the_longest_market_list_of_a_day_wins() {
    let mut by_day = LongestListByDay::new();
    by_day.offer(12, 0, 5);
    by_day.offer(10, 1, 6);
    by_day.offer(12, 2, 5);
    by_day.offer(12, 3, 7);
    by_day.offer(11, 4, 1);
    by_day.offer(10, 5, 2);
    assert_eq!(
        by_day.into_entries(),
        vec![
            DayCandidate { day: 10, candidate: 1, market_count: 6 },
            DayCandidate { day: 11, candidate: 4, market_count: 1 },
            DayCandidate { day: 12, candidate: 3, market_count: 7 },
        ]
    );
}

#[test]
fn an_event_resolves_in_threshold_order() {
    let (order, winner) = resolve_event(&candidate(1, Some(2), 5)).unwrap();
    assert_eq!(order, vec![3, 1, 2, 0, 4]);
    assert_eq!(winner, 2);
    assert_eq!(order[winner], 2);
    assert!(resolve_event(&candidate(1, None, 5)).is_none());
    assert!(resolve_event(&candidate(1, Some(0), 3)).is_none());
}

#[test]
fn only_the_latest_resolved_events_remain_without_bounds() {
    let candidates = vec![
        candidate(1, Some(0), 5),
        candidate(2, None, 5),
        candidate(3, Some(3), 4),
        candidate(4, Some(1), 5),
        candidate(5, Some(3), 5),
    ];
    let recent = ResolvedEventQuery::new(None, None, 2).unwrap();
    let events = recent.select_resolved_events(&candidates);
    assert_eq!(events.iter().map(|e| e.source).collect::<Vec<_>>(), vec![3, 4]);
    assert_eq!(events.iter().map(|e| e.day).collect::<Vec<_>>(), vec![4, 5]);
    assert_eq!(events[1].order[events[1].winner_index], 3);

    let bounded = ResolvedEventQuery::new(Some(1), None, 2).unwrap();
    let events = bounded.select_resolved_events(&candidates);
    assert_eq!(events.iter().map(|e| e.source).collect::<Vec<_>>(), vec![0, 2, 3, 4]);

    let wide = ResolvedEventQuery::new(None, None, 14).unwrap();
    assert_eq!(wide.select_resolved_events(&candidates).len(), 4);
}
