use tokyo_weather::ledger::{
    settle_paper_signal, signal_action, tally_backtest, BacktestOutcome, BacktestTally,
};

#[test]
fn only_on_time_quotes_can_buy() {
    assert_eq!(signal_action("ON_TIME", true), "PAPER_BUY");
    assert_eq!(signal_action("ON_TIME", false), "SKIP");
    assert_eq!(signal_action("LATE", true), "SKIP_OFF_SCHEDULE");
    assert_eq!(signal_action("EARLY", true), "SKIP_OFF_SCHEDULE");
}

#[test]
fn settlement_pays_positions_on_the_winner() {
    let buckets = vec!["24°C".to_string(), "25°C".to_string(), "25°C".to_string()];
    let settled = settle_paper_signal("PAPER_BUY", Some("25°C"), &buckets);
    assert_eq!(settled.status, "SETTLED");
    assert!(settled.traded);
    assert_eq!(settled.selected_band_hit, Some(true));
    assert_eq!(settled.winning_positions, vec![false, true, true]);

    let missed = settle_paper_signal("PAPER_BUY", Some("27°C"), &buckets);
    assert_eq!(missed.selected_band_hit, Some(false));
    assert_eq!(missed.winning_positions, vec![false, false, false]);

    let skipped = settle_paper_signal("SKIP", Some("25°C"), &buckets);
    assert!(!skipped.traded);
    assert_eq!(skipped.selected_band_hit, Some(true));

    let pending = settle_paper_signal("PAPER_BUY", None, &buckets);
    assert_eq!(pending.status, "PENDING");
    assert!(!pending.traded);
    assert_eq!(pending.selected_band_hit, None);
}

#[test]
fn backtest_counts() {
    let row = |exact_hit, priced, traded, selected_band_hit, profitable| BacktestOutcome {
        exact_hit,
        priced,
        traded,
        selected_band_hit,
        profitable,
    };
    let rows = vec![
        row(true, true, true, true, true),
        row(false, true, false, true, false),
        row(false, false, false, false, false),
        row(true, true, true, false, false),
        row(false, true, true, true, false),
    ];
    assert_eq!(
        tally_backtest(&rows),
        BacktestTally {
            sample_count: 5,
            exact_hits: 2,
            priced_decision_count: 4,
            traded_event_count: 3,
            skipped_event_count: 1,
            selected_band_hits: 2,
            profitable_events: 1,
        }
    );
    assert_eq!(tally_backtest(&vec![]).sample_count, 0);
}
