//! The decisions of the paper-trading ledger: the action a signal takes, how
//! a saved signal settles once the winner is known, and the counts a
//! backtest reports.

use vstd::prelude::*;

use crate::calendar;
use crate::text::same_text;

verus! {

/// The paper action of a signal taken at `entry_timing`.
pub open spec fn paper_action(entry_timing: Seq<char>, meets_minimum_expected_pnl: bool) -> Seq<char> {
    if entry_timing != "ON_TIME"@ {
        "SKIP_OFF_SCHEDULE"@
    } else if meets_minimum_expected_pnl {
        "PAPER_BUY"@
    } else {
        "SKIP"@
    }
}

/// The paper action of a signal: only a quote taken on schedule can buy,
/// and only when the conservative expected P&L reaches the required minimum.
pub fn signal_action(entry_timing: &str, meets_minimum_expected_pnl: bool) -> (r: &'static str)
    ensures
        r@ == paper_action(entry_timing@, meets_minimum_expected_pnl),
{
    if !same_text(entry_timing, "ON_TIME") {
        "SKIP_OFF_SCHEDULE"
    } else if meets_minimum_expected_pnl {
        "PAPER_BUY"
    } else {
        "SKIP"
    }
}

/// How a saved paper signal settles.
pub struct SettlementDecision {
    /// `"SETTLED"` once the winner is known, else `"PENDING"`.
    pub status: &'static str,
    /// The signal bought and the market has settled.
    pub traded: bool,
    /// Whether some position is on the winning bucket (unknown while pending).
    pub selected_band_hit: Option<bool>,
    /// For each position, whether it is on the winning bucket.
    pub winning_positions: Vec<bool>,
}

/// Position `bucket` is on the winning bucket `winner`.
pub open spec fn pays_out(bucket: String, winner: Option<&str>) -> bool {
    match winner {
        Some(w) => bucket@ == w@,
        None => false,
    }
}

/// Settles a signal whose action was `signal_action` and whose positions are
/// on `position_buckets`, given the winning bucket once the market resolved.
pub fn settle_paper_signal(
    signal_action: &str,
    winning_bucket: Option<&str>,
    position_buckets: &Vec<String>,
) -> (r: SettlementDecision)
    ensures
        winning_bucket is Some ==> r.status@ == "SETTLED"@,
        winning_bucket is None ==> r.status@ == "PENDING"@,
        r.traded == (signal_action@ == "PAPER_BUY"@ && winning_bucket is Some),
        r.winning_positions@.len() == position_buckets@.len(),
        forall|i: int| 0 <= i < position_buckets@.len() ==> #[trigger] r.winning_positions@[i]
            == pays_out(position_buckets@[i], winning_bucket),
        r.selected_band_hit == (match winning_bucket {
            Some(w) => Some(exists|i: int| 0 <= i < position_buckets@.len() && #[trigger] position_buckets@[i]@ == w@),
            None => None::<bool>,
        }),
{
    let mut winning_positions: Vec<bool> = Vec::new();
    let mut any = false;
    let mut i: usize = 0;
    while i < position_buckets.len()
        invariant
            i <= position_buckets@.len(),
            winning_positions@.len() == i,
            forall|j: int| 0 <= j < i ==> #[trigger] winning_positions@[j] == pays_out(position_buckets@[j], winning_bucket),
            any == exists|j: int| 0 <= j < i && #[trigger] winning_positions@[j],
        decreases position_buckets@.len() - i,
    {
        let pays = match winning_bucket {
            Some(w) => same_text(position_buckets[i].as_str(), w),
            None => false,
        };
        let ghost before = winning_positions@;
        winning_positions.push(pays);
        if pays {
            any = true;
        }
        proof {
            assert(winning_positions@[i as int] == pays);
            assert forall|j: int| 0 <= j < i implies #[trigger] winning_positions@[j] == before[j] by {}
            if any && !pays {
                let j = choose|j: int| 0 <= j < i && #[trigger] before[j];
                assert(winning_positions@[j]);
            }
        }
        i = i + 1;
    }
    let bought = same_text(signal_action, "PAPER_BUY");
    match winning_bucket {
        Some(w) => {
            assert(any == exists|j: int| 0 <= j < position_buckets@.len() && #[trigger] position_buckets@[j]@ == w@) by {
                if any {
                    let j = choose|j: int| 0 <= j < position_buckets@.len() && #[trigger] winning_positions@[j];
                    assert(position_buckets@[j]@ == w@);
                }
                if exists|j: int| 0 <= j < position_buckets@.len() && #[trigger] position_buckets@[j]@ == w@ {
                    let j = choose|j: int| 0 <= j < position_buckets@.len() && #[trigger] position_buckets@[j]@ == w@;
                    assert(winning_positions@[j]);
                }
            }
            SettlementDecision {
                status: "SETTLED",
                traded: bought,
                selected_band_hit: Some(any),
                winning_positions,
            }
        },
        None => SettlementDecision {
            status: "PENDING",
            traded: false,
            selected_band_hit: None,
            winning_positions,
        },
    }
}

/// What a backtest row records about its event.
#[derive(Clone, Copy, Debug, PartialEq, Eq, Structural)]
pub struct BacktestOutcome {
    /// The forecast's bucket was the winner.
    pub exact_hit: bool,
    /// Entry prices were found and the bands were evaluated.
    pub priced: bool,
    /// The blended band was bought.
    pub traded: bool,
    /// A bought band covered the winner.
    pub selected_band_hit: bool,
    /// The row's P&L is positive.
    pub profitable: bool,
}

/// The counts a backtest reports over its rows.
#[derive(Clone, Copy, Debug, PartialEq, Eq, Structural)]
pub struct BacktestTally {
    pub sample_count: usize,
    pub exact_hits: usize,
    pub priced_decision_count: usize,
    pub traded_event_count: usize,
    pub skipped_event_count: usize,
    pub selected_band_hits: usize,
    pub profitable_events: usize,
}

/// A property a backtest row may have.
#[derive(Clone, Copy, Debug, PartialEq, Eq, Structural)]
pub enum RowProperty {
    ExactHit,
    Priced,
    Traded,
    TradedBandHit,
    TradedProfit,
    PricedNotTraded,
}

/// Row `o` has property `p`.
pub open spec fn has_property(o: BacktestOutcome, p: RowProperty) -> bool {
    match p {
        RowProperty::ExactHit => o.exact_hit,
        RowProperty::Priced => o.priced,
        RowProperty::Traded => o.traded,
        RowProperty::TradedBandHit => o.traded && o.selected_band_hit,
        RowProperty::TradedProfit => o.traded && o.profitable,
        RowProperty::PricedNotTraded => o.priced && !o.traded,
    }
}

/// How many of `rows` have property `p`.
pub open spec fn count_rows(rows: Seq<BacktestOutcome>, p: RowProperty) -> nat
    decreases rows.len(),
{
    if rows.len() == 0 {
        0
    } else {
        count_rows(rows.drop_last(), p) + if has_property(rows.last(), p) {
            1nat
        } else {
            0nat
        }
    }
}

/// Counts the rows of a backtest: samples, exact hits, priced decisions,
/// trades, priced decisions not traded (never below zero), and among the
/// trades those whose band covered the winner and those that made a profit.
pub fn tally_backtest(rows: &Vec<BacktestOutcome>) -> (r: BacktestTally)
    ensures
        r.sample_count == rows@.len(),
        r.exact_hits == count_rows(rows@, RowProperty::ExactHit),
        r.priced_decision_count == count_rows(rows@, RowProperty::Priced),
        r.traded_event_count == count_rows(rows@, RowProperty::Traded),
        r.skipped_event_count == if r.priced_decision_count >= r.traded_event_count {
            r.priced_decision_count - r.traded_event_count
        } else {
            0
        },
        r.selected_band_hits == count_rows(rows@, RowProperty::TradedBandHit),
        r.profitable_events == count_rows(rows@, RowProperty::TradedProfit),
        r.exact_hits == rows@.filter(|o: BacktestOutcome| o.exact_hit).len(),
        r.priced_decision_count == rows@.filter(|o: BacktestOutcome| o.priced).len(),
        r.traded_event_count == rows@.filter(|o: BacktestOutcome| o.traded).len(),
        r.selected_band_hits == rows@.filter(|o: BacktestOutcome| o.traded && o.selected_band_hit).len(),
        r.profitable_events == rows@.filter(|o: BacktestOutcome| o.traded && o.profitable).len(),
{
    proof {
        lemma_row_counts_follow_their_flags(rows@);
    }
    let mut t = BacktestTally {
        sample_count: rows.len(),
        exact_hits: 0,
        priced_decision_count: 0,
        traded_event_count: 0,
        skipped_event_count: 0,
        selected_band_hits: 0,
        profitable_events: 0,
    };
    let mut i: usize = 0;
    while i < rows.len()
        invariant
            i <= rows@.len(),
            t.sample_count == rows@.len(),
            t.exact_hits == count_rows(rows@.take(i as int), RowProperty::ExactHit),
            t.priced_decision_count == count_rows(rows@.take(i as int), RowProperty::Priced),
            t.traded_event_count == count_rows(rows@.take(i as int), RowProperty::Traded),
            t.selected_band_hits == count_rows(rows@.take(i as int), RowProperty::TradedBandHit),
            t.profitable_events == count_rows(rows@.take(i as int), RowProperty::TradedProfit),
            t.exact_hits <= i && t.priced_decision_count <= i && t.traded_event_count <= i,
            t.selected_band_hits <= i && t.profitable_events <= i,
        decreases rows@.len() - i,
    {
        let row = rows[i];
        assert(rows@.take(i + 1).drop_last() =~= rows@.take(i as int));
        assert(rows@.take(i + 1).last() == row);
        if row.exact_hit {
            t.exact_hits = t.exact_hits + 1;
        }
        if row.priced {
            t.priced_decision_count = t.priced_decision_count + 1;
        }
        if row.traded {
            t.traded_event_count = t.traded_event_count + 1;
            if row.selected_band_hit {
                t.selected_band_hits = t.selected_band_hits + 1;
            }
            if row.profitable {
                t.profitable_events = t.profitable_events + 1;
            }
        }
        i = i + 1;
    }
    assert(rows@.take(rows@.len() as int) =~= rows@);
    t.skipped_event_count = if t.priced_decision_count >= t.traded_event_count {
        t.priced_decision_count - t.traded_event_count
    } else {
        0
    };
    t
}


/// A quote captured before its scheduled time, or later than the allowed
/// delay, never leads to a paper buy, so it never enters the ledger's
/// returns; a quote on schedule buys exactly when the minimum is met.
pub proof fn lemma_only_on_schedule_quotes_buy(delay: int, maximum_delay_minutes: int, meets_minimum: bool)
    ensures
        (delay < 0 || delay > maximum_delay_minutes * 60) ==> paper_action(
            calendar::entry_timing_label(delay, maximum_delay_minutes),
            meets_minimum,
        ) != "PAPER_BUY"@,
        0 <= delay <= maximum_delay_minutes * 60 ==> (paper_action(
            calendar::entry_timing_label(delay, maximum_delay_minutes),
            meets_minimum,
        ) == "PAPER_BUY"@ <==> meets_minimum),
{
    reveal_strlit("EARLY");
    reveal_strlit("ON_TIME");
    reveal_strlit("LATE");
    reveal_strlit("SKIP_OFF_SCHEDULE");
    reveal_strlit("PAPER_BUY");
    reveal_strlit("SKIP");
    assert("EARLY"@.len() == 5);
    assert("ON_TIME"@.len() == 7);
    assert("LATE"@.len() == 4);
    assert("SKIP_OFF_SCHEDULE"@.len() == 17);
    assert("PAPER_BUY"@.len() == 9);
    assert("SKIP"@.len() == 4);
}


/// When every traded row was priced, the skipped decisions are exactly the
/// priced rows that were not traded, and trades plus skips make up the
/// priced decisions.
pub proof fn lemma_trades_and_skips_split_priced_rows(rows: Seq<BacktestOutcome>)
    requires
        forall|i: int| 0 <= i < rows.len() ==> (#[trigger] rows[i]).traded ==> rows[i].priced,
    ensures
        count_rows(rows, RowProperty::Traded) <= count_rows(rows, RowProperty::Priced),
        count_rows(rows, RowProperty::Priced) - count_rows(rows, RowProperty::Traded) == count_rows(
            rows,
            RowProperty::PricedNotTraded,
        ),
    decreases rows.len(),
{
    if rows.len() > 0 {
        let shorter = rows.drop_last();
        assert forall|i: int| 0 <= i < shorter.len() && (#[trigger] shorter[i]).traded implies shorter[i].priced by {
            assert(shorter[i] == rows[i]);
        }
        lemma_trades_and_skips_split_priced_rows(shorter);
        assert(rows.last() == rows[rows.len() - 1]);
    }
}

/// Each count of a backtest tally counts exactly the rows whose own flags say
/// so: exact hits are the rows whose forecast bucket won, whatever their
/// pricing or trading; band hits and profitable events are the traded rows
/// whose band covered the winner, or whose P&L is positive, whether or not
/// the forecast bucket was the winner.
pub proof fn lemma_row_counts_follow_their_flags(rows: Seq<BacktestOutcome>)
    ensures
        count_rows(rows, RowProperty::ExactHit) == rows.filter(|o: BacktestOutcome| o.exact_hit).len(),
        count_rows(rows, RowProperty::Priced) == rows.filter(|o: BacktestOutcome| o.priced).len(),
        count_rows(rows, RowProperty::Traded) == rows.filter(|o: BacktestOutcome| o.traded).len(),
        count_rows(rows, RowProperty::TradedBandHit) == rows.filter(
            |o: BacktestOutcome| o.traded && o.selected_band_hit,
        ).len(),
        count_rows(rows, RowProperty::TradedProfit) == rows.filter(
            |o: BacktestOutcome| o.traded && o.profitable,
        ).len(),
        count_rows(rows, RowProperty::PricedNotTraded) == rows.filter(
            |o: BacktestOutcome| o.priced && !o.traded,
        ).len(),
    decreases rows.len(),
{
    reveal(Seq::filter);
    if rows.len() > 0 {
        lemma_row_counts_follow_their_flags(rows.drop_last());
    }
}

} // verus!
