use chrono::{DateTime, Datelike, Duration, NaiveDate, Utc};
use tokyo_weather::calendar::{
    backtest_entry_time, default_tokyo_date, last_year_reference_day, leading_iso_date,
    missing_event_dates, paper_entry_timing, reference_day_from, scheduled_paper_entry_time,
    tokyo_day_of_timestamp,
    UtcInstant, MAX_DAY, MIN_DAY, UNIX_EPOCH_DAY,
};

fn day(y: i32, m: u32, d: u32) -> i32 {
    NaiveDate::from_ymd_opt(y, m, d).unwrap().num_days_from_ce()
}

fn instant(t: DateTime<Utc>) -> UtcInstant {
    UtcInstant { seconds: t.timestamp(), nanos: t.timestamp_subsec_nanos() }
}

#[test]
fn calendar_bounds_match_chrono() {
    assert_eq!(NaiveDate::MIN.num_days_from_ce(), MIN_DAY);
    assert_eq!(NaiveDate::MAX.num_days_from_ce(), MAX_DAY);
    assert_eq!(day(1970, 1, 1), UNIX_EPOCH_DAY);
}

#[test]
fn paper_entry_time_is_fixed_on_preceding_day() {
    let target = NaiveDate::from_ymd_opt(2026, 9, 6).unwrap();
    let scheduled = scheduled_paper_entry_time(target.num_days_from_ce()).unwrap();
    let scheduled = DateTime::<Utc>::from_timestamp(scheduled, 0).unwrap();
    assert_eq!(scheduled.to_rfc3339(), "2026-09-05T05:17:00+00:00");
}

#[test]
fn no_entry_before_the_first_date() {
    assert_eq!(scheduled_paper_entry_time(MIN_DAY), None);
    assert_eq!(
        scheduled_paper_entry_time(MIN_DAY + 1),
        Some((MIN_DAY as i64 - UNIX_EPOCH_DAY as i64) * 86400 + 19020)
    );
}

#[test]
fn delayed_paper_quote_is_excluded_from_standard_returns() {
    let scheduled = DateTime::parse_from_rfc3339("2026-09-05T05:17:00Z")
        .unwrap()
        .with_timezone(&Utc);
    assert_eq!(
        paper_entry_timing(instant(scheduled + Duration::minutes(15)), instant(scheduled), 15),
        ("ON_TIME", 900)
    );
    assert_eq!(
        paper_entry_timing(instant(scheduled + Duration::minutes(16)), instant(scheduled), 15),
        ("LATE", 960)
    );
    assert_eq!(
        paper_entry_timing(instant(scheduled - Duration::seconds(1)), instant(scheduled), 15),
        ("EARLY", -1)
    );
}

#[test]
fn sub_second_delays_truncate_toward_zero() {
    let scheduled = DateTime::parse_from_rfc3339("2026-09-05T05:17:00Z")
        .unwrap()
        .with_timezone(&Utc);
    let half_second_early = scheduled - Duration::milliseconds(500);
    assert_eq!(
        paper_entry_timing(instant(half_second_early), instant(scheduled), 15),
        ("ON_TIME", (half_second_early - scheduled).num_seconds())
    );
    let late = scheduled + Duration::milliseconds(900_700);
    // 900.7 seconds late counts as 900 whole seconds, still within the window.
    assert_eq!(
        paper_entry_timing(instant(late), instant(scheduled), 15),
        ("ON_TIME", (late - scheduled).num_seconds())
    );
    assert_eq!(paper_entry_timing(instant(late), instant(scheduled), 15).1, 900);
}

#[test]
fn tomorrow_in_tokyo() {
    // 2026-09-05 15:30 UTC is already 2026-09-06 in Tokyo.
    let now = DateTime::parse_from_rfc3339("2026-09-05T15:30:00Z").unwrap().with_timezone(&Utc);
    assert_eq!(default_tokyo_date(instant(now)), Some(day(2026, 9, 7)));
    let now = DateTime::parse_from_rfc3339("2026-09-05T14:59:59Z").unwrap().with_timezone(&Utc);
    assert_eq!(default_tokyo_date(instant(now)), Some(day(2026, 9, 6)));
    let before_epoch = DateTime::parse_from_rfc3339("1969-12-31T10:00:00Z").unwrap().with_timezone(&Utc);
    assert_eq!(default_tokyo_date(instant(before_epoch)), Some(day(1970, 1, 1)));
}

#[test]
fn observation_dates_follow_tokyo_time() {
    let t = DateTime::parse_from_rfc3339("2026-09-05T16:00:00Z").unwrap().with_timezone(&Utc);
    assert_eq!(tokyo_day_of_timestamp(t.timestamp()), Some(day(2026, 9, 6)));
    assert_eq!(tokyo_day_of_timestamp(-1), Some(day(1970, 1, 1)));
    assert_eq!(tokyo_day_of_timestamp(i64::MIN), None);
}

#[test]
fn backtest_entries_are_on_the_preceding_day() {
    let t = backtest_entry_time(day(2026, 9, 6), 5).unwrap();
    let t = DateTime::<Utc>::from_timestamp(t, 0).unwrap();
    assert_eq!(t.to_rfc3339(), "2026-09-05T05:00:00+00:00");
    assert_eq!(backtest_entry_time(day(2026, 9, 6), 24), None);
    assert_eq!(backtest_entry_time(MIN_DAY, 5), None);
}

#[test]
fn missing_dates_list_the_gaps() {
    let events = vec![day(2026, 9, 1), day(2026, 9, 3), day(2026, 9, 6)];
    assert_eq!(
        missing_event_dates(&events, day(2026, 9, 1), day(2026, 9, 6)),
        Some(vec![day(2026, 9, 2), day(2026, 9, 4), day(2026, 9, 5)])
    );
    assert_eq!(missing_event_dates(&events, day(2026, 9, 3), day(2026, 9, 2)), Some(vec![]));
    assert_eq!(missing_event_dates(&events, MAX_DAY - 1, MAX_DAY), None);
}

#[test]
fn iso_dates_are_read_from_the_first_ten_bytes() {
    assert_eq!(leading_iso_date("2026-09-05T12:00:00Z"), Some(day(2026, 9, 5)));
    assert_eq!(leading_iso_date("2026-09-05"), Some(day(2026, 9, 5)));
    assert_eq!(leading_iso_date("2026-09-0"), None);
    assert_eq!(leading_iso_date("2026-13-05T00:00"), None);
    assert_eq!(leading_iso_date("2026-09-°5"), None);
}

#[test]
fn last_year_reference_keeps_month_and_day() {
    assert_eq!(last_year_reference_day(day(2026, 9, 5)), Some(day(2025, 9, 5)));
    assert_eq!(last_year_reference_day(day(2024, 2, 29)), Some(day(2024, 2, 29) - 365));
    assert_eq!(day(2024, 2, 29) - 365, day(2023, 3, 1));
    assert_eq!(last_year_reference_day(MIN_DAY), None);
}

#[test]
fn reference_day_falls_back_to_365_days_earlier() {
    assert_eq!(reference_day_from(day(2026, 9, 5), Some(day(2025, 9, 5))), Some(day(2025, 9, 5)));
    assert_eq!(reference_day_from(day(2024, 2, 29), None), Some(day(2023, 3, 1)));
    assert_eq!(reference_day_from(MIN_DAY + 365, None), Some(MIN_DAY));
    assert_eq!(reference_day_from(MIN_DAY + 364, None), None);
}
