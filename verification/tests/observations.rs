use chrono::{DateTime, Utc};
use tokyo_weather::observations::select_observations;

fn stamp(text: &str) -> Option<i64> {
    Some(DateTime::parse_from_rfc3339(text).unwrap().with_timezone(&Utc).timestamp())
}

#[test]
fn observations_of_a_tokyo_date() {
    let day = chrono::Datelike::num_days_from_ce(
        &chrono::NaiveDate::from_ymd_opt(2026, 9, 6).unwrap(),
    );
    let stamps = vec![
        stamp("2026-09-05T14:30:00Z"),
        stamp("2026-09-05T15:00:00Z"),
        None,
        stamp("2026-09-06T06:00:00Z"),
        stamp("2026-09-06T06:00:00Z"),
        stamp("2026-09-06T15:00:00Z"),
        stamp("2026-09-06T08:00:00Z"),
    ];
    let has_report = vec![true, true, true, true, true, true, false];
    let selection = select_observations(&stamps, &has_report, day);
    assert_eq!(selection.on_date, vec![false, true, false, true, true, false, true]);
    assert_eq!(selection.latest_report, Some(3));
    let none = select_observations(&stamps, &vec![false; 7], day);
    assert_eq!(none.latest_report, None);
}
