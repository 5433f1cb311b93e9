//! Calendar arithmetic of the paper-trading schedule. A date is its day
//! number counted as `chrono::Datelike::num_days_from_ce` counts it
//! (0001-01-01 is day 1); an instant is whole seconds since the Unix epoch
//! plus nanoseconds.

use vstd::prelude::*;

verus! {

/// Day number of the first date a `chrono::NaiveDate` can hold (year -262143, January 1).
pub const MIN_DAY: i32 = -95746129;

/// Day number of the last date a `chrono::NaiveDate` can hold (year 262142, December 31).
pub const MAX_DAY: i32 = 95745399;

/// Day number of 1970-01-01.
pub const UNIX_EPOCH_DAY: i32 = 719163;

/// Seconds in a civil day of UTC.
pub const SECONDS_PER_DAY: i64 = 86400;

/// Tokyo's offset from UTC (nine hours), in seconds.
pub const TOKYO_OFFSET_SECONDS: i64 = 32400;

/// Hour (UTC) of the scheduled paper entry on the day before the market date.
pub const PAPER_ENTRY_HOUR_UTC: u32 = 5;

/// Minute of the scheduled paper entry.
pub const PAPER_ENTRY_MINUTE_UTC: u32 = 17;

/// `day` is a date chrono can represent.
pub open spec fn valid_day(day: int) -> bool {
    MIN_DAY <= day <= MAX_DAY
}

/// The Unix timestamp of midnight UTC starting `day`.
pub open spec fn day_start_seconds(day: int) -> int {
    (day - UNIX_EPOCH_DAY) * SECONDS_PER_DAY
}

/// The UTC date containing the Unix second `seconds`.
pub open spec fn utc_day_of(seconds: int) -> int {
    seconds / (SECONDS_PER_DAY as int) + UNIX_EPOCH_DAY
}

/// The Tokyo calendar date at the Unix second `seconds`.
pub open spec fn tokyo_day_of(seconds: int) -> int {
    utc_day_of(seconds + TOKYO_OFFSET_SECONDS)
}

/// An instant of UTC: whole seconds since the Unix epoch and the nanoseconds past them.
#[derive(Clone, Copy, Debug, PartialEq, Eq, Structural)]
pub struct UtcInstant {
    pub seconds: i64,
    pub nanos: u32,
}

/// `t` is an instant chrono's `DateTime<Utc>` holds outside a leap second.
pub open spec fn valid_instant(t: UtcInstant) -> bool {
    &&& t.nanos < 1_000_000_000
    &&& day_start_seconds(MIN_DAY as int) <= t.seconds < day_start_seconds(MAX_DAY + 1)
}

/// The instant in nanoseconds since the Unix epoch.
pub open spec fn total_nanos(t: UtcInstant) -> int {
    t.seconds * 1_000_000_000 + t.nanos
}

/// Whole seconds from `earlier` to `later`, truncated toward zero, as
/// `TimeDelta::num_seconds` counts them.
pub open spec fn whole_seconds_between(later: UtcInstant, earlier: UtcInstant) -> int {
    let d = total_nanos(later) - total_nanos(earlier);
    if d >= 0 {
        d / 1_000_000_000
    } else {
        -((-d) / 1_000_000_000)
    }
}

/// The timing class of a quote `delay` seconds after its schedule.
pub open spec fn entry_timing_label(delay: int, maximum_delay_minutes: int) -> Seq<char> {
    if delay < 0 {
        "EARLY"@
    } else if delay <= maximum_delay_minutes * 60 {
        "ON_TIME"@
    } else {
        "LATE"@
    }
}

/// The scheduled paper entry for the market of `target_day`: 05:17 UTC on
/// the preceding day, or none when that day precedes the calendar.
pub open spec fn spec_scheduled_entry(target_day: int) -> Option<int> {
    if target_day - 1 >= MIN_DAY {
        Some(day_start_seconds(target_day - 1) + PAPER_ENTRY_HOUR_UTC * 3600 + PAPER_ENTRY_MINUTE_UTC
            * 60)
    } else {
        None
    }
}

/// Largest `q` with `q * d <= x`, for a positive `d`.
fn floor_div(x: i64, d: i64) -> (q: i64)
    requires
        d > 0,
    ensures
        q == x / d,
{
    if x >= 0 {
        x / d
    } else {
        let nx: i64 = -(x + 1);
        let t = nx / d;
        let r = nx % d;
        assert(nx == t * d + r && 0 <= r < d) by (nonlinear_arith)
            requires
                nx >= 0,
                d > 0,
                t == nx / d,
                r == nx % d,
        ;
        assert(x == (-t - 1) * d + (d - r - 1)) by (nonlinear_arith)
            requires
                nx == -(x + 1),
                nx == t * d + r,
        ;
        proof {
            vstd::arithmetic::div_mod::lemma_fundamental_div_mod_converse(
                x as int,
                d as int,
                -t - 1,
                d - r - 1,
            );
        }
        -t - 1
    }
}

/// The Unix timestamp of the scheduled paper entry for the market of
/// `target_day` (05:17 UTC the day before), or `None` when the day before
/// cannot be represented.
pub fn scheduled_paper_entry_time(target_day: i32) -> (r: Option<i64>)
    requires
        valid_day(target_day as int),
    ensures
        r matches Some(t) ==> spec_scheduled_entry(target_day as int) == Some(t as int),
        r is None ==> spec_scheduled_entry(target_day as int) is None,
{
    if target_day == MIN_DAY {
        return None;
    }
    let entry_day = (target_day - 1) as i64;
    let day_start = (entry_day - UNIX_EPOCH_DAY as i64) * SECONDS_PER_DAY;
    Some(day_start + (PAPER_ENTRY_HOUR_UTC as i64) * 3600 + (PAPER_ENTRY_MINUTE_UTC as i64) * 60)
}

/// How a captured quote relates to its scheduled time: `"EARLY"` before
/// it, `"ON_TIME"` up to `maximum_delay_minutes` after it, `"LATE"` beyond
/// that; with the delay in whole seconds, truncated toward zero.
pub fn paper_entry_timing(
    quote_time: UtcInstant,
    scheduled_time: UtcInstant,
    maximum_delay_minutes: u16,
) -> (r: (&'static str, i64))
    requires
        valid_instant(quote_time),
        valid_instant(scheduled_time),
    ensures
        r.1 == whole_seconds_between(quote_time, scheduled_time),
        r.0@ == entry_timing_label(r.1 as int, maximum_delay_minutes as int),
{
    let q = quote_time.seconds as i128 * 1_000_000_000 + quote_time.nanos as i128;
    let s = scheduled_time.seconds as i128 * 1_000_000_000 + scheduled_time.nanos as i128;
    let d = q - s;
    let delay_seconds: i128 = if d >= 0 {
        d / 1_000_000_000
    } else {
        -((-d) / 1_000_000_000)
    };
    assert(-100_000_000_000_000 <= delay_seconds <= 100_000_000_000_000) by (nonlinear_arith)
        requires
            -100_000_000_000_000_000_000_000 <= d <= 100_000_000_000_000_000_000_000,
            delay_seconds == (if d >= 0 {
                d / 1_000_000_000
            } else {
                -((-d) / 1_000_000_000)
            }),
    ;
    let delay_seconds = delay_seconds as i64;
    let timing = if delay_seconds < 0 {
        "EARLY"
    } else if delay_seconds <= (maximum_delay_minutes as i64) * 60 {
        "ON_TIME"
    } else {
        "LATE"
    };
    (timing, delay_seconds)
}


/// Tomorrow's date in Tokyo at the instant `now`, or `None` when it lies past
/// the calendar's end.
pub fn default_tokyo_date(now: UtcInstant) -> (r: Option<i32>)
    requires
        valid_instant(now),
        valid_day(tokyo_day_of(now.seconds as int)),
    ensures
        r matches Some(d) ==> d == tokyo_day_of(now.seconds as int) + 1,
        r is None <==> tokyo_day_of(now.seconds as int) == MAX_DAY,
{
    let today = floor_div(now.seconds + TOKYO_OFFSET_SECONDS, SECONDS_PER_DAY) + UNIX_EPOCH_DAY as i64;
    if today == MAX_DAY as i64 {
        None
    } else {
        Some((today + 1) as i32)
    }
}

/// The Tokyo date of an observation stamped `seconds` after the Unix epoch,
/// or `None` when that instant is outside chrono's range.
pub fn tokyo_day_of_timestamp(seconds: i64) -> (r: Option<i32>)
    requires
        valid_day(utc_day_of(seconds as int)) ==> valid_day(tokyo_day_of(seconds as int)),
    ensures
        r matches Some(d) ==> valid_day(utc_day_of(seconds as int)) && d == tokyo_day_of(
            seconds as int,
        ),
        r is None <==> !valid_day(utc_day_of(seconds as int)),
{
    let utc_day = floor_div(seconds, SECONDS_PER_DAY) + UNIX_EPOCH_DAY as i64;
    if utc_day < MIN_DAY as i64 || utc_day > MAX_DAY as i64 {
        return None;
    }
    let tokyo = floor_div(seconds + TOKYO_OFFSET_SECONDS, SECONDS_PER_DAY) + UNIX_EPOCH_DAY as i64;
    Some(tokyo as i32)
}

/// The simulated entry of a backtest for the market of `event_day`: the
/// given hour (UTC) on the preceding day, as a Unix timestamp; `None` when
/// the hour is not a clock hour or the preceding day cannot be represented.
pub fn backtest_entry_time(event_day: i32, entry_hour_utc: u8) -> (r: Option<i64>)
    requires
        valid_day(event_day as int),
    ensures
        r is Some <==> (event_day - 1 >= MIN_DAY && entry_hour_utc < 24),
        r matches Some(t) ==> t == day_start_seconds(event_day - 1) + entry_hour_utc * 3600,
{
    if event_day == MIN_DAY || entry_hour_utc >= 24 {
        return None;
    }
    let entry_day = (event_day - 1) as i64;
    Some((entry_day - UNIX_EPOCH_DAY as i64) * SECONDS_PER_DAY + (entry_hour_utc as i64) * 3600)
}

/// The dates from `lo` through `hi`, in order, on which none of `event_days` falls.
pub open spec fn days_without_event(event_days: Seq<i32>, lo: int, hi: int) -> Seq<i32>
    decreases hi - lo + 1,
{
    if lo > hi {
        seq![]
    } else {
        let rest = days_without_event(event_days, lo + 1, hi);
        if event_days.contains(lo as i32) {
            rest
        } else {
            seq![lo as i32] + rest
        }
    }
}

proof fn lemma_days_without_event_step(event_days: Seq<i32>, lo: int, mid: int, hi: int)
    requires
        lo <= mid <= hi,
    ensures
        days_without_event(event_days, lo, hi) == days_without_event(event_days, lo, mid - 1)
            + (if event_days.contains(mid as i32) {
            seq![]
        } else {
            seq![mid as i32]
        }) + days_without_event(event_days, mid + 1, hi),
    decreases mid - lo,
{
    if lo == mid {
        assert(days_without_event(event_days, lo, mid - 1) =~= seq![]);
        assert(days_without_event(event_days, lo, hi) =~= days_without_event(event_days, lo, mid - 1)
            + (if event_days.contains(mid as i32) {
            seq![]
        } else {
            seq![mid as i32]
        }) + days_without_event(event_days, mid + 1, hi));
    } else {
        lemma_days_without_event_step(event_days, lo + 1, mid, hi);
        let head: Seq<i32> = if event_days.contains(lo as i32) {
            seq![]
        } else {
            seq![lo as i32]
        };
        assert(days_without_event(event_days, lo, mid - 1) =~= head + days_without_event(
            event_days,
            lo + 1,
            mid - 1,
        ));
        assert(days_without_event(event_days, lo, hi) =~= days_without_event(event_days, lo, mid - 1)
            + (if event_days.contains(mid as i32) {
            seq![]
        } else {
            seq![mid as i32]
        }) + days_without_event(event_days, mid + 1, hi));
    }
}

/// The dates from `first` through `last` on which no event falls, walking the
/// range one day at a time; `None` when the walk would have to step past the
/// calendar's last day.
pub fn missing_event_dates(event_days: &Vec<i32>, first: i32, last: i32) -> (r: Option<Vec<i32>>)
    requires
        valid_day(first as int),
        valid_day(last as int),
    ensures
        r is None <==> (first <= last && last == MAX_DAY),
        r matches Some(v) ==> v@ == days_without_event(event_days@, first as int, last as int),
{
    if first <= last && last == MAX_DAY {
        return None;
    }
    let mut missing: Vec<i32> = Vec::new();
    let mut cursor = first;
    while cursor <= last
        invariant
            first <= cursor,
            cursor <= last + 1 || cursor == first,
            last < MAX_DAY || first > last,
            missing@ == days_without_event(event_days@, first as int, cursor - 1),
        decreases last - cursor + 1,
    {
        let mut seen = false;
        let mut k: usize = 0;
        while k < event_days.len()
            invariant
                k <= event_days@.len(),
                seen <==> exists|j: int| 0 <= j < k && event_days@[j] == cursor,
            decreases event_days@.len() - k,
        {
            if event_days[k] == cursor {
                seen = true;
            }
            k = k + 1;
        }
        proof {
            lemma_days_without_event_step(event_days@, first as int, cursor as int, cursor as int);
            assert(days_without_event(event_days@, cursor + 1, cursor as int) =~= seq![]);
            if seen {
                let j = choose|j: int| 0 <= j < k && event_days@[j] == cursor;
                assert(event_days@.contains(cursor));
            }
        }
        if !seen {
            missing.push(cursor);
        }
        proof {
            assert(missing@ =~= days_without_event(event_days@, first as int, cursor as int));
        }
        cursor = cursor + 1;
    }
    assert(days_without_event(event_days@, first as int, cursor - 1) =~= days_without_event(
        event_days@,
        first as int,
        last as int,
    ));
    Some(missing)
}


/// The scheduled entry of a paper trade is always 05:17 UTC on the day before
/// the market's date: its timestamp falls on that day, 19020 seconds after midnight.
pub proof fn lemma_scheduled_entry_on_preceding_day(target_day: int)
    requires
        valid_day(target_day),
        target_day - 1 >= MIN_DAY,
    ensures
        spec_scheduled_entry(target_day) matches Some(t) && utc_day_of(t) == target_day - 1 && t
            - day_start_seconds(target_day - 1) == 19020,
{
    let t = day_start_seconds(target_day - 1) + 19020;
    vstd::arithmetic::div_mod::lemma_fundamental_div_mod_converse(
        t,
        86400,
        target_day - 1 - UNIX_EPOCH_DAY,
        19020,
    );
}

/// Every date from `lo` through `hi` is either the date of an event or
/// listed as missing, never both; and nothing outside the range is listed.
pub proof fn lemma_missing_days_complement(event_days: Seq<i32>, lo: int, hi: int, day: i32)
    requires
        i32::MIN <= lo,
        hi <= i32::MAX,
    ensures
        days_without_event(event_days, lo, hi).contains(day) <==> (lo <= day <= hi
            && !event_days.contains(day)),
    decreases hi - lo + 1,
{
    if lo <= hi {
        lemma_missing_days_complement(event_days, lo + 1, hi, day);
        let rest = days_without_event(event_days, lo + 1, hi);
        if !event_days.contains(lo as i32) {
            let both = seq![lo as i32] + rest;
            assert(days_without_event(event_days, lo, hi) == both);
            if both.contains(day) {
                let k = choose|k: int| 0 <= k < both.len() && #[trigger] both[k] == day;
                if k > 0 {
                    assert(rest[k - 1] == day);
                }
            }
            if day == lo {
                assert(both[0] == day);
            } else if rest.contains(day) {
                let k = choose|k: int| 0 <= k < rest.len() && #[trigger] rest[k] == day;
                assert(both[k + 1] == day);
            }
        }
    }
}

/// The day a `YYYY-MM-DD` text names, as chrono's
/// `NaiveDate::parse_from_str(text, "%Y-%m-%d")` as a day number.
pub uninterp spec fn iso_date_day(text: Seq<char>) -> Option<i32>;

/// Reads `text` as a `YYYY-MM-DD` date with `chrono::NaiveDate::parse_from_str`
/// and gives its `num_days_from_ce` day number. The contract claims that the
/// result depends on the text alone and that a parsed date lies in chrono's
/// calendar range.
#[verifier::external_body]
fn parse_iso_date(text: &str) -> (r: Option<i32>)
    ensures
        r == iso_date_day(text@),
        r matches Some(d) ==> valid_day(d as int),
{
    match chrono::NaiveDate::parse_from_str(text, "%Y-%m-%d") {
        Ok(date) => Some(chrono::Datelike::num_days_from_ce(&date)),
        Err(_) => None,
    }
}

/// The date at the start of a timestamp text such as an event's `endDate` or
/// an hourly forecast time: its first ten bytes read as `YYYY-MM-DD`; `None`
/// when the text is shorter, its tenth byte ends inside a character, or those
/// bytes are not such a date.
pub fn leading_iso_date(end_date: &str) -> (r: Option<i32>)
    ensures
        r == (if vstd::utf8::is_char_boundary(vstd::utf8::encode_utf8(end_date@), 10) {
            iso_date_day(vstd::utf8::decode_utf8(vstd::utf8::encode_utf8(end_date@).subrange(0, 10)))
        } else {
            None
        }),
        r matches Some(d) ==> valid_day(d as int),
{
    proof {
        vstd::utf8::encode_utf8_valid_utf8(end_date@);
    }
    if !end_date.is_char_boundary(10) {
        return None;
    }
    let (head, _) = end_date.split_at(10);
    proof {
        vstd::utf8::encode_utf8_decode_utf8(head@);
    }
    parse_iso_date(head)
}

/// The calendar year of a day, as chrono's `Datelike::year` gives it.
pub uninterp spec fn calendar_year_of(day: i32) -> i32;

/// The date with the same month and day as `day` in `year`, as chrono's
/// `Datelike::with_year` gives it: `None` where no such date exists (February
/// 29 outside a leap year) or it lies outside the calendar.
pub uninterp spec fn same_date_in_year(day: i32, year: i32) -> Option<i32>;

/// The year of a representable day, read with chrono's `Datelike::year`. The
/// contract claims that the result depends on the day alone and lies within
/// chrono's years.
#[verifier::external_body]
fn year_of_day(day: i32) -> (r: i32)
    requires
        valid_day(day as int),
    ensures
        r == calendar_year_of(day),
        -262143 <= r <= 262142,
{
    chrono::Datelike::year(&chrono::NaiveDate::from_num_days_from_ce_opt(day).unwrap())
}

/// The day with the same month and day as `day` in `year`, from chrono's
/// `Datelike::with_year`. The contract claims that the result depends on the
/// two arguments alone and is a representable day.
#[verifier::external_body]
fn move_to_year(day: i32, year: i32) -> (r: Option<i32>)
    requires
        valid_day(day as int),
    ensures
        r == same_date_in_year(day, year),
        r matches Some(d) ==> valid_day(d as int),
{
    match chrono::Datelike::with_year(&chrono::NaiveDate::from_num_days_from_ce_opt(day).unwrap(), year) {
        Some(date) => Some(chrono::Datelike::num_days_from_ce(&date)),
        None => None,
    }
}

/// The reference date one year before `day`, given `same_date_last_year`,
/// the same month and day in the previous year where that date exists: that
/// date, or else 365 days earlier; `None` where stepping back 365 days leaves
/// the calendar.
pub fn reference_day_from(day: i32, same_date_last_year: Option<i32>) -> (r: Option<i32>)
    requires
        valid_day(day as int),
    ensures
        r == match same_date_last_year {
            Some(d) => Some(d),
            None => if day - 365 >= MIN_DAY {
                Some((day - 365) as i32)
            } else {
                None
            },
        },
{
    match same_date_last_year {
        Some(d) => Some(d),
        None => if day - 365 >= MIN_DAY {
            Some(day - 365)
        } else {
            None
        },
    }
}

/// The reference date one year before `day`: the same month and day in the
/// previous year, or 365 days earlier when that date does not exist; `None`
/// where stepping back 365 days leaves the calendar.
pub fn last_year_reference_day(day: i32) -> (r: Option<i32>)
    requires
        valid_day(day as int),
    ensures
        r == match same_date_in_year(day, (calendar_year_of(day) - 1) as i32) {
            Some(d) => Some(d),
            None => if day - 365 >= MIN_DAY {
                Some((day - 365) as i32)
            } else {
                None
            },
        },
{
    let year = year_of_day(day);
    reference_day_from(day, move_to_year(day, year - 1))
}

} // verus!
