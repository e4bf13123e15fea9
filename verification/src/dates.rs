//! Calendar days as day numbers, and the calendar facts the planner takes
//! from `chrono`.
//!
//! A date is held as its day number in the proleptic Gregorian calendar,
//! January 1 of year 1 being day 1 (what `chrono` calls
//! `num_days_from_ce`). On day numbers, "a date plus `n` days" is `+ n`
//! and "the days between two dates" is `-`; everything else about the
//! calendar comes from `chrono` through the wrappers below.
use chrono::{DateTime, Datelike, NaiveDate, Utc, Weekday};
use num_traits::FromPrimitive;
use vstd::prelude::*;

verus! {

/// The first day `chrono` can represent (January 1 of year -262143).
pub const MIN_DAY: i32 = -95746129;

/// The last day `chrono` can represent (December 31 of year 262142).
pub const MAX_DAY: i32 = 95745399;

/// The first year `chrono` can represent.
pub const MIN_YEAR: i32 = -262143;

/// The last year `chrono` can represent.
pub const MAX_YEAR: i32 = 262142;

/// Seconds in a day.
pub const SECONDS_PER_DAY: i64 = 86400;

/// Day number of January 1, 1970, the start of Unix time.
pub const UNIX_EPOCH_DAY: i64 = 719163;

/// The local clock runs five and a half hours behind UTC.
pub const LOCAL_OFFSET_SECONDS: i64 = 19800;

/// `day` is a date `chrono` can represent.
pub open spec fn valid_day(day: int) -> bool {
    MIN_DAY <= day <= MAX_DAY
}

/// Day of the week of day number `day`, Monday being 0: day 1 (January 1
/// of year 1) is a Monday, and the weekdays repeat every seven days.
pub open spec fn weekday_number(day: int) -> int {
    (day - 1) % 7
}

/// Calendar year of day number `day`.
pub uninterp spec fn calendar_year(day: int) -> int;

/// Calendar month (1 to 12) of day number `day`.
pub uninterp spec fn calendar_month(day: int) -> int;

/// Day number of the first day of month `month` of year `year` that falls on
/// weekday `weekday` (Monday being 0).
pub uninterp spec fn first_weekday_in_month(year: int, month: int, weekday: int) -> int;

/// The text `chrono` shows for a date (`YYYY-MM-DD`).
pub uninterp spec fn date_text(day: int) -> Seq<char>;

/// The date that `chrono` reads from `text` in the format `%Y-%m-%d`, if any.
pub uninterp spec fn parsed_date(text: Seq<char>) -> Option<int>;

/// `Weekday::from_i32` of `num_traits::FromPrimitive` (as `chrono` implements
/// it), given as the day's number from Monday: the source maps 0 to Monday
/// through 6 to Sunday and every other number to `None`.
#[verifier::external_body]
pub(crate) fn weekday_from_i32(n: i32) -> (r: Option<u32>)
    ensures
        r == (if 0 <= n < 7 {
            Some(n as u32)
        } else {
            None
        }),
{
    Weekday::from_i32(n).map(|w| w.num_days_from_monday())
}

/// `NaiveDate::weekday` (as `num_days_from_monday`) of a day number; the
/// result is one of the seven weekdays and is otherwise left to `chrono`.
#[verifier::external_body]
pub(crate) fn weekday_of(day: i32) -> (r: u32)
    requires
        valid_day(day as int),
    ensures
        r as int == weekday_number(day as int),
        r < 7,
{
    NaiveDate::from_num_days_from_ce_opt(day).expect("day in range").weekday().num_days_from_monday()
}

/// `Datelike::year` of a day number; within `chrono`'s year range.
#[verifier::external_body]
pub(crate) fn year_of(day: i32) -> (r: i32)
    requires
        valid_day(day as int),
    ensures
        r as int == calendar_year(day as int),
        MIN_YEAR <= r <= MAX_YEAR,
{
    NaiveDate::from_num_days_from_ce_opt(day).expect("day in range").year()
}

/// `Datelike::month` of a day number; from 1 to 12.
#[verifier::external_body]
pub(crate) fn month_of(day: i32) -> (r: u32)
    requires
        valid_day(day as int),
    ensures
        r as int == calendar_month(day as int),
        1 <= r <= 12,
{
    NaiveDate::from_num_days_from_ce_opt(day).expect("day in range").month()
}

/// `NaiveDate::from_weekday_of_month(year, month, weekday, 1)`: the first day
/// of the month that falls on the weekday. That day is among the first seven
/// of the month, so it exists for every year and month in range.
#[verifier::external_body]
pub(crate) fn first_weekday_of_month(year: i32, month: u32, weekday: u32) -> (r: i32)
    requires
        MIN_YEAR <= year <= MAX_YEAR,
        1 <= month <= 12,
        weekday < 7,
    ensures
        r as int == first_weekday_in_month(year as int, month as int, weekday as int),
        valid_day(r as int),
{
    let weekday = Weekday::try_from(weekday as u8).expect("weekday below 7");
    NaiveDate::from_weekday_of_month_opt(year, month, weekday, 1).expect("first weekday exists").num_days_from_ce()
}

/// The `Display` text of a `NaiveDate`.
#[verifier::external_body]
pub(crate) fn format_date(day: i32) -> (r: String)
    requires
        valid_day(day as int),
    ensures
        r@ == date_text(day as int),
{
    let date = NaiveDate::from_num_days_from_ce_opt(day).expect("day in range");
    format!("{}", date)
}

/// `NaiveDate::parse_from_str(text, "%Y-%m-%d")`, as a day number; a date it
/// returns is one `chrono` represents.
#[verifier::external_body]
pub(crate) fn parse_date(text: &str) -> (r: Option<i32>)
    ensures
        r is None <==> parsed_date(text@) is None,
        r matches Some(d) ==> valid_day(d as int) && parsed_date(text@) == Some(d as int),
{
    NaiveDate::parse_from_str(text, "%Y-%m-%d").ok().map(|d| d.num_days_from_ce())
}

/// `Utc::now().timestamp()`: the current time in seconds since the Unix
/// epoch. Nothing is promised of its value beyond that it is not before the
/// epoch (`Utc::now` panics on a clock set earlier) and that its day is one
/// `chrono` represents.
#[verifier::external_body]
pub(crate) fn utc_now_seconds() -> (r: i64)
    ensures
        r >= 0,
        valid_day(r as int / SECONDS_PER_DAY as int + UNIX_EPOCH_DAY as int),
{
    Utc::now().timestamp()
}

/// The date part of `DateTime::from_timestamp(secs, 0)`: the source computes it as
/// the Euclidean quotient of `secs` by the seconds of a day, offset by the
/// day number of the epoch, and returns `None` exactly when that day is out
/// of range.
#[verifier::external_body]
pub(crate) fn date_of_timestamp(secs: i64) -> (r: Option<i32>)
    ensures
        r == (if valid_day(secs as int / SECONDS_PER_DAY as int + UNIX_EPOCH_DAY as int) {
            Some((secs as int / SECONDS_PER_DAY as int + UNIX_EPOCH_DAY as int) as i32)
        } else {
            None
        }),
{
    DateTime::from_timestamp(secs, 0).map(|t| t.date_naive().num_days_from_ce())
}

/// The local day number of the Unix time `secs`: the local clock runs
/// `LOCAL_OFFSET_SECONDS` behind UTC, and a day starts at midnight.
pub open spec fn local_day(secs: int) -> int {
    (secs - LOCAL_OFFSET_SECONDS) / SECONDS_PER_DAY as int + UNIX_EPOCH_DAY as int
}

/// The local date of the Unix time `secs`; `None` when that date is not one
/// `chrono` represents.
pub fn local_date(secs: i64) -> (r: Option<i32>)
    ensures
        r == (if valid_day(local_day(secs as int)) {
            Some(local_day(secs as int) as i32)
        } else {
            None
        }),
{
    if secs < i64::MIN + LOCAL_OFFSET_SECONDS {
        assert((secs - LOCAL_OFFSET_SECONDS) / SECONDS_PER_DAY as int <= -1_000_000_000) by (nonlinear_arith)
            requires
                secs - LOCAL_OFFSET_SECONDS < -9_000_000_000_000_000_000int,
                SECONDS_PER_DAY == 86400,
        ;
        return None;
    }
    date_of_timestamp(secs - LOCAL_OFFSET_SECONDS)
}

/// Today's date on the local clock, which runs `LOCAL_OFFSET_SECONDS` behind
/// UTC: the [`local_date`] of the current UTC time. The clock does not read
/// before the Unix epoch, so the day is no earlier than the last day of 1969.
pub fn now() -> (r: i32)
    ensures
        valid_day(r as int),
        r >= UNIX_EPOCH_DAY - 1,
{
    let secs = utc_now_seconds();
    proof {
        let a = secs as int;
        assert((a - LOCAL_OFFSET_SECONDS) / 86400 <= a / 86400 && (a - LOCAL_OFFSET_SECONDS) / 86400 >= -1)
            by (nonlinear_arith)
            requires
                a >= 0,
                LOCAL_OFFSET_SECONDS == 19800,
        ;
    }
    match local_date(secs) {
        Some(d) => d,
        None => {
            proof {
                assert(false);
            }
            MIN_DAY
        },
    }
}

} // verus!
