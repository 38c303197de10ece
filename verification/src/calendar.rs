//! Calendar dates as day numbers, by way of `chrono`.
//!
//! A timestamp is stored either as nanoseconds since the Unix epoch or as a
//! year, a day of the year and a time of day. Going from one to the other
//! takes the proleptic Gregorian calendar, which `chrono` supplies; the
//! arithmetic around it is this library's own.

use chrono::Datelike;
use chrono::NaiveDate;
use vstd::prelude::*;

verus! {

/// The day number that `chrono` gives to the `ordinal`-th day of `year`,
/// counting from January 1 of the year 1 as day 1; `None` where `chrono` has
/// no such date.
pub uninterp spec fn day_number(year: i32, ordinal: u32) -> Option<i32>;

/// The year and the day of the year on which `chrono` puts the day with the
/// number `days`; `None` where the day is out of its range.
pub uninterp spec fn date_of_day(days: i32) -> Option<(i32, u32)>;

/// The day number of January 1, 1970.
pub const UNIX_EPOCH_DAY: i64 = 719_163;

/// `NaiveDate::from_yo_opt` followed by `Datelike::num_days_from_ce`: the
/// date's day number, `None` where the first call finds no date.
#[verifier::external_body]
pub(crate) fn day_number_of(year: i32, ordinal: u32) -> (r: Option<i32>)
    ensures
        r == day_number(year, ordinal),
{
    match NaiveDate::from_yo_opt(year, ordinal) {
        Some(date) => Some(date.num_days_from_ce()),
        None => None,
    }
}

/// `NaiveDate::from_num_days_from_ce_opt`, read with `Datelike::year` and
/// `Datelike::ordinal`: the date of a day number, `None` where the call
/// finds no date.
#[verifier::external_body]
pub(crate) fn date_of_day_number(days: i32) -> (r: Option<(i32, u32)>)
    ensures
        r == date_of_day(days),
{
    match NaiveDate::from_num_days_from_ce_opt(days) {
        Some(date) => Some((date.year(), date.ordinal())),
        None => None,
    }
}

/// The month and the day of the month on which `chrono` puts the
/// `ordinal`-th day of `year`; `None` where `chrono` has no such date.
pub uninterp spec fn month_day(year: i32, ordinal: u32) -> Option<(u32, u32)>;

/// `NaiveDate::from_yo_opt`, read with `Datelike::month` and
/// `Datelike::day`: the month and the day of the month of a date, `None`
/// where the first call finds no date.
#[verifier::external_body]
pub(crate) fn month_day_of(year: i32, ordinal: u32) -> (r: Option<(u32, u32)>)
    ensures
        r == month_day(year, ordinal),
{
    match NaiveDate::from_yo_opt(year, ordinal) {
        Some(date) => Some((date.month(), date.day())),
        None => None,
    }
}

/// The day number of January 1, 2000, from which the days of a date are
/// counted.
pub const PG_EPOCH_DAY: i64 = 730_120;

/// A year and a day of the year name a date when the calendar gives them a
/// day number and gives that number the same year and day back.
pub open spec fn date_valid(year: i32, ordinal: u32) -> bool {
    day_number(year, ordinal) matches Some(days) && date_of_day(days) == Some((year, ordinal))
}

/// Whether `year` and `ordinal` name a date.
pub fn is_date_valid(year: i32, ordinal: u32) -> (ok: bool)
    ensures
        ok == date_valid(year, ordinal),
{
    match day_number_of(year, ordinal) {
        None => false,
        Some(days) => match date_of_day_number(days) {
            None => false,
            Some((y, o)) => y == year && o == ordinal,
        },
    }
}

/// A time of day: fewer than 86 400 seconds since midnight, and a fraction
/// below a second, or below two in the last second of a minute, which is how
/// a leap second is written.
pub open spec fn time_valid(secs: u32, nanos: u32) -> bool {
    secs < 86_400 && nanos < 2_000_000_000 && (nanos < 1_000_000_000 || secs % 60 == 59)
}

/// Whether `secs` and `nanos` are a time of day.
pub fn is_time_valid(secs: u32, nanos: u32) -> (ok: bool)
    ensures
        ok == time_valid(secs, nanos),
{
    secs < 86_400 && nanos < 2_000_000_000 && (nanos < 1_000_000_000 || secs % 60 == 59)
}

} // verus!
