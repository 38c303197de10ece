//! Dates, times of day and timestamps as text.
//!
//! A date is written as its year, month and day, the year in four digits
//! or more and counted backwards with `BC` behind it before the year one. A
//! time of day is written as its hour, minute and second, with the fraction
//! of the second in microseconds behind a point where there is one.

use crate::calendar::{
    date_of_day, date_of_day_number, month_day, month_day_of, PG_EPOCH_DAY,
};
use crate::datum::{Date, DateTime, Time};
use crate::nested::decimal_digits;
use crate::strconv::{format_nanos_to_micros, nanos_text, Nestable};
use vstd::prelude::*;

verus! {

/// `v` in decimal digits, with zeros in front up to `width` digits.
pub open spec fn padded(v: nat, width: nat) -> Seq<u8>
    decreases width,
{
    if width <= decimal_digits(v).len() {
        decimal_digits(v)
    } else {
        seq![48u8] + padded(v, (width - 1) as nat)
    }
}

fn count_digits(v: u64) -> (n: usize)
    ensures
        n == decimal_digits(v as nat).len(),
        1 <= n <= 20,
    decreases v,
{
    if v < 10 {
        1
    } else {
        let n = count_digits(v / 10);
        proof {
            lemma_digits_bound(v as nat);
        }
        n + 1
    }
}

/// A number below two to the power of sixty-four has twenty digits at the
/// most.
proof fn lemma_digits_bound(v: nat)
    requires
        v <= u64::MAX,
    ensures
        1 <= decimal_digits(v).len() <= 20,
{
    reveal_with_fuel(decimal_digits, 21);
}

fn write_digits(buf: &mut Vec<u8>, v: u64)
    ensures
        final(buf)@ == old(buf)@ + decimal_digits(v as nat),
    decreases v,
{
    if v < 10 {
        buf.push(48 + v as u8);
        assert(buf@ =~= old(buf)@ + decimal_digits(v as nat));
    } else {
        write_digits(buf, v / 10);
        buf.push(48 + (v % 10) as u8);
        assert(buf@ =~= old(buf)@ + decimal_digits(v as nat));
    }
}

/// Writes `v` in decimal digits, with zeros in front up to `width` digits.
pub fn write_padded(buf: &mut Vec<u8>, v: u64, width: usize)
    ensures
        final(buf)@ == old(buf)@ + padded(v as nat, width as nat),
{
    let digits = count_digits(v);
    let mut left = width;
    while left > digits
        invariant
            digits == decimal_digits(v as nat).len(),
            left <= width,
            buf@ + padded(v as nat, left as nat) == old(buf)@ + padded(v as nat, width as nat),
        decreases left,
    {
        let ghost before = buf@;
        buf.push(48);
        assert(buf@ + padded(v as nat, (left - 1) as nat) =~= before + (seq![48u8] + padded(
            v as nat,
            (left - 1) as nat,
        )));
        left = left - 1;
    }
    write_digits(buf, v);
}

/// The time of day `t` as text: the hour, the minute and the second in two
/// digits each with colons between them, the second counting sixty within
/// a leap second, and the fraction of the second behind them.
pub open spec fn time_text(t: Time) -> Seq<u8> {
    padded((t.secs / 3600) as nat, 2) + seq![58u8] + padded((t.secs / 60 % 60) as nat, 2) + seq![
        58u8,
    ] + padded((t.secs % 60 + t.nanos / 1_000_000_000) as nat, 2) + nanos_text(t.nanos)
}

/// Writes the time of day `t`.
pub fn format_time(buf: &mut Vec<u8>, t: Time) -> (nestable: Nestable)
    ensures
        nestable == Nestable::Yes,
        final(buf)@ == old(buf)@ + time_text(t),
{
    write_padded(buf, (t.secs / 3600) as u64, 2);
    buf.push(58);
    write_padded(buf, (t.secs / 60 % 60) as u64, 2);
    buf.push(58);
    write_padded(buf, (t.secs % 60 + t.nanos / 1_000_000_000) as u64, 2);
    format_nanos_to_micros(buf, t.nanos);
    assert(buf@ =~= old(buf)@ + time_text(t));
    Nestable::Yes
}

/// The number of the year `year` as it is written: the year itself from
/// the year one on, and before it the years counted backwards from one.
pub open spec fn year_number(year: i32) -> nat {
    if year < 1 {
        (1 - year) as nat
    } else {
        year as nat
    }
}

/// The day of the month `month` and the day `day` in the year `year` as
/// text: the year in four digits or more, the month and the day in two, with
/// hyphens between them.
pub open spec fn day_text(year: i32, month: u32, day: u32) -> Seq<u8> {
    padded(year_number(year), 4) + seq![45u8] + padded(month as nat, 2) + seq![45u8] + padded(
        day as nat,
        2,
    )
}

/// What is written behind the date of a year before the year one.
pub open spec fn era_text(year: i32) -> Seq<u8> {
    if year < 1 {
        seq![32u8, 66u8, 67u8]
    } else {
        Seq::<u8>::empty()
    }
}

fn write_day(buf: &mut Vec<u8>, year: i32, month: u32, day: u32)
    ensures
        final(buf)@ == old(buf)@ + day_text(year, month, day),
{
    let number: u64 = if year < 1 {
        (1 - year as i64) as u64
    } else {
        year as u64
    };
    write_padded(buf, number, 4);
    buf.push(45);
    write_padded(buf, month as u64, 2);
    buf.push(45);
    write_padded(buf, day as u64, 2);
    assert(buf@ =~= old(buf)@ + day_text(year, month, day));
}

fn write_era(buf: &mut Vec<u8>, year: i32)
    ensures
        final(buf)@ == old(buf)@ + era_text(year),
{
    if year < 1 {
        buf.push(32);
        buf.push(66);
        buf.push(67);
    }
    assert(buf@ =~= old(buf)@ + era_text(year));
}

/// The year, the month and the day of the date `d`, where the calendar
/// has the day.
pub open spec fn civil(d: Date) -> Option<(i32, u32, u32)> {
    let days = d.pg_epoch_days + PG_EPOCH_DAY;
    if i32::MIN <= days <= i32::MAX {
        match date_of_day(days as i32) {
            None => None,
            Some((year, ordinal)) => match month_day(year, ordinal) {
                None => None,
                Some((month, day)) => Some((year, month, day)),
            },
        }
    } else {
        None
    }
}

/// The date `d` as text.
pub open spec fn date_text(year: i32, month: u32, day: u32) -> Seq<u8> {
    day_text(year, month, day) + era_text(year)
}

/// Writes the date `d`, if the calendar has it; nothing is written
/// otherwise.
pub fn format_date(buf: &mut Vec<u8>, d: Date) -> (r: Option<Nestable>)
    ensures
        match r {
            Some(nestable) => nestable == Nestable::Yes && (civil(d) matches Some(
                (year, month, day),
            ) && final(buf)@ == old(buf)@ + date_text(year, month, day)),
            None => civil(d) is None && final(buf)@ == old(buf)@,
        },
{
    let days = d.pg_epoch_days as i64 + PG_EPOCH_DAY;
    if days < i32::MIN as i64 || days > i32::MAX as i64 {
        return None;
    }
    let (year, ordinal) = match date_of_day_number(days as i32) {
        Some(date) => date,
        None => {
            return None;
        },
    };
    let (month, day) = match month_day_of(year, ordinal) {
        Some(date) => date,
        None => {
            return None;
        },
    };
    write_day(buf, year, month, day);
    write_era(buf, year);
    Some(Nestable::Yes)
}

/// The timestamp on the day `month` and `day` of the year `year` at the
/// time `t` as text, with `zone` behind the time: the date, a blank, and
/// the time of day.
pub open spec fn timestamp_text(year: i32, month: u32, day: u32, t: Time, zone: Seq<u8>) -> Seq<
    u8,
> {
    day_text(year, month, day) + seq![32u8] + time_text(t) + zone + era_text(year)
}

fn write_timestamp(buf: &mut Vec<u8>, ts: &DateTime, zone: &[u8]) -> (r: Option<Nestable>)
    ensures
        match r {
            Some(nestable) => nestable == Nestable::MayNeedEscaping && (month_day(
                ts.year,
                ts.ordinal,
            ) matches Some((month, day)) && final(buf)@ == old(buf)@ + timestamp_text(
                ts.year,
                month,
                day,
                ts.time,
                zone@,
            )),
            None => month_day(ts.year, ts.ordinal) is None && final(buf)@ == old(buf)@,
        },
{
    let (month, day) = match month_day_of(ts.year, ts.ordinal) {
        Some(date) => date,
        None => {
            return None;
        },
    };
    write_day(buf, ts.year, month, day);
    buf.push(32);
    let _ = format_time(buf, ts.time);
    crate::strconv::write_bytes(buf, zone);
    write_era(buf, ts.year);
    assert(buf@ =~= old(buf)@ + timestamp_text(ts.year, month, day, ts.time, zone@));
    // The blank in it may always need to be escaped.
    Some(Nestable::MayNeedEscaping)
}

/// Writes the timestamp `ts`, if the calendar has its day; nothing is
/// written otherwise.
pub fn format_timestamp(buf: &mut Vec<u8>, ts: &DateTime) -> (r: Option<Nestable>)
    ensures
        match r {
            Some(nestable) => nestable == Nestable::MayNeedEscaping && (month_day(
                ts.year,
                ts.ordinal,
            ) matches Some((month, day)) && final(buf)@ == old(buf)@ + timestamp_text(
                ts.year,
                month,
                day,
                ts.time,
                Seq::<u8>::empty(),
            )),
            None => month_day(ts.year, ts.ordinal) is None && final(buf)@ == old(buf)@,
        },
{
    let zone: [u8; 0] = [];
    assert(zone@ =~= Seq::<u8>::empty());
    write_timestamp(buf, ts, zone.as_slice())
}

/// Writes the timestamp `ts` in the time zone of the system's time, with
/// `+00` behind the time, if the calendar has its day; nothing is written
/// otherwise.
pub fn format_timestamptz(buf: &mut Vec<u8>, ts: &DateTime) -> (r: Option<Nestable>)
    ensures
        match r {
            Some(nestable) => nestable == Nestable::MayNeedEscaping && (month_day(
                ts.year,
                ts.ordinal,
            ) matches Some((month, day)) && final(buf)@ == old(buf)@ + timestamp_text(
                ts.year,
                month,
                day,
                ts.time,
                seq![43u8, 48u8, 48u8],
            )),
            None => month_day(ts.year, ts.ordinal) is None && final(buf)@ == old(buf)@,
        },
{
    let zone: [u8; 3] = [43, 48, 48];
    assert(zone@ =~= seq![43u8, 48u8, 48u8]);
    write_timestamp(buf, ts, zone.as_slice())
}

} // verus!
