//! The packed form of a datum, and the code that writes it.
//!
//! Every datum opens with a tag. An integer is followed by the fewest bytes
//! that hold it; a byte string, a string and a list by their length in one,
//! two, four or eight bytes, chosen by the length, and then their bytes; a
//! timestamp by eight bytes of nanoseconds where that loses nothing, and by
//! sixteen bytes of calendar fields otherwise.

use crate::buffer::{buffer_bytes, buffer_extend, buffer_limit, buffer_push};
use crate::calendar::{day_number, day_number_of, UNIX_EPOCH_DAY};
use crate::datum::{BoundView, Datum, DateTime, DatumView, Numeric, RangeBound, Time};
use crate::tag::Tag;
use crate::varint::{
    le_bytes, le_bytes_of, le_bytes_of_signed, lemma_le_bytes_len, lemma_min_bytes_bound,
    lemma_min_bytes_fits, lemma_pow256_values, min_bytes, min_bytes_signed, min_bytes_signed_spec,
    min_bytes_unsigned, pow256,
};
use compact_bytes::CompactBytes;
use vstd::prelude::*;

verus! {

/// The flag of the empty range, which stands alone.
pub const RANGE_EMPTY: u8 = 1;

/// The flag of a range whose lower end belongs to it.
pub const RANGE_LB_INCLUSIVE: u8 = 2;

/// The flag of a range without a lower end.
pub const RANGE_LB_INFINITE: u8 = 4;

/// The flag of a range whose upper end belongs to it.
pub const RANGE_UB_INCLUSIVE: u8 = 8;

/// The flag of a range without an upper end.
pub const RANGE_UB_INFINITE: u8 = 16;

/// Which of the four length forms a payload of `len` bytes takes.
pub open spec fn length_class(len: nat) -> nat {
    if len < 0x100 {
        0
    } else if len < 0x1_0000 {
        1
    } else if len < 0x1_0000_0000 {
        2
    } else {
        3
    }
}

/// The number of bytes in which the length form `class` writes a length.
pub open spec fn length_width(class: nat) -> nat {
    if class == 0 {
        1
    } else if class == 1 {
        2
    } else if class == 2 {
        4
    } else {
        8
    }
}

/// A payload behind its length: the tag, which is `tiny` for the shortest
/// form and one more for each longer form, the length, and the payload.
pub open spec fn lengthed_encoding(tiny: Tag, payload: Seq<u8>) -> Seq<u8> {
    let class = length_class(payload.len());
    seq![(tiny.byte() + class) as u8] + le_bytes(payload.len() as int, length_width(class))
        + payload
}

/// A signed integer: the first tag of the run for its sign plus its width,
/// then its low bytes.
pub open spec fn signed_encoding(nonneg: Tag, neg: Tag, v: int) -> Seq<u8> {
    let n = min_bytes_signed_spec(v);
    let base = if v >= 0 {
        nonneg.byte()
    } else {
        neg.byte()
    };
    seq![(base + n) as u8] + le_bytes(v, n)
}

/// An unsigned integer: the first tag of its run plus its width, then its
/// bytes.
pub open spec fn unsigned_encoding(zero: Tag, v: int) -> Seq<u8> {
    let n = min_bytes(v);
    seq![(zero.byte() + n) as u8] + le_bytes(v, n)
}

/// The seconds from the Unix epoch to the second in which `t` lies.
pub open spec fn unix_seconds(days: i32, secs: u32) -> int {
    (days - UNIX_EPOCH_DAY) * 86_400 + secs
}

/// The nanoseconds from the Unix epoch to `t`, where they can be taken for
/// `t`: outside a leap second, and where the whole seconds in nanoseconds and
/// then the sum fit in 64 bits.
pub open spec fn unix_nanos(t: DateTime) -> Option<int> {
    match day_number(t.year, t.ordinal) {
        None => None,
        Some(days) => day_nanos(days, t.time),
    }
}

/// The nanoseconds from the Unix epoch to the time `time` of the day with
/// the number `days`, outside a leap second and where the whole seconds in
/// nanoseconds and then the sum fit in 64 bits.
pub open spec fn day_nanos(days: i32, time: Time) -> Option<int> {
    let whole = unix_seconds(days, time.secs) * 1_000_000_000;
    if time.nanos >= 1_000_000_000 || whole < i64::MIN || whole > i64::MAX || whole + time.nanos
        > i64::MAX {
        None
    } else {
        Some(whole + time.nanos)
    }
}

/// A time of day: the seconds and the nanoseconds, four bytes each.
pub open spec fn time_bytes(t: Time) -> Seq<u8> {
    le_bytes(t.secs as int, 4) + le_bytes(t.nanos as int, 4)
}

/// A timestamp: under `cheap` its nanoseconds since the Unix epoch where it
/// has them, under `full` its year, day of the year and time of day.
pub open spec fn timestamp_encoding(cheap: Tag, full: Tag, t: DateTime) -> Seq<u8> {
    match unix_nanos(t) {
        Some(nanos) => seq![cheap.byte()] + le_bytes(nanos, 8),
        None => seq![full.byte()] + le_bytes(t.year as int, 4) + le_bytes(t.ordinal as int, 4)
            + time_bytes(t.time),
    }
}

/// The coefficient units of a numeric, two bytes each.
pub open spec fn lsu_bytes(lsu: Seq<u16>) -> Seq<u8>
    decreases lsu.len(),
{
    if lsu.len() == 0 {
        Seq::<u8>::empty()
    } else {
        lsu_bytes(lsu.drop_last()) + le_bytes(lsu.last() as int, 2)
    }
}

/// The flags of a range that is not empty.
pub open spec fn range_flags(lower: BoundView, upper: BoundView) -> u8 {
    ((if lower.inclusive {
        RANGE_LB_INCLUSIVE as int
    } else {
        0
    }) + (if lower.bound is None {
        RANGE_LB_INFINITE as int
    } else {
        0
    }) + (if upper.inclusive {
        RANGE_UB_INCLUSIVE as int
    } else {
        0
    }) + (if upper.bound is None {
        RANGE_UB_INFINITE as int
    } else {
        0
    })) as u8
}

/// The packed form of one end of a range: that of its datum, or nothing.
pub open spec fn bound_encoding(b: BoundView) -> Seq<u8>
    decreases b,
{
    match b.bound {
        None => Seq::<u8>::empty(),
        Some(d) => encode_datum(*d),
    }
}

/// The packed form of a datum.
pub open spec fn encode_datum(d: DatumView) -> Seq<u8>
    decreases d,
{
    match d {
        DatumView::Null => seq![Tag::Null.byte()],
        DatumView::False => seq![Tag::False.byte()],
        DatumView::True => seq![Tag::True.byte()],
        DatumView::Int16(i) => signed_encoding(
            Tag::NonNegativeInt16_0,
            Tag::NegativeInt16_0,
            i as int,
        ),
        DatumView::Int32(i) => signed_encoding(
            Tag::NonNegativeInt32_0,
            Tag::NegativeInt32_0,
            i as int,
        ),
        DatumView::Int64(i) => signed_encoding(
            Tag::NonNegativeInt64_0,
            Tag::NegativeInt64_0,
            i as int,
        ),
        DatumView::UInt8(i) => unsigned_encoding(Tag::UInt8_0, i as int),
        DatumView::UInt16(i) => unsigned_encoding(Tag::UInt16_0, i as int),
        DatumView::UInt32(i) => unsigned_encoding(Tag::UInt32_0, i as int),
        DatumView::UInt64(i) => unsigned_encoding(Tag::UInt64_0, i as int),
        DatumView::Float32(bits) => seq![Tag::Float32.byte()] + le_bytes(bits as int, 4),
        DatumView::Float64(bits) => seq![Tag::Float64.byte()] + le_bytes(bits as int, 8),
        DatumView::Date(date) => seq![Tag::Date.byte()] + le_bytes(date.pg_epoch_days as int, 4),
        DatumView::Time(t) => seq![Tag::Time.byte()] + time_bytes(t),
        DatumView::Timestamp(t) => timestamp_encoding(Tag::CheapTimestamp, Tag::Timestamp, t),
        DatumView::TimestampTz(t) => timestamp_encoding(
            Tag::CheapTimestampTz,
            Tag::TimestampTz,
            t,
        ),
        DatumView::Interval(i) => seq![Tag::Interval.byte()] + le_bytes(i.months as int, 4)
            + le_bytes(i.days as int, 4) + le_bytes(i.micros as int, 8),
        DatumView::Bytes(b) => lengthed_encoding(Tag::BytesTiny, b),
        DatumView::String(s) => lengthed_encoding(Tag::StringTiny, vstd::utf8::encode_utf8(s)),
        DatumView::List(l) => lengthed_encoding(Tag::ListTiny, l),
        DatumView::Uuid(u) => seq![Tag::Uuid.byte()] + u,
        DatumView::Array { dims, elements } => seq![Tag::Array.byte(), (dims.len() / 16) as u8]
            + dims + le_bytes(elements.len() as int, 8) + elements,
        DatumView::Dict(m) => seq![Tag::Dict.byte()] + le_bytes(m.len() as int, 8) + m,
        DatumView::JsonNull => seq![Tag::JsonNull.byte()],
        DatumView::Dummy => seq![Tag::Dummy.byte()],
        DatumView::MzTimestamp(t) => seq![Tag::MzTimestamp.byte()] + le_bytes(t as int, 8),
        DatumView::Numeric(n) => seq![Tag::Numeric.byte(), n.digits] + le_bytes(
            n.exponent as int,
            1,
        ) + seq![n.bits] + lsu_bytes(n.lsu),
        DatumView::EmptyRange => seq![Tag::Range.byte(), RANGE_EMPTY],
        DatumView::Range { lower, upper } => seq![Tag::Range.byte(), range_flags(lower, upper)]
            + bound_encoding(lower) + bound_encoding(upper),
    }
}

/// The packed forms of the datums of `ds`, one after the other.
pub open spec fn encode_datums(ds: Seq<DatumView>) -> Seq<u8>
    decreases ds.len(),
{
    if ds.len() == 0 {
        Seq::<u8>::empty()
    } else {
        encode_datums(ds.drop_last()) + encode_datum(ds.last())
    }
}

/// Every datum of `ds` can be packed.
pub open spec fn all_wf(ds: Seq<DatumView>) -> bool {
    forall|i: int| 0 <= i < ds.len() ==> (#[trigger] ds[i]).wf()
}

pub proof fn lemma_lsu_bytes_len(lsu: Seq<u16>)
    ensures
        lsu_bytes(lsu).len() == 2 * lsu.len(),
    decreases lsu.len(),
{
    if lsu.len() > 0 {
        lemma_lsu_bytes_len(lsu.drop_last());
        lemma_le_bytes_len(lsu.last() as int, 2);
    }
}

/// The packed form of a datum begins with its tag and is never empty.
pub proof fn lemma_encode_nonempty(d: DatumView)
    ensures
        encode_datum(d).len() >= 1,
{
}

fn push_tag(data: &mut CompactBytes, tag: Tag)
    requires
        buffer_bytes(*old(data)).len() + 1 <= buffer_limit(),
    ensures
        buffer_bytes(*final(data)) == buffer_bytes(*old(data)) + seq![tag.byte()],
{
    buffer_push(data, tag.to_byte());
    assert(buffer_bytes(*old(data)).push(tag.byte()) =~= buffer_bytes(*old(data)) + seq![
        tag.byte(),
    ]);
}

fn push_byte(data: &mut CompactBytes, byte: u8)
    requires
        buffer_bytes(*old(data)).len() + 1 <= buffer_limit(),
    ensures
        buffer_bytes(*final(data)) == buffer_bytes(*old(data)) + seq![byte],
{
    buffer_push(data, byte);
    assert(buffer_bytes(*old(data)).push(byte) =~= buffer_bytes(*old(data)) + seq![byte]);
}

fn push_le(data: &mut CompactBytes, v: u64, n: u8)
    requires
        n <= 8,
        buffer_bytes(*old(data)).len() + n <= buffer_limit(),
    ensures
        buffer_bytes(*final(data)) == buffer_bytes(*old(data)) + le_bytes(v as int, n as nat),
{
    proof {
        lemma_le_bytes_len(v as int, n as nat);
    }
    let bytes = le_bytes_of(v, n);
    buffer_extend(data, bytes.as_slice());
}

fn push_le_signed(data: &mut CompactBytes, v: i64, n: u8)
    requires
        n <= 8,
        -pow256(n as nat) <= v < pow256(n as nat),
        buffer_bytes(*old(data)).len() + n <= buffer_limit(),
    ensures
        buffer_bytes(*final(data)) == buffer_bytes(*old(data)) + le_bytes(v as int, n as nat),
{
    proof {
        lemma_le_bytes_len(v as int, n as nat);
    }
    let bytes = le_bytes_of_signed(v, n);
    buffer_extend(data, bytes.as_slice());
}

/// Writes the length of `bytes` in the form that `tag` names, then `bytes`.
fn push_lengthed_bytes(data: &mut CompactBytes, bytes: &[u8], class: u8)
    requires
        class == length_class(bytes@.len()),
        buffer_bytes(*old(data)).len() + length_width(class as nat) + bytes@.len()
            <= buffer_limit(),
    ensures
        buffer_bytes(*final(data)) == buffer_bytes(*old(data)) + le_bytes(
            bytes@.len() as int,
            length_width(class as nat),
        ) + bytes@,
{
    let len = bytes.len() as u64;
    if class == 0 {
        push_le(data, len, 1);
    } else if class == 1 {
        push_le(data, len, 2);
    } else if class == 2 {
        push_le(data, len, 4);
    } else {
        push_le(data, len, 8);
    }
    proof {
        lemma_le_bytes_len(bytes@.len() as int, length_width(class as nat));
    }
    buffer_extend(data, bytes);
}

/// Writes `bytes` behind its length, under `tiny` or the tag of the longer
/// form that the length asks for.
fn push_lengthed(data: &mut CompactBytes, tiny: Tag, short: Tag, long: Tag, huge: Tag, bytes: &[u8])
    requires
        short.byte() == tiny.byte() + 1,
        long.byte() == tiny.byte() + 2,
        huge.byte() == tiny.byte() + 3,
        buffer_bytes(*old(data)).len() + lengthed_encoding(tiny, bytes@).len() <= buffer_limit(),
    ensures
        buffer_bytes(*final(data)) == buffer_bytes(*old(data)) + lengthed_encoding(tiny, bytes@),
{
    let len = bytes.len() as u64;
    proof {
        lemma_le_bytes_len(bytes@.len() as int, length_width(length_class(bytes@.len())));
    }
    let ghost start = buffer_bytes(*data);
    if len < 0x100 {
        push_tag(data, tiny);
        push_lengthed_bytes(data, bytes, 0);
    } else if len < 0x1_0000 {
        push_tag(data, short);
        push_lengthed_bytes(data, bytes, 1);
    } else if len < 0x1_0000_0000 {
        push_tag(data, long);
        push_lengthed_bytes(data, bytes, 2);
    } else {
        push_tag(data, huge);
        push_lengthed_bytes(data, bytes, 3);
    }
    assert(buffer_bytes(*data) =~= start + lengthed_encoding(tiny, bytes@));
}

/// Writes `bytes` behind its length in eight bytes.
fn push_untagged_bytes(data: &mut CompactBytes, bytes: &[u8])
    requires
        buffer_bytes(*old(data)).len() + 8 + bytes@.len() <= buffer_limit(),
    ensures
        buffer_bytes(*final(data)) == buffer_bytes(*old(data)) + le_bytes(bytes@.len() as int, 8)
            + bytes@,
{
    push_le(data, bytes.len() as u64, 8);
    proof {
        lemma_le_bytes_len(bytes@.len() as int, 8);
    }
    buffer_extend(data, bytes);
}

fn push_signed(data: &mut CompactBytes, nonneg: Tag, neg: Tag, v: i64)
    requires
        buffer_bytes(*old(data)).len() + signed_encoding(nonneg, neg, v as int).len()
            <= buffer_limit(),
    ensures
        buffer_bytes(*final(data)) == buffer_bytes(*old(data)) + signed_encoding(
            nonneg,
            neg,
            v as int,
        ),
{
    let mbs = min_bytes_signed(v);
    let base = if v < 0 {
        neg.to_byte()
    } else {
        nonneg.to_byte()
    };
    proof {
        nonneg.lemma_of_byte_byte();
        neg.lemma_of_byte_byte();
        lemma_le_bytes_len(v as int, mbs as nat);
        if v >= 0 {
            lemma_min_bytes_fits(v as int);
        } else {
            lemma_min_bytes_fits(-(v as int) - 1);
        }
    }
    let ghost start = buffer_bytes(*data);
    push_byte(data, base + mbs);
    push_le_signed(data, v, mbs);
    assert(buffer_bytes(*data) =~= start + signed_encoding(nonneg, neg, v as int));
}

fn push_unsigned(data: &mut CompactBytes, zero: Tag, v: u64)
    requires
        buffer_bytes(*old(data)).len() + unsigned_encoding(zero, v as int).len() <= buffer_limit(),
    ensures
        buffer_bytes(*final(data)) == buffer_bytes(*old(data)) + unsigned_encoding(zero, v as int),
{
    let mbu = min_bytes_unsigned(v);
    proof {
        zero.lemma_of_byte_byte();
        lemma_le_bytes_len(v as int, mbu as nat);
    }
    let ghost start = buffer_bytes(*data);
    push_byte(data, zero.to_byte() + mbu);
    push_le(data, v, mbu);
    assert(buffer_bytes(*data) =~= start + unsigned_encoding(zero, v as int));
}

fn push_time(data: &mut CompactBytes, time: Time)
    requires
        buffer_bytes(*old(data)).len() + 8 <= buffer_limit(),
    ensures
        buffer_bytes(*final(data)) == buffer_bytes(*old(data)) + time_bytes(time),
{
    let ghost start = buffer_bytes(*data);
    proof {
        lemma_le_bytes_len(time.secs as int, 4);
        lemma_le_bytes_len(time.nanos as int, 4);
    }
    push_le(data, time.secs as u64, 4);
    push_le(data, time.nanos as u64, 4);
    assert(buffer_bytes(*data) =~= start + time_bytes(time));
}

/// The nanoseconds from the Unix epoch to `t`, if `t` can be restored from
/// them: not in a leap second, and not so far from the epoch that they
/// overflow 64 bits.
pub fn checked_timestamp_nanos(t: &DateTime) -> (r: Option<i64>)
    ensures
        match r {
            Some(nanos) => unix_nanos(*t) == Some(nanos as int),
            None => unix_nanos(*t) is None,
        },
{
    match day_number_of(t.year, t.ordinal) {
        None => None,
        Some(days) => nanos_of_day(days, &t.time),
    }
}

/// The nanoseconds from the Unix epoch to the time `time` of the day with
/// the number `days`; none in a leap second, and none where they overflow
/// 64 bits.
pub fn nanos_of_day(days: i32, time: &Time) -> (r: Option<i64>)
    ensures
        match r {
            Some(nanos) => day_nanos(days, *time) == Some(nanos as int),
            None => day_nanos(days, *time) is None,
        },
{
    if time.nanos >= 1_000_000_000 {
        return None;
    }
    let secs: i64 = (days as i64 - UNIX_EPOCH_DAY) * 86_400 + time.secs as i64;
    match secs.checked_mul(1_000_000_000) {
        None => None,
        Some(whole) => whole.checked_add(time.nanos as i64),
    }
}

fn push_timestamp(data: &mut CompactBytes, cheap: Tag, full: Tag, t: &DateTime)
    requires
        t.wf(),
        buffer_bytes(*old(data)).len() + timestamp_encoding(cheap, full, *t).len()
            <= buffer_limit(),
    ensures
        buffer_bytes(*final(data)) == buffer_bytes(*old(data)) + timestamp_encoding(
            cheap,
            full,
            *t,
        ),
{
    let ghost start = buffer_bytes(*data);
    proof {
        lemma_pow256_values();
        lemma_le_bytes_len(t.year as int, 4);
        lemma_le_bytes_len(t.ordinal as int, 4);
        lemma_le_bytes_len(t.time.secs as int, 4);
        lemma_le_bytes_len(t.time.nanos as int, 4);
    }
    match checked_timestamp_nanos(t) {
        Some(nanos) => {
            proof {
                lemma_le_bytes_len(nanos as int, 8);
            }
            push_tag(data, cheap);
            push_le_signed(data, nanos, 8);
        },
        None => {
            push_tag(data, full);
            push_le_signed(data, t.year as i64, 4);
            push_le(data, t.ordinal as u64, 4);
            push_time(data, t.time);
        },
    }
    assert(buffer_bytes(*data) =~= start + timestamp_encoding(cheap, full, *t));
}

fn push_numeric(data: &mut CompactBytes, n: &Numeric)
    requires
        n@.wf(),
        buffer_bytes(*old(data)).len() + 4 + 2 * n@.lsu.len() <= buffer_limit(),
    ensures
        buffer_bytes(*final(data)) == buffer_bytes(*old(data)) + encode_datum(
            DatumView::Numeric(n@),
        ),
{
    let ghost start = buffer_bytes(*data);
    proof {
        lemma_pow256_values();
        lemma_le_bytes_len(n@.exponent as int, 1);
    }
    push_tag(data, Tag::Numeric);
    push_byte(data, n.digits());
    push_le_signed(data, n.exponent() as i64, 1);
    push_byte(data, n.bits());
    let units = n.coefficient_units();
    let ghost head = buffer_bytes(*data);
    assert(head =~= start + seq![Tag::Numeric.byte(), n@.digits] + le_bytes(n@.exponent as int, 1)
        + seq![n@.bits]);
    let mut i: usize = 0;
    while i < units.len()
        invariant
            i <= units.len(),
            units@ == n@.lsu,
            head.len() == start.len() + 4,
            start.len() + 4 + 2 * n@.lsu.len() <= buffer_limit(),
            buffer_bytes(*data) == head + lsu_bytes(n@.lsu.take(i as int)),
        decreases units.len() - i,
    {
        proof {
            lemma_lsu_bytes_len(n@.lsu.take(i as int));
            lemma_le_bytes_len(n@.lsu[i as int] as int, 2);
            assert(n@.lsu.take(i + 1).drop_last() =~= n@.lsu.take(i as int));
        }
        push_le(data, units[i] as u64, 2);
        assert(buffer_bytes(*data) =~= head + lsu_bytes(n@.lsu.take(i + 1)));
        i = i + 1;
    }
    assert(n@.lsu.take(units.len() as int) =~= n@.lsu);
    assert(buffer_bytes(*data) =~= start + encode_datum(DatumView::Numeric(n@)));
}

fn range_flag_bits(lower: &RangeBound, upper: &RangeBound) -> (flags: u8)
    ensures
        flags == range_flags(crate::datum::bound_view(*lower), crate::datum::bound_view(*upper)),
{
    let mut flags: u8 = 0;
    if lower.inclusive {
        flags = flags + RANGE_LB_INCLUSIVE;
    }
    if lower.bound.is_none() {
        flags = flags + RANGE_LB_INFINITE;
    }
    if upper.inclusive {
        flags = flags + RANGE_UB_INCLUSIVE;
    }
    if upper.bound.is_none() {
        flags = flags + RANGE_UB_INFINITE;
    }
    flags
}

fn push_bound(data: &mut CompactBytes, bound: &RangeBound)
    requires
        crate::datum::bound_view(*bound).wf(),
        buffer_bytes(*old(data)).len() + bound_encoding(crate::datum::bound_view(*bound)).len()
            <= buffer_limit(),
    ensures
        buffer_bytes(*final(data)) == buffer_bytes(*old(data)) + bound_encoding(
            crate::datum::bound_view(*bound),
        ),
    decreases *bound,
{
    match &bound.bound {
        None => {
            assert(buffer_bytes(*data) =~= buffer_bytes(*data) + Seq::<u8>::empty());
        },
        Some(d) => {
            push_datum(data, d);
        },
    }
}

/// Appends the packed form of `datum` to `data`.
pub fn push_datum(data: &mut CompactBytes, datum: &Datum)
    requires
        datum@.wf(),
        buffer_bytes(*old(data)).len() + encode_datum(datum@).len() <= buffer_limit(),
    ensures
        buffer_bytes(*final(data)) == buffer_bytes(*old(data)) + encode_datum(datum@),
    decreases *datum,
{
    let ghost start = buffer_bytes(*data);
    proof {
        lemma_pow256_values();
    }
    match datum {
        Datum::Null => push_tag(data, Tag::Null),
        Datum::False => push_tag(data, Tag::False),
        Datum::True => push_tag(data, Tag::True),
        Datum::Int16(i) => push_signed(
            data,
            Tag::NonNegativeInt16_0,
            Tag::NegativeInt16_0,
            *i as i64,
        ),
        Datum::Int32(i) => push_signed(
            data,
            Tag::NonNegativeInt32_0,
            Tag::NegativeInt32_0,
            *i as i64,
        ),
        Datum::Int64(i) => push_signed(data, Tag::NonNegativeInt64_0, Tag::NegativeInt64_0, *i),
        Datum::UInt8(i) => push_unsigned(data, Tag::UInt8_0, *i as u64),
        Datum::UInt16(i) => push_unsigned(data, Tag::UInt16_0, *i as u64),
        Datum::UInt32(i) => push_unsigned(data, Tag::UInt32_0, *i as u64),
        Datum::UInt64(i) => push_unsigned(data, Tag::UInt64_0, *i),
        Datum::Float32(bits) => {
            proof {
                lemma_le_bytes_len(*bits as int, 4);
            }
            push_tag(data, Tag::Float32);
            push_le(data, *bits as u64, 4);
        },
        Datum::Float64(bits) => {
            proof {
                lemma_le_bytes_len(*bits as int, 8);
            }
            push_tag(data, Tag::Float64);
            push_le(data, *bits, 8);
        },
        Datum::Date(d) => {
            proof {
                lemma_le_bytes_len(d.pg_epoch_days as int, 4);
            }
            push_tag(data, Tag::Date);
            push_le_signed(data, d.pg_epoch_days as i64, 4);
        },
        Datum::Time(t) => {
            proof {
                lemma_le_bytes_len(t.secs as int, 4);
                lemma_le_bytes_len(t.nanos as int, 4);
            }
            push_tag(data, Tag::Time);
            push_time(data, *t);
            assert(buffer_bytes(*data) =~= start + encode_datum(datum@));
        },
        Datum::Timestamp(t) => push_timestamp(data, Tag::CheapTimestamp, Tag::Timestamp, t),
        Datum::TimestampTz(t) => push_timestamp(data, Tag::CheapTimestampTz, Tag::TimestampTz, t),
        Datum::Interval(i) => {
            proof {
                lemma_le_bytes_len(i.months as int, 4);
                lemma_le_bytes_len(i.days as int, 4);
                lemma_le_bytes_len(i.micros as int, 8);
            }
            push_tag(data, Tag::Interval);
            push_le_signed(data, i.months as i64, 4);
            push_le_signed(data, i.days as i64, 4);
            push_le_signed(data, i.micros, 8);
        },
        Datum::Bytes(bytes) => push_lengthed(
            data,
            Tag::BytesTiny,
            Tag::BytesShort,
            Tag::BytesLong,
            Tag::BytesHuge,
            bytes.as_slice(),
        ),
        Datum::String(string) => push_lengthed(
            data,
            Tag::StringTiny,
            Tag::StringShort,
            Tag::StringLong,
            Tag::StringHuge,
            string.as_str().as_bytes(),
        ),
        Datum::List(list) => push_lengthed(
            data,
            Tag::ListTiny,
            Tag::ListShort,
            Tag::ListLong,
            Tag::ListHuge,
            list.data.as_slice(),
        ),
        Datum::Uuid(u) => {
            push_tag(data, Tag::Uuid);
            buffer_extend(data, u.bytes.as_slice());
        },
        Datum::Array(array) => {
            proof {
                lemma_le_bytes_len(array.elements.data@.len() as int, 8);
            }
            push_tag(data, Tag::Array);
            push_byte(data, (array.dims.data.len() / 16) as u8);
            buffer_extend(data, array.dims.data.as_slice());
            push_untagged_bytes(data, array.elements.data.as_slice());
            assert(buffer_bytes(*data) =~= start + encode_datum(datum@));
        },
        Datum::Dict(dict) => {
            proof {
                lemma_le_bytes_len(dict.data@.len() as int, 8);
            }
            push_tag(data, Tag::Dict);
            push_untagged_bytes(data, dict.data.as_slice());
            assert(buffer_bytes(*data) =~= start + encode_datum(datum@));
        },
        Datum::JsonNull => push_tag(data, Tag::JsonNull),
        Datum::MzTimestamp(t) => {
            proof {
                lemma_le_bytes_len(*t as int, 8);
            }
            push_tag(data, Tag::MzTimestamp);
            push_le(data, *t, 8);
        },
        Datum::Dummy => push_tag(data, Tag::Dummy),
        Datum::Numeric(n) => {
            proof {
                lemma_lsu_bytes_len(n@.lsu);
                lemma_le_bytes_len(n@.exponent as int, 1);
            }
            push_numeric(data, n);
        },
        Datum::Range(range) => {
            push_tag(data, Tag::Range);
            match &range.inner {
                None => {
                    push_byte(data, RANGE_EMPTY);
                },
                Some(inner) => {
                    push_byte(data, range_flag_bits(&inner.lower, &inner.upper));
                    push_bound(data, &inner.lower);
                    push_bound(data, &inner.upper);
                },
            }
            assert(buffer_bytes(*data) =~= start + encode_datum(datum@));
        },
    }
    assert(buffer_bytes(*data) =~= start + encode_datum(datum@));
}

/// The number of bytes that the packed form of `datum` takes.
pub fn datum_size(datum: &Datum) -> (size: usize)
    requires
        datum@.wf(),
        encode_datum(datum@).len() <= usize::MAX,
    ensures
        size == encode_datum(datum@).len(),
    decreases *datum,
{
    proof {
        lemma_pow256_values();
    }
    match datum {
        Datum::Null => 1,
        Datum::False => 1,
        Datum::True => 1,
        Datum::Int16(i) => {
            proof {
                lemma_le_bytes_len(*i as int, min_bytes_signed_spec(*i as int));
            }
            1 + min_bytes_signed(*i as i64) as usize
        },
        Datum::Int32(i) => {
            proof {
                lemma_le_bytes_len(*i as int, min_bytes_signed_spec(*i as int));
            }
            1 + min_bytes_signed(*i as i64) as usize
        },
        Datum::Int64(i) => {
            proof {
                lemma_le_bytes_len(*i as int, min_bytes_signed_spec(*i as int));
            }
            1 + min_bytes_signed(*i) as usize
        },
        Datum::UInt8(i) => {
            proof {
                lemma_le_bytes_len(*i as int, min_bytes(*i as int));
            }
            1 + min_bytes_unsigned(*i as u64) as usize
        },
        Datum::UInt16(i) => {
            proof {
                lemma_le_bytes_len(*i as int, min_bytes(*i as int));
            }
            1 + min_bytes_unsigned(*i as u64) as usize
        },
        Datum::UInt32(i) => {
            proof {
                lemma_le_bytes_len(*i as int, min_bytes(*i as int));
            }
            1 + min_bytes_unsigned(*i as u64) as usize
        },
        Datum::UInt64(i) => {
            proof {
                lemma_le_bytes_len(*i as int, min_bytes(*i as int));
            }
            1 + min_bytes_unsigned(*i) as usize
        },
        Datum::Float32(bits) => {
            proof {
                lemma_le_bytes_len(*bits as int, 4);
            }
            1 + 4
        },
        Datum::Float64(bits) => {
            proof {
                lemma_le_bytes_len(*bits as int, 8);
            }
            1 + 8
        },
        Datum::Date(d) => {
            proof {
                lemma_le_bytes_len(d.pg_epoch_days as int, 4);
            }
            1 + 4
        },
        Datum::Time(t) => {
            proof {
                lemma_le_bytes_len(t.secs as int, 4);
                lemma_le_bytes_len(t.nanos as int, 4);
            }
            1 + 8
        },
        Datum::Timestamp(t) => 1 + timestamp_payload_size(Tag::CheapTimestamp, Tag::Timestamp, t),
        Datum::TimestampTz(t) => 1 + timestamp_payload_size(
            Tag::CheapTimestampTz,
            Tag::TimestampTz,
            t,
        ),
        Datum::Interval(i) => {
            proof {
                lemma_le_bytes_len(i.months as int, 4);
                lemma_le_bytes_len(i.days as int, 4);
                lemma_le_bytes_len(i.micros as int, 8);
            }
            1 + 4 + 4 + 8
        },
        Datum::Bytes(bytes) => lengthed_size(Tag::BytesTiny, bytes.as_slice()),
        Datum::String(string) => lengthed_size(Tag::StringTiny, string.as_str().as_bytes()),
        Datum::List(list) => lengthed_size(Tag::ListTiny, list.data.as_slice()),
        Datum::Uuid(_) => 1 + 16,
        Datum::Array(array) => {
            proof {
                lemma_le_bytes_len(array.elements.data@.len() as int, 8);
            }
            1 + 1 + array.dims.data.len() + 8 + array.elements.data.len()
        },
        Datum::Dict(dict) => {
            proof {
                lemma_le_bytes_len(dict.data@.len() as int, 8);
            }
            1 + 8 + dict.data.len()
        },
        Datum::JsonNull => 1,
        Datum::MzTimestamp(t) => {
            proof {
                lemma_le_bytes_len(*t as int, 8);
            }
            1 + 8
        },
        Datum::Dummy => 1,
        Datum::Numeric(n) => {
            proof {
                lemma_lsu_bytes_len(n@.lsu);
                lemma_le_bytes_len(n@.exponent as int, 1);
            }
            4 + n.coefficient_units().len() * 2
        },
        Datum::Range(range) => match &range.inner {
            None => 2,
            Some(inner) => 2 + bound_size(&inner.lower) + bound_size(&inner.upper),
        },
    }
}

fn bound_size(bound: &RangeBound) -> (size: usize)
    requires
        crate::datum::bound_view(*bound).wf(),
        bound_encoding(crate::datum::bound_view(*bound)).len() <= usize::MAX,
    ensures
        size == bound_encoding(crate::datum::bound_view(*bound)).len(),
    decreases *bound,
{
    match &bound.bound {
        None => 0,
        Some(d) => datum_size(d),
    }
}

fn timestamp_payload_size(cheap: Tag, full: Tag, t: &DateTime) -> (size: usize)
    requires
        t.wf(),
    ensures
        1 + size == timestamp_encoding(cheap, full, *t).len(),
{
    proof {
        lemma_le_bytes_len(t.year as int, 4);
        lemma_le_bytes_len(t.ordinal as int, 4);
        lemma_le_bytes_len(t.time.secs as int, 4);
        lemma_le_bytes_len(t.time.nanos as int, 4);
    }
    match checked_timestamp_nanos(t) {
        Some(nanos) => {
            proof {
                lemma_le_bytes_len(nanos as int, 8);
            }
            8
        },
        None => 16,
    }
}

fn lengthed_size(tiny: Tag, bytes: &[u8]) -> (size: usize)
    requires
        lengthed_encoding(tiny, bytes@).len() <= usize::MAX,
    ensures
        size == lengthed_encoding(tiny, bytes@).len(),
{
    let len = bytes.len();
    proof {
        lemma_le_bytes_len(bytes@.len() as int, length_width(length_class(bytes@.len())));
    }
    let bytes_for_length: usize = if (len as u64) < 0x100 {
        1
    } else if (len as u64) < 0x1_0000 {
        2
    } else if (len as u64) < 0x1_0000_0000 {
        4
    } else {
        8
    };
    1 + bytes_for_length + len
}

} // verus!
