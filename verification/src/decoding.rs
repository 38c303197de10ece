//! Reading a datum back from its packed form.
//!
//! `decode_datum` says, for any bytes, whether they begin with a datum that
//! this library reads, which one, and how many bytes it takes. `read_datum`
//! computes it. Bytes that no datum begins are refused rather than read past.

use crate::calendar::{
    date_of_day, date_of_day_number, date_valid, day_number, day_number_of, is_date_valid,
    is_time_valid, time_valid, UNIX_EPOCH_DAY,
};
use crate::datum::{
    lsu_len, Array, ArrayDimensions, BoundView, Date, DateTime, Datum, DatumList, DatumMap,
    DatumView, Interval, Numeric, NumericView, Range, RangeBound, RangeInner, Time, Uuid,
    NUMERIC_MAX_DIGITS,
};
use crate::encoding::{
    length_width, RANGE_EMPTY, RANGE_LB_INCLUSIVE, RANGE_LB_INFINITE, RANGE_UB_INCLUSIVE,
    RANGE_UB_INFINITE,
};
use crate::tag::Tag;
use crate::varint::{
    le_value, le_value_of, lemma_le_value_bounds, lemma_pow256_monotonic, lemma_pow256_values,
    pow256,
};
use vstd::prelude::*;
use vstd::slice::{slice_subrange, slice_to_vec};

verus! {

/// The number below `256^width` read as a two's complement number of that
/// many bytes.
pub open spec fn wrap_signed(v: int, width: nat) -> int {
    if 2 * v < pow256(width) {
        v
    } else {
        v - pow256(width)
    }
}

/// The number that the `n` bytes of `b` from `at` on spell.
pub open spec fn le_at(b: Seq<u8>, at: int, n: nat) -> int {
    le_value(b.subrange(at, at + n))
}

/// An integer stored in `n` bytes behind its tag, and the bytes taken. The
/// stored bytes are the low bytes of a number of `width` bytes whose other
/// bytes are all zeros, or all ones under a tag for negative numbers.
pub open spec fn decode_var_int(b: Seq<u8>, n: nat, width: nat, negative: bool) -> Option<
    (int, nat),
> {
    if 1 + n <= b.len() {
        let low = le_at(b, 1, n);
        let raw = if negative {
            low + pow256(width) - pow256(n)
        } else {
            low
        };
        Some((wrap_signed(raw, width), 1 + n))
    } else {
        None
    }
}

/// An unsigned integer stored in `n` bytes behind its tag.
pub open spec fn decode_var_uint(b: Seq<u8>, n: nat) -> Option<(int, nat)> {
    if 1 + n <= b.len() {
        Some((le_at(b, 1, n), 1 + n))
    } else {
        None
    }
}

/// The payload behind a length of the form `class` that follows the tag, and
/// the bytes taken with the tag and the length.
pub open spec fn decode_lengthed(b: Seq<u8>, class: nat) -> Option<(Seq<u8>, nat)> {
    let w = length_width(class);
    if 1 + w <= b.len() {
        let len = le_at(b, 1, w);
        if 1 + w + len <= b.len() {
            Some((b.subrange((1 + w) as int, 1 + w + len), (1 + w + len) as nat))
        } else {
            None
        }
    } else {
        None
    }
}

/// The payload behind a length of eight bytes that begins at `at`, and the
/// place behind the payload.
pub open spec fn decode_untagged(b: Seq<u8>, at: nat) -> Option<(Seq<u8>, nat)> {
    if at + 8 <= b.len() {
        let len = le_at(b, at as int, 8);
        if at + 8 + len <= b.len() {
            Some((b.subrange((at + 8) as int, at + 8 + len), (at + 8 + len) as nat))
        } else {
            None
        }
    } else {
        None
    }
}

/// The date and time that lie `nanos` nanoseconds from the Unix epoch, if
/// the calendar has the day and gives it the same day number back.
pub open spec fn datetime_of_nanos(nanos: int) -> Option<DateTime> {
    let secs = nanos / 1_000_000_000;
    let sub = nanos % 1_000_000_000;
    let days = secs / 86_400 + UNIX_EPOCH_DAY;
    let second_of_day = secs % 86_400;
    if i32::MIN <= days <= i32::MAX {
        match date_of_day(days as i32) {
            None => None,
            Some((year, ordinal)) => if day_number(year, ordinal) == Some(days as i32) {
                Some(
                    DateTime {
                        year,
                        ordinal,
                        time: Time { secs: second_of_day as u32, nanos: sub as u32 },
                    },
                )
            } else {
                None
            },
        }
    } else {
        None
    }
}

/// A timestamp stored as nanoseconds behind its tag.
pub open spec fn decode_cheap_timestamp(b: Seq<u8>) -> Option<DateTime> {
    if 9 <= b.len() {
        datetime_of_nanos(wrap_signed(le_at(b, 1, 8), 8))
    } else {
        None
    }
}

/// A timestamp stored as calendar fields behind its tag.
pub open spec fn decode_full_timestamp(b: Seq<u8>) -> Option<DateTime> {
    if 17 <= b.len() {
        let t = DateTime {
            year: wrap_signed(le_at(b, 1, 4), 4) as i32,
            ordinal: le_at(b, 5, 4) as u32,
            time: Time { secs: le_at(b, 9, 4) as u32, nanos: le_at(b, 13, 4) as u32 },
        };
        if t.wf() {
            Some(t)
        } else {
            None
        }
    } else {
        None
    }
}

/// The coefficient units that `bytes` spell, two bytes each.
pub open spec fn lsu_of_bytes(bytes: Seq<u8>) -> Seq<u16> {
    Seq::new(bytes.len() / 2, |i: int| le_at(bytes, 2 * i, 2) as u16)
}

/// A numeric behind its tag: digits, exponent, bits, and the units that the
/// digits take.
pub open spec fn decode_numeric(b: Seq<u8>) -> Option<(NumericView, nat)> {
    if 4 <= b.len() {
        let digits = b[1];
        let units = lsu_len(digits);
        if 1 <= digits <= NUMERIC_MAX_DIGITS && 4 + 2 * units <= b.len() {
            Some(
                (
                    NumericView {
                        digits,
                        exponent: wrap_signed(b[2] as int, 1) as i8,
                        bits: b[3],
                        lsu: lsu_of_bytes(b.subrange(4, (4 + 2 * units) as int)),
                    },
                    4 + 2 * units,
                ),
            )
        } else {
            None
        }
    } else {
        None
    }
}

/// Whether the flags of a range have the bit `flag` set.
pub open spec fn has_flag(flags: u8, flag: u8) -> bool {
    (flags / flag) % 2 == 1
}

/// The tags behind which an unsigned number of up to eight bytes is stored.
pub open spec fn is_unsigned_tag(tag: Tag) -> bool {
    matches!(
        tag,
        Tag::UInt8_0 | Tag::UInt8_8 | Tag::UInt16_0 | Tag::UInt16_8 | Tag::UInt16_16
            | Tag::UInt32_0 | Tag::UInt32_8 | Tag::UInt32_16 | Tag::UInt32_24 | Tag::UInt32_32
            | Tag::UInt64_0 | Tag::UInt64_8 | Tag::UInt64_16 | Tag::UInt64_24 | Tag::UInt64_32
            | Tag::UInt64_40 | Tag::UInt64_48 | Tag::UInt64_56 | Tag::UInt64_64 | Tag::UInt8
            | Tag::UInt16 | Tag::UInt32 | Tag::UInt64 | Tag::MzTimestamp | Tag::Float32
            | Tag::Float64
    )
}

/// The tags behind which a number in two's complement is stored.
pub open spec fn is_signed_tag(tag: Tag) -> bool {
    matches!(
        tag,
        Tag::NonNegativeInt16_0 | Tag::NonNegativeInt16_8 | Tag::NonNegativeInt16_16
            | Tag::NegativeInt16_0 | Tag::NegativeInt16_8 | Tag::NegativeInt16_16
            | Tag::NonNegativeInt32_0 | Tag::NonNegativeInt32_8 | Tag::NonNegativeInt32_16
            | Tag::NonNegativeInt32_24 | Tag::NonNegativeInt32_32 | Tag::NegativeInt32_0
            | Tag::NegativeInt32_8 | Tag::NegativeInt32_16 | Tag::NegativeInt32_24
            | Tag::NegativeInt32_32 | Tag::NonNegativeInt64_0 | Tag::NonNegativeInt64_8
            | Tag::NonNegativeInt64_16 | Tag::NonNegativeInt64_24 | Tag::NonNegativeInt64_32
            | Tag::NonNegativeInt64_40 | Tag::NonNegativeInt64_48 | Tag::NonNegativeInt64_56
            | Tag::NonNegativeInt64_64 | Tag::NegativeInt64_0 | Tag::NegativeInt64_8
            | Tag::NegativeInt64_16 | Tag::NegativeInt64_24 | Tag::NegativeInt64_32
            | Tag::NegativeInt64_40 | Tag::NegativeInt64_48 | Tag::NegativeInt64_56
            | Tag::NegativeInt64_64 | Tag::Int16 | Tag::Int32 | Tag::Int64 | Tag::Date
    )
}

/// The tags of dates and times.
pub open spec fn is_temporal_tag(tag: Tag) -> bool {
    matches!(
        tag,
        Tag::Time | Tag::CheapTimestamp | Tag::CheapTimestampTz | Tag::Timestamp
            | Tag::TimestampTz | Tag::Interval
    )
}

/// The tags behind which bytes are stored as they are.
pub open spec fn is_blob_tag(tag: Tag) -> bool {
    matches!(
        tag,
        Tag::BytesTiny | Tag::BytesShort | Tag::BytesLong | Tag::BytesHuge | Tag::StringTiny
            | Tag::StringShort | Tag::StringLong | Tag::StringHuge | Tag::ListTiny
            | Tag::ListShort | Tag::ListLong | Tag::ListHuge | Tag::Uuid | Tag::Array | Tag::Dict
    )
}

/// The datum behind a tag for unsigned numbers. A tag of the fewest-bytes
/// kind says how many bytes follow; the older tags are followed by all the
/// bytes of their type.
#[verifier::opaque]
pub open spec fn decode_unsigned(tag: Tag, b: Seq<u8>) -> Option<(DatumView, nat)> {
    match tag {
        Tag::UInt8_0 | Tag::UInt8_8 => match decode_var_uint(b, tag.int_length()->0) {
            Some((v, n)) => Some((DatumView::UInt8(v as u8), n)),
            None => None,
        },
        Tag::UInt16_0 | Tag::UInt16_8 | Tag::UInt16_16 => match decode_var_uint(
            b,
            tag.int_length()->0,
        ) {
            Some((v, n)) => Some((DatumView::UInt16(v as u16), n)),
            None => None,
        },
        Tag::UInt32_0
        | Tag::UInt32_8
        | Tag::UInt32_16
        | Tag::UInt32_24
        | Tag::UInt32_32 => match decode_var_uint(b, tag.int_length()->0) {
            Some((v, n)) => Some((DatumView::UInt32(v as u32), n)),
            None => None,
        },
        Tag::UInt64_0
        | Tag::UInt64_8
        | Tag::UInt64_16
        | Tag::UInt64_24
        | Tag::UInt64_32
        | Tag::UInt64_40
        | Tag::UInt64_48
        | Tag::UInt64_56
        | Tag::UInt64_64 => match decode_var_uint(b, tag.int_length()->0) {
            Some((v, n)) => Some((DatumView::UInt64(v as u64), n)),
            None => None,
        },
        Tag::UInt8 => match decode_var_uint(b, 1) {
            Some((v, n)) => Some((DatumView::UInt8(v as u8), n)),
            None => None,
        },
        Tag::UInt16 => match decode_var_uint(b, 2) {
            Some((v, n)) => Some((DatumView::UInt16(v as u16), n)),
            None => None,
        },
        Tag::UInt32 => match decode_var_uint(b, 4) {
            Some((v, n)) => Some((DatumView::UInt32(v as u32), n)),
            None => None,
        },
        Tag::UInt64 => match decode_var_uint(b, 8) {
            Some((v, n)) => Some((DatumView::UInt64(v as u64), n)),
            None => None,
        },
        Tag::MzTimestamp => match decode_var_uint(b, 8) {
            Some((v, n)) => Some((DatumView::MzTimestamp(v as u64), n)),
            None => None,
        },
        Tag::Float32 => match decode_var_uint(b, 4) {
            Some((v, n)) => Some((DatumView::Float32(v as u32), n)),
            None => None,
        },
        Tag::Float64 => match decode_var_uint(b, 8) {
            Some((v, n)) => Some((DatumView::Float64(v as u64), n)),
            None => None,
        },
        _ => None,
    }
}

/// The datum behind a tag for numbers in two's complement.
#[verifier::opaque]
pub open spec fn decode_signed(tag: Tag, b: Seq<u8>) -> Option<(DatumView, nat)> {
    match tag {
        Tag::NonNegativeInt16_0
        | Tag::NonNegativeInt16_8
        | Tag::NonNegativeInt16_16 => match decode_var_int(b, tag.int_length()->0, 2, false) {
            Some((v, n)) => Some((DatumView::Int16(v as i16), n)),
            None => None,
        },
        Tag::NegativeInt16_0 | Tag::NegativeInt16_8 | Tag::NegativeInt16_16 => match decode_var_int(
            b,
            tag.int_length()->0,
            2,
            true,
        ) {
            Some((v, n)) => Some((DatumView::Int16(v as i16), n)),
            None => None,
        },
        Tag::NonNegativeInt32_0
        | Tag::NonNegativeInt32_8
        | Tag::NonNegativeInt32_16
        | Tag::NonNegativeInt32_24
        | Tag::NonNegativeInt32_32 => match decode_var_int(b, tag.int_length()->0, 4, false) {
            Some((v, n)) => Some((DatumView::Int32(v as i32), n)),
            None => None,
        },
        Tag::NegativeInt32_0
        | Tag::NegativeInt32_8
        | Tag::NegativeInt32_16
        | Tag::NegativeInt32_24
        | Tag::NegativeInt32_32 => match decode_var_int(b, tag.int_length()->0, 4, true) {
            Some((v, n)) => Some((DatumView::Int32(v as i32), n)),
            None => None,
        },
        Tag::NonNegativeInt64_0
        | Tag::NonNegativeInt64_8
        | Tag::NonNegativeInt64_16
        | Tag::NonNegativeInt64_24
        | Tag::NonNegativeInt64_32
        | Tag::NonNegativeInt64_40
        | Tag::NonNegativeInt64_48
        | Tag::NonNegativeInt64_56
        | Tag::NonNegativeInt64_64 => match decode_var_int(b, tag.int_length()->0, 8, false) {
            Some((v, n)) => Some((DatumView::Int64(v as i64), n)),
            None => None,
        },
        Tag::NegativeInt64_0
        | Tag::NegativeInt64_8
        | Tag::NegativeInt64_16
        | Tag::NegativeInt64_24
        | Tag::NegativeInt64_32
        | Tag::NegativeInt64_40
        | Tag::NegativeInt64_48
        | Tag::NegativeInt64_56
        | Tag::NegativeInt64_64 => match decode_var_int(b, tag.int_length()->0, 8, true) {
            Some((v, n)) => Some((DatumView::Int64(v as i64), n)),
            None => None,
        },
        Tag::Int16 => match decode_var_int(b, 2, 2, false) {
            Some((v, n)) => Some((DatumView::Int16(v as i16), n)),
            None => None,
        },
        Tag::Int32 => match decode_var_int(b, 4, 4, false) {
            Some((v, n)) => Some((DatumView::Int32(v as i32), n)),
            None => None,
        },
        Tag::Int64 => match decode_var_int(b, 8, 8, false) {
            Some((v, n)) => Some((DatumView::Int64(v as i64), n)),
            None => None,
        },
        Tag::Date => match decode_var_int(b, 4, 4, false) {
            Some((v, n)) => Some((DatumView::Date(Date { pg_epoch_days: v as i32 }), n)),
            None => None,
        },
        _ => None,
    }
}

/// The datum behind a tag for dates and times.
#[verifier::opaque]
pub open spec fn decode_temporal(tag: Tag, b: Seq<u8>) -> Option<(DatumView, nat)> {
    match tag {
        Tag::Time => if 9 <= b.len() {
            let t = Time { secs: le_at(b, 1, 4) as u32, nanos: le_at(b, 5, 4) as u32 };
            if t.wf() {
                Some((DatumView::Time(t), 9))
            } else {
                None
            }
        } else {
            None
        },
        Tag::CheapTimestamp => match decode_cheap_timestamp(b) {
            Some(t) => Some((DatumView::Timestamp(t), 9)),
            None => None,
        },
        Tag::CheapTimestampTz => match decode_cheap_timestamp(b) {
            Some(t) => Some((DatumView::TimestampTz(t), 9)),
            None => None,
        },
        Tag::Timestamp => match decode_full_timestamp(b) {
            Some(t) => Some((DatumView::Timestamp(t), 17)),
            None => None,
        },
        Tag::TimestampTz => match decode_full_timestamp(b) {
            Some(t) => Some((DatumView::TimestampTz(t), 17)),
            None => None,
        },
        Tag::Interval => if 17 <= b.len() {
            Some(
                (
                    DatumView::Interval(
                        Interval {
                            months: wrap_signed(le_at(b, 1, 4), 4) as i32,
                            days: wrap_signed(le_at(b, 5, 4), 4) as i32,
                            micros: wrap_signed(le_at(b, 9, 8), 8) as i64,
                        },
                    ),
                    17,
                ),
            )
        } else {
            None
        },
        _ => None,
    }
}

/// The datum behind a tag for bytes that are stored as they are.
#[verifier::opaque]
pub open spec fn decode_blob(tag: Tag, b: Seq<u8>) -> Option<(DatumView, nat)> {
    match tag {
        Tag::BytesTiny | Tag::BytesShort | Tag::BytesLong | Tag::BytesHuge => match decode_lengthed(
            b,
            (tag.byte() - Tag::BytesTiny.byte()) as nat,
        ) {
            Some((payload, n)) => Some((DatumView::Bytes(payload), n)),
            None => None,
        },
        Tag::StringTiny
        | Tag::StringShort
        | Tag::StringLong
        | Tag::StringHuge => match decode_lengthed(b, (tag.byte() - Tag::StringTiny.byte()) as nat) {
            Some((payload, n)) => if vstd::utf8::valid_utf8(payload) {
                Some((DatumView::String(vstd::utf8::decode_utf8(payload)), n))
            } else {
                None
            },
            None => None,
        },
        Tag::ListTiny | Tag::ListShort | Tag::ListLong | Tag::ListHuge => match decode_lengthed(
            b,
            (tag.byte() - Tag::ListTiny.byte()) as nat,
        ) {
            Some((payload, n)) => Some((DatumView::List(payload), n)),
            None => None,
        },
        Tag::Uuid => if 17 <= b.len() {
            Some((DatumView::Uuid(b.subrange(1, 17)), 17))
        } else {
            None
        },
        Tag::Array => if 2 <= b.len() && 2 + 16 * b[1] <= b.len() {
            match decode_untagged(b, (2 + 16 * b[1]) as nat) {
                Some((elements, n)) => Some(
                    (DatumView::Array { dims: b.subrange(2, 2 + 16 * b[1]), elements }, n),
                ),
                None => None,
            }
        } else {
            None
        },
        Tag::Dict => match decode_untagged(b, 1) {
            Some((payload, n)) => Some((DatumView::Dict(payload), n)),
            None => None,
        },
        _ => None,
    }
}

/// One end of a range: nothing where the range is unbounded there, and
/// otherwise the datum that begins at `at`, which is not null.
pub open spec fn decode_bound(b: Seq<u8>, at: nat, infinite: bool, inclusive: bool) -> Option<
    (BoundView, nat),
>
    decreases b.len(), 0nat,
{
    if infinite {
        Some((BoundView { inclusive, bound: None }, at))
    } else if 2 <= at <= b.len() {
        match decode_datum(b.skip(at as int)) {
            Some((d, n)) => if d is Null {
                None
            } else {
                Some((BoundView { inclusive, bound: Some(Box::new(d)) }, at + n))
            },
            None => None,
        }
    } else {
        None
    }
}

/// The range behind its tag: the flags, then the lower and the upper end
/// where the flags announce them.
pub open spec fn decode_range(b: Seq<u8>) -> Option<(DatumView, nat)>
    decreases b.len(), 1nat,
{
    if 2 <= b.len() && b[1] < 32 {
        let flags = b[1];
        if has_flag(flags, RANGE_EMPTY) {
            if flags == RANGE_EMPTY {
                Some((DatumView::EmptyRange, 2))
            } else {
                None
            }
        } else {
            match decode_bound(
                b,
                2,
                has_flag(flags, RANGE_LB_INFINITE),
                has_flag(flags, RANGE_LB_INCLUSIVE),
            ) {
                None => None,
                Some((lower, mid)) => match decode_bound(
                    b,
                    mid,
                    has_flag(flags, RANGE_UB_INFINITE),
                    has_flag(flags, RANGE_UB_INCLUSIVE),
                ) {
                    None => None,
                    Some((upper, end)) => Some((DatumView::Range { lower, upper }, end)),
                },
            }
        }
    } else {
        None
    }
}

/// The datum with which `b` begins and the number of bytes that it takes;
/// `None` where `b` begins with no datum that this library reads.
pub open spec fn decode_datum(b: Seq<u8>) -> Option<(DatumView, nat)>
    decreases b.len(), 2nat,
{
    if b.len() == 0 {
        None
    } else {
        match Tag::of_byte(b[0]) {
            None => None,
            Some(tag) => if is_unsigned_tag(tag) {
                decode_unsigned(tag, b)
            } else if is_signed_tag(tag) {
                decode_signed(tag, b)
            } else if is_temporal_tag(tag) {
                decode_temporal(tag, b)
            } else if is_blob_tag(tag) {
                decode_blob(tag, b)
            } else {
                match tag {
                    Tag::Null => Some((DatumView::Null, 1)),
                    Tag::False => Some((DatumView::False, 1)),
                    Tag::True => Some((DatumView::True, 1)),
                    Tag::JsonNull => Some((DatumView::JsonNull, 1)),
                    Tag::Dummy => Some((DatumView::Dummy, 1)),
                    Tag::Numeric => match decode_numeric(b) {
                        Some((numeric, n)) => Some((DatumView::Numeric(numeric), n)),
                        None => None,
                    },
                    Tag::Range => decode_range(b),
                    _ => None,
                }
            },
        }
    }
}

/// The datums that `b` is made of, in order; `None` where `b` is not the
/// packed forms of some datums one after the other.
pub open spec fn decode_datums(b: Seq<u8>) -> Option<Seq<DatumView>>
    decreases b.len(),
{
    if b.len() == 0 {
        Some(Seq::<DatumView>::empty())
    } else {
        match decode_datum(b) {
            Some((d, n)) => if 0 < n <= b.len() {
                match decode_datums(b.skip(n as int)) {
                    Some(rest) => Some(seq![d] + rest),
                    None => None,
                }
            } else {
                None
            },
            None => None,
        }
    }
}

proof fn lemma_lengthed_extent(b: Seq<u8>, class: nat)
    ensures
        decode_lengthed(b, class) matches Some((payload, n)) ==> 1 <= n <= b.len(),
{
    let w = length_width(class);
    if 1 + w <= b.len() {
        lemma_le_value_bounds(b.subrange(1, (1 + w) as int));
    }
}

proof fn lemma_untagged_extent(b: Seq<u8>, at: nat)
    ensures
        decode_untagged(b, at) matches Some((payload, n)) ==> at + 8 <= n <= b.len(),
{
    if at + 8 <= b.len() {
        lemma_le_value_bounds(b.subrange(at as int, (at + 8) as int));
    }
}

proof fn lemma_blob_extent(tag: Tag, b: Seq<u8>)
    ensures
        decode_blob(tag, b) matches Some((d, n)) ==> 1 <= n <= b.len(),
{
    reveal(decode_blob);
    lemma_lengthed_extent(b, (tag.byte() - Tag::BytesTiny.byte()) as nat);
    lemma_lengthed_extent(b, (tag.byte() - Tag::StringTiny.byte()) as nat);
    lemma_lengthed_extent(b, (tag.byte() - Tag::ListTiny.byte()) as nat);
    lemma_untagged_extent(b, 1);
    if b.len() >= 2 {
        lemma_untagged_extent(b, (2 + 16 * b[1]) as nat);
    }
}

proof fn lemma_number_extent(tag: Tag, b: Seq<u8>)
    ensures
        decode_unsigned(tag, b) matches Some((d, n)) ==> 1 <= n <= b.len(),
        decode_signed(tag, b) matches Some((d, n)) ==> 1 <= n <= b.len(),
        decode_temporal(tag, b) matches Some((d, n)) ==> 1 <= n <= b.len(),
{
    reveal(decode_unsigned);
    reveal(decode_signed);
    reveal(decode_temporal);
}

proof fn lemma_bound_extent(b: Seq<u8>, at: nat, infinite: bool, inclusive: bool)
    requires
        at <= b.len(),
    ensures
        decode_bound(b, at, infinite, inclusive) matches Some((bound, n)) ==> at <= n <= b.len(),
    decreases b.len(), 0nat,
{
    if !infinite && 2 <= at {
        lemma_decode_extent(b.skip(at as int));
    }
}

proof fn lemma_range_extent(b: Seq<u8>)
    ensures
        decode_range(b) matches Some((d, n)) ==> 2 <= n <= b.len(),
    decreases b.len(), 1nat,
{
    if 2 <= b.len() && b[1] < 32 && !has_flag(b[1], RANGE_EMPTY) {
        let flags = b[1];
        lemma_bound_extent(
            b,
            2,
            has_flag(flags, RANGE_LB_INFINITE),
            has_flag(flags, RANGE_LB_INCLUSIVE),
        );
        match decode_bound(
            b,
            2,
            has_flag(flags, RANGE_LB_INFINITE),
            has_flag(flags, RANGE_LB_INCLUSIVE),
        ) {
            None => {},
            Some((lower, mid)) => {
                lemma_bound_extent(
                    b,
                    mid,
                    has_flag(flags, RANGE_UB_INFINITE),
                    has_flag(flags, RANGE_UB_INCLUSIVE),
                );
            },
        }
    }
}

/// A datum that is read takes at least its tag and no more than there is.
pub proof fn lemma_decode_extent(b: Seq<u8>)
    ensures
        decode_datum(b) matches Some((d, n)) ==> 1 <= n <= b.len(),
    decreases b.len(), 2nat,
{
    if b.len() > 0 {
        match Tag::of_byte(b[0]) {
            None => {},
            Some(tag) => {
                lemma_number_extent(tag, b);
                if is_unsigned_tag(tag) {
                } else if is_signed_tag(tag) {
                } else if is_temporal_tag(tag) {
                } else if is_blob_tag(tag) {
                    lemma_blob_extent(tag, b);
                } else if tag == Tag::Range {
                    lemma_range_extent(b);
                }
            },
        }
    }
}

/// `std::str::from_utf8`, its result copied into a `String`: the string
/// that `bytes` spell in UTF-8, and `None` exactly where they spell none.
#[verifier::external_body]
fn string_from_utf8(bytes: &[u8]) -> (r: Option<String>)
    ensures
        match r {
            Some(s) => vstd::utf8::valid_utf8(bytes@) && s@ == vstd::utf8::decode_utf8(bytes@),
            None => !vstd::utf8::valid_utf8(bytes@),
        },
{
    match std::str::from_utf8(bytes) {
        Ok(s) => Some(s.to_owned()),
        Err(_) => None,
    }
}

/// `256^n - 1` for the widths of the integer types.
fn max_of_width(width: u8) -> (r: u64)
    requires
        width == 1 || width == 2 || width == 4 || width == 8,
    ensures
        r == pow256(width as nat) - 1,
{
    proof {
        lemma_pow256_values();
    }
    if width == 1 {
        0xff
    } else if width == 2 {
        0xffff
    } else if width == 4 {
        0xffff_ffff
    } else {
        0xffff_ffff_ffff_ffff
    }
}

/// `256^n - 1` for a count of bytes up to eight.
fn max_of_bytes(n: u8) -> (r: u64)
    requires
        n <= 8,
    ensures
        r == pow256(n as nat) - 1,
{
    proof {
        lemma_pow256_values();
    }
    if n == 0 {
        0
    } else if n == 1 {
        0xff
    } else if n == 2 {
        0xffff
    } else if n == 3 {
        0xff_ffff
    } else if n == 4 {
        0xffff_ffff
    } else if n == 5 {
        0xff_ffff_ffff
    } else if n == 6 {
        0xffff_ffff_ffff
    } else if n == 7 {
        0xff_ffff_ffff_ffff
    } else {
        0xffff_ffff_ffff_ffff
    }
}

/// A number below `256^width` read as a two's complement number.
fn wrap_to_signed(raw: u64, width: u8) -> (r: i64)
    requires
        width == 1 || width == 2 || width == 4 || width == 8,
        raw < pow256(width as nat),
    ensures
        r == wrap_signed(raw as int, width as nat),
        -pow256(width as nat) <= 2 * r < pow256(width as nat),
{
    let top = max_of_width(width);
    proof {
        lemma_pow256_values();
    }
    if raw <= top / 2 {
        raw as i64
    } else {
        (raw as i128 - top as i128 - 1) as i64
    }
}

fn read_le(b: &[u8], at: usize, n: u8) -> (r: u64)
    requires
        n <= 8,
        at + n <= b@.len(),
    ensures
        r == le_at(b@, at as int, n as nat),
        r < pow256(n as nat),
{
    proof {
        lemma_le_value_bounds(b@.subrange(at as int, at + n));
    }
    le_value_of(b, at, n)
}

fn read_var_int(b: &[u8], n: u8, width: u8, negative: bool) -> (r: Option<(i64, usize)>)
    requires
        width == 1 || width == 2 || width == 4 || width == 8,
        n <= width,
    ensures
        match r {
            Some((v, next)) => decode_var_int(b@, n as nat, width as nat, negative) == Some(
                (v as int, next as nat),
            ) && -pow256(width as nat) <= 2 * v < pow256(width as nat),
            None => decode_var_int(b@, n as nat, width as nat, negative) is None,
        },
{
    if b.len() < 1 + n as usize {
        return None;
    }
    let low = read_le(b, 1, n);
    proof {
        lemma_pow256_values();
        lemma_pow256_monotonic(n as nat, width as nat);
    }
    let raw = if negative {
        low + (max_of_width(width) - max_of_bytes(n))
    } else {
        low
    };
    Some((wrap_to_signed(raw, width), 1 + n as usize))
}

fn read_var_uint(b: &[u8], n: u8) -> (r: Option<(u64, usize)>)
    requires
        n <= 8,
    ensures
        match r {
            Some((v, next)) => decode_var_uint(b@, n as nat) == Some((v as int, next as nat)) && v
                < pow256(n as nat),
            None => decode_var_uint(b@, n as nat) is None,
        },
{
    if b.len() < 1 + n as usize {
        return None;
    }
    Some((read_le(b, 1, n), 1 + n as usize))
}

fn read_lengthed(b: &[u8], class: u8) -> (r: Option<(usize, usize)>)
    requires
        class <= 3,
    ensures
        match r {
            Some((from, to)) => from <= to <= b@.len() && decode_lengthed(b@, class as nat) == Some(
                (b@.subrange(from as int, to as int), to as nat),
            ),
            None => decode_lengthed(b@, class as nat) is None,
        },
{
    let w: u8 = if class == 0 {
        1
    } else if class == 1 {
        2
    } else if class == 2 {
        4
    } else {
        8
    };
    if b.len() < 1 + w as usize {
        return None;
    }
    let len = read_le(b, 1, w);
    let from = 1 + w as usize;
    if len > (b.len() - from) as u64 {
        return None;
    }
    Some((from, from + len as usize))
}

fn read_untagged(b: &[u8], at: usize) -> (r: Option<(usize, usize)>)
    requires
        at <= b@.len(),
    ensures
        match r {
            Some((from, to)) => from <= to <= b@.len() && decode_untagged(b@, at as nat) == Some(
                (b@.subrange(from as int, to as int), to as nat),
            ),
            None => decode_untagged(b@, at as nat) is None,
        },
{
    if b.len() - at < 8 {
        return None;
    }
    let len = read_le(b, at, 8);
    let from = at + 8;
    if len > (b.len() - from) as u64 {
        return None;
    }
    Some((from, from + len as usize))
}

/// Splits the nanoseconds `nanos` from the Unix epoch into the number of
/// the day in which they end, the second of that day and the nanoseconds of
/// that second.
pub fn split_nanos(nanos: i64) -> (r: (i64, u32, u32))
    ensures
        r.0 == (nanos as int / 1_000_000_000) / 86_400 + UNIX_EPOCH_DAY,
        r.1 == (nanos as int / 1_000_000_000) % 86_400,
        r.2 == nanos as int % 1_000_000_000,
{
    let secs = match nanos.checked_div_euclid(1_000_000_000) {
        Some(q) => q,
        None => 0,
    };
    let sub = match nanos.checked_rem_euclid(1_000_000_000) {
        Some(q) => q,
        None => 0,
    };
    let whole_days = match secs.checked_div_euclid(86_400) {
        Some(q) => q,
        None => 0,
    };
    let second_of_day = match secs.checked_rem_euclid(86_400) {
        Some(q) => q,
        None => 0,
    };
    (whole_days + UNIX_EPOCH_DAY, second_of_day as u32, sub as u32)
}

fn read_datetime_of_nanos(nanos: i64) -> (r: Option<DateTime>)
    ensures
        r == datetime_of_nanos(nanos as int),
        r matches Some(t) ==> t.wf(),
{
    let (days, second_of_day, sub) = split_nanos(nanos);
    if days < i32::MIN as i64 || days > i32::MAX as i64 {
        return None;
    }
    match date_of_day_number(days as i32) {
        None => None,
        Some((year, ordinal)) => {
            let back = day_number_of(year, ordinal);
            if back.is_some() && back.unwrap() == days as i32 {
                Some(
                    DateTime {
                        year,
                        ordinal,
                        time: Time { secs: second_of_day, nanos: sub },
                    },
                )
            } else {
                None
            }
        },
    }
}

fn read_cheap_timestamp(b: &[u8]) -> (r: Option<DateTime>)
    ensures
        r == decode_cheap_timestamp(b@),
        r matches Some(t) ==> t.wf(),
{
    if b.len() < 9 {
        return None;
    }
    let raw = read_le(b, 1, 8);
    read_datetime_of_nanos(wrap_to_signed(raw, 8))
}

fn read_full_timestamp(b: &[u8]) -> (r: Option<DateTime>)
    ensures
        r == decode_full_timestamp(b@),
        r matches Some(t) ==> t.wf(),
{
    if b.len() < 17 {
        return None;
    }
    proof {
        lemma_pow256_values();
    }
    let year = wrap_to_signed(read_le(b, 1, 4), 4) as i32;
    let ordinal = read_le(b, 5, 4) as u32;
    let secs = read_le(b, 9, 4) as u32;
    let nanos = read_le(b, 13, 4) as u32;
    if is_date_valid(year, ordinal) && is_time_valid(secs, nanos) {
        Some(DateTime { year, ordinal, time: Time { secs, nanos } })
    } else {
        None
    }
}

fn read_numeric(b: &[u8]) -> (r: Option<(Numeric, usize)>)
    ensures
        match r {
            Some((numeric, next)) => decode_numeric(b@) == Some((numeric@, next as nat))
                && numeric@.wf() && next <= b@.len(),
            None => decode_numeric(b@) is None,
        },
{
    if b.len() < 4 {
        return None;
    }
    let digits = b[1];
    if digits < 1 || digits > NUMERIC_MAX_DIGITS {
        return None;
    }
    let units: usize = (digits as usize + 2) / 3;
    if b.len() < 4 + 2 * units {
        return None;
    }
    proof {
        lemma_pow256_values();
    }
    let exponent = wrap_to_signed(b[2] as u64, 1) as i8;
    let ghost bytes = b@.subrange(4, 4 + 2 * units);
    let mut lsu: Vec<u16> = Vec::with_capacity(units);
    let mut i: usize = 0;
    while i < units
        invariant
            i <= units <= 13,
            4 + 2 * units <= b@.len(),
            bytes == b@.subrange(4, 4 + 2 * units),
            lsu@.len() == i,
            forall|k: int| 0 <= k < i ==> lsu@[k] == le_at(bytes, 2 * k, 2) as u16,
        decreases units - i,
    {
        let unit = read_le(b, 4 + 2 * i, 2);
        proof {
            assert(bytes.subrange(2 * i, 2 * i + 2) =~= b@.subrange(4 + 2 * i, 4 + 2 * i + 2));
        }
        lsu.push(unit as u16);
        i = i + 1;
    }
    assert(lsu@ =~= lsu_of_bytes(bytes));
    proof {
        let v = b@.subrange(2, 3);
        assert(v.drop_first() =~= Seq::<u8>::empty());
        assert(le_value(v) == b@[2] as int) by {
            reveal_with_fuel(le_value, 2);
        }
    }
    Some((Numeric::from_parts(digits, exponent, b[3], lsu), 4 + 2 * units))
}

fn read_bound(b: &[u8], at: usize, infinite: bool, inclusive: bool) -> (r: Option<
    (RangeBound, usize),
>)
    requires
        2 <= at,
    ensures
        match r {
            Some((bound, next)) => decode_bound(b@, at as nat, infinite, inclusive) == Some(
                (crate::datum::bound_view(bound), next as nat),
            ) && crate::datum::bound_view(bound).wf() && at <= next && (at <= b@.len() ==> next
                <= b@.len()),
            None => decode_bound(b@, at as nat, infinite, inclusive) is None,
        },
    decreases b@.len(), 0nat,
{
    if infinite {
        return Some((RangeBound { inclusive, bound: None }, at));
    }
    if at > b.len() {
        return None;
    }
    match read_datum(b, at) {
        None => None,
        Some((d, next)) => {
            if is_null(&d) {
                None
            } else {
                let ghost inner = d@;
                let bound = RangeBound { inclusive, bound: Some(Box::new(d)) };
                assert(crate::datum::bound_view(bound) == BoundView {
                    inclusive,
                    bound: Some(Box::new(inner)),
                });
                Some((bound, next))
            }
        },
    }
}

fn is_null(d: &Datum) -> (r: bool)
    ensures
        r == (d@ is Null),
{
    match d {
        Datum::Null => true,
        _ => false,
    }
}

fn flag_set(flags: u8, flag: u8) -> (r: bool)
    requires
        flag > 0,
    ensures
        r == has_flag(flags, flag),
{
    (flags / flag) % 2 == 1
}

/// Whether `r` is what `decode_datum` says of `b`, the place being counted
/// from the start of `b`.
pub open spec fn reads_as(r: Option<(Datum, usize)>, b: Seq<u8>) -> bool {
    match r {
        Some((d, next)) => decode_datum(b) == Some((d@, next as nat)) && 0 < next <= b.len()
            && d@.wf(),
        None => decode_datum(b) is None,
    }
}

fn read_unsigned(b: &[u8], tag: Tag) -> (r: Option<(Datum, usize)>)
    requires
        b@.len() > 0,
        Tag::of_byte(b@[0]) == Some(tag),
        is_unsigned_tag(tag),
    ensures
        reads_as(r, b@),
{
    proof {
        reveal(decode_unsigned);
        lemma_pow256_values();
    }
    match tag {
        Tag::UInt8_0 | Tag::UInt8_8 => {
            let n = tag.actual_int_length().unwrap();
            match read_var_uint(b, n as u8) {
                Some((v, next)) => Some((Datum::UInt8(v as u8), next)),
                None => None,
            }
        },
        Tag::UInt16_0 | Tag::UInt16_8 | Tag::UInt16_16 => {
            let n = tag.actual_int_length().unwrap();
            match read_var_uint(b, n as u8) {
                Some((v, next)) => Some((Datum::UInt16(v as u16), next)),
                None => None,
            }
        },
        Tag::UInt32_0 | Tag::UInt32_8 | Tag::UInt32_16 | Tag::UInt32_24 | Tag::UInt32_32 => {
            let n = tag.actual_int_length().unwrap();
            match read_var_uint(b, n as u8) {
                Some((v, next)) => Some((Datum::UInt32(v as u32), next)),
                None => None,
            }
        },
        Tag::UInt64_0
        | Tag::UInt64_8
        | Tag::UInt64_16
        | Tag::UInt64_24
        | Tag::UInt64_32
        | Tag::UInt64_40
        | Tag::UInt64_48
        | Tag::UInt64_56
        | Tag::UInt64_64 => {
            let n = tag.actual_int_length().unwrap();
            match read_var_uint(b, n as u8) {
                Some((v, next)) => Some((Datum::UInt64(v), next)),
                None => None,
            }
        },
        Tag::UInt8 => match read_var_uint(b, 1) {
            Some((v, next)) => Some((Datum::UInt8(v as u8), next)),
            None => None,
        },
        Tag::UInt16 => match read_var_uint(b, 2) {
            Some((v, next)) => Some((Datum::UInt16(v as u16), next)),
            None => None,
        },
        Tag::UInt32 => match read_var_uint(b, 4) {
            Some((v, next)) => Some((Datum::UInt32(v as u32), next)),
            None => None,
        },
        Tag::UInt64 => match read_var_uint(b, 8) {
            Some((v, next)) => Some((Datum::UInt64(v), next)),
            None => None,
        },
        Tag::MzTimestamp => match read_var_uint(b, 8) {
            Some((v, next)) => Some((Datum::MzTimestamp(v), next)),
            None => None,
        },
        Tag::Float32 => match read_var_uint(b, 4) {
            Some((v, next)) => Some((Datum::Float32(v as u32), next)),
            None => None,
        },
        Tag::Float64 => match read_var_uint(b, 8) {
            Some((v, next)) => Some((Datum::Float64(v), next)),
            None => None,
        },
        _ => None,
    }
}

fn read_signed(b: &[u8], tag: Tag) -> (r: Option<(Datum, usize)>)
    requires
        b@.len() > 0,
        Tag::of_byte(b@[0]) == Some(tag),
        is_signed_tag(tag),
    ensures
        reads_as(r, b@),
{
    proof {
        reveal(decode_signed);
        lemma_pow256_values();
    }
    match tag {
        Tag::NonNegativeInt16_0 | Tag::NonNegativeInt16_8 | Tag::NonNegativeInt16_16 => {
            let n = tag.actual_int_length().unwrap();
            match read_var_int(b, n as u8, 2, false) {
                Some((v, next)) => Some((Datum::Int16(v as i16), next)),
                None => None,
            }
        },
        Tag::NegativeInt16_0 | Tag::NegativeInt16_8 | Tag::NegativeInt16_16 => {
            let n = tag.actual_int_length().unwrap();
            match read_var_int(b, n as u8, 2, true) {
                Some((v, next)) => Some((Datum::Int16(v as i16), next)),
                None => None,
            }
        },
        Tag::NonNegativeInt32_0
        | Tag::NonNegativeInt32_8
        | Tag::NonNegativeInt32_16
        | Tag::NonNegativeInt32_24
        | Tag::NonNegativeInt32_32 => {
            let n = tag.actual_int_length().unwrap();
            match read_var_int(b, n as u8, 4, false) {
                Some((v, next)) => Some((Datum::Int32(v as i32), next)),
                None => None,
            }
        },
        Tag::NegativeInt32_0
        | Tag::NegativeInt32_8
        | Tag::NegativeInt32_16
        | Tag::NegativeInt32_24
        | Tag::NegativeInt32_32 => {
            let n = tag.actual_int_length().unwrap();
            match read_var_int(b, n as u8, 4, true) {
                Some((v, next)) => Some((Datum::Int32(v as i32), next)),
                None => None,
            }
        },
        Tag::NonNegativeInt64_0
        | Tag::NonNegativeInt64_8
        | Tag::NonNegativeInt64_16
        | Tag::NonNegativeInt64_24
        | Tag::NonNegativeInt64_32
        | Tag::NonNegativeInt64_40
        | Tag::NonNegativeInt64_48
        | Tag::NonNegativeInt64_56
        | Tag::NonNegativeInt64_64 => {
            let n = tag.actual_int_length().unwrap();
            match read_var_int(b, n as u8, 8, false) {
                Some((v, next)) => Some((Datum::Int64(v), next)),
                None => None,
            }
        },
        Tag::NegativeInt64_0
        | Tag::NegativeInt64_8
        | Tag::NegativeInt64_16
        | Tag::NegativeInt64_24
        | Tag::NegativeInt64_32
        | Tag::NegativeInt64_40
        | Tag::NegativeInt64_48
        | Tag::NegativeInt64_56
        | Tag::NegativeInt64_64 => {
            let n = tag.actual_int_length().unwrap();
            match read_var_int(b, n as u8, 8, true) {
                Some((v, next)) => Some((Datum::Int64(v), next)),
                None => None,
            }
        },
        Tag::Int16 => match read_var_int(b, 2, 2, false) {
            Some((v, next)) => Some((Datum::Int16(v as i16), next)),
            None => None,
        },
        Tag::Int32 => match read_var_int(b, 4, 4, false) {
            Some((v, next)) => Some((Datum::Int32(v as i32), next)),
            None => None,
        },
        Tag::Int64 => match read_var_int(b, 8, 8, false) {
            Some((v, next)) => Some((Datum::Int64(v), next)),
            None => None,
        },
        Tag::Date => match read_var_int(b, 4, 4, false) {
            Some((v, next)) => Some((Datum::Date(Date { pg_epoch_days: v as i32 }), next)),
            None => None,
        },
        _ => None,
    }
}

fn read_temporal(b: &[u8], tag: Tag) -> (r: Option<(Datum, usize)>)
    requires
        b@.len() > 0,
        Tag::of_byte(b@[0]) == Some(tag),
        is_temporal_tag(tag),
    ensures
        reads_as(r, b@),
{
    proof {
        reveal(decode_temporal);
        lemma_pow256_values();
    }
    match tag {
        Tag::Time => {
            if b.len() < 9 {
                None
            } else {
                let secs = read_le(b, 1, 4) as u32;
                let nanos = read_le(b, 5, 4) as u32;
                if is_time_valid(secs, nanos) {
                    Some((Datum::Time(Time { secs, nanos }), 9))
                } else {
                    None
                }
            }
        },
        Tag::CheapTimestamp => match read_cheap_timestamp(b) {
            Some(t) => Some((Datum::Timestamp(t), 9)),
            None => None,
        },
        Tag::CheapTimestampTz => match read_cheap_timestamp(b) {
            Some(t) => Some((Datum::TimestampTz(t), 9)),
            None => None,
        },
        Tag::Timestamp => match read_full_timestamp(b) {
            Some(t) => Some((Datum::Timestamp(t), 17)),
            None => None,
        },
        Tag::TimestampTz => match read_full_timestamp(b) {
            Some(t) => Some((Datum::TimestampTz(t), 17)),
            None => None,
        },
        Tag::Interval => {
            if b.len() < 17 {
                None
            } else {
                let months = wrap_to_signed(read_le(b, 1, 4), 4) as i32;
                let days = wrap_to_signed(read_le(b, 5, 4), 4) as i32;
                let micros = wrap_to_signed(read_le(b, 9, 8), 8);
                Some((Datum::Interval(Interval { months, days, micros }), 17))
            }
        },
        _ => None,
    }
}

fn read_blob(b: &[u8], tag: Tag) -> (r: Option<(Datum, usize)>)
    requires
        b@.len() > 0,
        Tag::of_byte(b@[0]) == Some(tag),
        is_blob_tag(tag),
    ensures
        reads_as(r, b@),
{
    proof {
        reveal(decode_blob);
        lemma_blob_extent(tag, b@);
    }
    match tag {
        Tag::BytesTiny | Tag::BytesShort | Tag::BytesLong | Tag::BytesHuge => {
            match read_lengthed(b, tag.to_byte() - Tag::BytesTiny.to_byte()) {
                Some((from, to)) => Some(
                    (Datum::Bytes(slice_to_vec(slice_subrange(b, from, to))), to),
                ),
                None => None,
            }
        },
        Tag::StringTiny | Tag::StringShort | Tag::StringLong | Tag::StringHuge => {
            match read_lengthed(b, tag.to_byte() - Tag::StringTiny.to_byte()) {
                Some((from, to)) => match string_from_utf8(slice_subrange(b, from, to)) {
                    Some(s) => {
                        proof {
                            vstd::utf8::decode_utf8_encode_utf8(b@.subrange(from as int, to as int));
                        }
                        Some((Datum::String(s), to))
                    },
                    None => None,
                },
                None => None,
            }
        },
        Tag::ListTiny | Tag::ListShort | Tag::ListLong | Tag::ListHuge => {
            match read_lengthed(b, tag.to_byte() - Tag::ListTiny.to_byte()) {
                Some((from, to)) => Some(
                    (
                        Datum::List(DatumList { data: slice_to_vec(slice_subrange(b, from, to)) }),
                        to,
                    ),
                ),
                None => None,
            }
        },
        Tag::Uuid => {
            if b.len() < 17 {
                None
            } else {
                let mut bytes: [u8; 16] = [0u8; 16];
                let mut i: usize = 0;
                while i < 16
                    invariant
                        i <= 16,
                        17 <= b@.len(),
                        forall|k: int| 0 <= k < i ==> bytes@[k] == b@[1 + k],
                    decreases 16 - i,
                {
                    bytes[i] = b[1 + i];
                    i = i + 1;
                }
                assert(bytes@ =~= b@.subrange(1, 17));
                Some((Datum::Uuid(Uuid { bytes }), 17))
            }
        },
        Tag::Array => {
            if b.len() < 2 || b.len() - 2 < 16 * (b[1] as usize) {
                None
            } else {
                let dims_end = 2 + 16 * (b[1] as usize);
                match read_untagged(b, dims_end) {
                    Some((from, to)) => Some(
                        (
                            Datum::Array(
                                Array {
                                    dims: ArrayDimensions {
                                        data: slice_to_vec(slice_subrange(b, 2, dims_end)),
                                    },
                                    elements: DatumList {
                                        data: slice_to_vec(slice_subrange(b, from, to)),
                                    },
                                },
                            ),
                            to,
                        ),
                    ),
                    None => None,
                }
            }
        },
        Tag::Dict => match read_untagged(b, 1) {
            Some((from, to)) => Some(
                (Datum::Dict(DatumMap { data: slice_to_vec(slice_subrange(b, from, to)) }), to),
            ),
            None => None,
        },
        _ => None,
    }
}

fn read_range(b: &[u8]) -> (r: Option<(Datum, usize)>)
    requires
        b@.len() > 0,
        Tag::of_byte(b@[0]) == Some(Tag::Range),
    ensures
        reads_as(r, b@),
    decreases b@.len(), 1nat,
{
    proof {
        lemma_range_extent(b@);
    }
    if b.len() < 2 || b[1] >= 32 {
        return None;
    }
    let flags = b[1];
    if flag_set(flags, RANGE_EMPTY) {
        if flags == RANGE_EMPTY {
            Some((Datum::Range(Range { inner: None }), 2))
        } else {
            None
        }
    } else {
        match read_bound(
            b,
            2,
            flag_set(flags, RANGE_LB_INFINITE),
            flag_set(flags, RANGE_LB_INCLUSIVE),
        ) {
            None => None,
            Some((lower, mid)) => match read_bound(
                b,
                mid,
                flag_set(flags, RANGE_UB_INFINITE),
                flag_set(flags, RANGE_UB_INCLUSIVE),
            ) {
                None => None,
                Some((upper, end)) => Some(
                    (Datum::Range(Range { inner: Some(RangeInner { lower, upper }) }), end),
                ),
            },
        }
    }
}

/// Reads the datum that begins at `pos` in `data`. Gives the datum and the
/// place behind it, or `None` where no datum begins there.
pub fn read_datum(data: &[u8], pos: usize) -> (r: Option<(Datum, usize)>)
    requires
        pos <= data@.len(),
    ensures
        match r {
            Some((d, next)) => decode_datum(data@.skip(pos as int)) == Some(
                (d@, (next - pos) as nat),
            ) && pos < next <= data@.len() && d@.wf(),
            None => decode_datum(data@.skip(pos as int)) is None,
        },
    decreases data@.len() - pos, 2nat,
{
    let b = slice_subrange(data, pos, data.len());
    assert(b@ =~= data@.skip(pos as int));
    if b.len() == 0 {
        return None;
    }
    let tag = match Tag::from_byte(b[0]) {
        Some(tag) => tag,
        None => {
            return None;
        },
    };
    let decoded: Option<(Datum, usize)> = match tag {
        Tag::Null => Some((Datum::Null, 1)),
        Tag::False => Some((Datum::False, 1)),
        Tag::True => Some((Datum::True, 1)),
        Tag::JsonNull => Some((Datum::JsonNull, 1)),
        Tag::Dummy => Some((Datum::Dummy, 1)),
        Tag::UInt8_0
        | Tag::UInt8_8
        | Tag::UInt16_0
        | Tag::UInt16_8
        | Tag::UInt16_16
        | Tag::UInt32_0
        | Tag::UInt32_8
        | Tag::UInt32_16
        | Tag::UInt32_24
        | Tag::UInt32_32
        | Tag::UInt64_0
        | Tag::UInt64_8
        | Tag::UInt64_16
        | Tag::UInt64_24
        | Tag::UInt64_32
        | Tag::UInt64_40
        | Tag::UInt64_48
        | Tag::UInt64_56
        | Tag::UInt64_64
        | Tag::UInt8
        | Tag::UInt16
        | Tag::UInt32
        | Tag::UInt64
        | Tag::MzTimestamp
        | Tag::Float32
        | Tag::Float64 => read_unsigned(b, tag),
        Tag::NonNegativeInt16_0
        | Tag::NonNegativeInt16_8
        | Tag::NonNegativeInt16_16
        | Tag::NegativeInt16_0
        | Tag::NegativeInt16_8
        | Tag::NegativeInt16_16
        | Tag::NonNegativeInt32_0
        | Tag::NonNegativeInt32_8
        | Tag::NonNegativeInt32_16
        | Tag::NonNegativeInt32_24
        | Tag::NonNegativeInt32_32
        | Tag::NegativeInt32_0
        | Tag::NegativeInt32_8
        | Tag::NegativeInt32_16
        | Tag::NegativeInt32_24
        | Tag::NegativeInt32_32
        | Tag::NonNegativeInt64_0
        | Tag::NonNegativeInt64_8
        | Tag::NonNegativeInt64_16
        | Tag::NonNegativeInt64_24
        | Tag::NonNegativeInt64_32
        | Tag::NonNegativeInt64_40
        | Tag::NonNegativeInt64_48
        | Tag::NonNegativeInt64_56
        | Tag::NonNegativeInt64_64
        | Tag::NegativeInt64_0
        | Tag::NegativeInt64_8
        | Tag::NegativeInt64_16
        | Tag::NegativeInt64_24
        | Tag::NegativeInt64_32
        | Tag::NegativeInt64_40
        | Tag::NegativeInt64_48
        | Tag::NegativeInt64_56
        | Tag::NegativeInt64_64
        | Tag::Int16
        | Tag::Int32
        | Tag::Int64
        | Tag::Date => read_signed(b, tag),
        Tag::Time
        | Tag::CheapTimestamp
        | Tag::CheapTimestampTz
        | Tag::Timestamp
        | Tag::TimestampTz
        | Tag::Interval => read_temporal(b, tag),
        Tag::BytesTiny
        | Tag::BytesShort
        | Tag::BytesLong
        | Tag::BytesHuge
        | Tag::StringTiny
        | Tag::StringShort
        | Tag::StringLong
        | Tag::StringHuge
        | Tag::ListTiny
        | Tag::ListShort
        | Tag::ListLong
        | Tag::ListHuge
        | Tag::Uuid
        | Tag::Array
        | Tag::Dict => read_blob(b, tag),
        Tag::Numeric => match read_numeric(b) {
            Some((numeric, next)) => Some((Datum::Numeric(numeric), next)),
            None => None,
        },
        Tag::Range => read_range(b),
        Tag::MzAclItem | Tag::AclItem => None,
    };
    match decoded {
        Some((d, next)) => Some((d, pos + next)),
        None => None,
    }
}

} // verus!
