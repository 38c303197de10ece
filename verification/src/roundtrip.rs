//! Reading back what was packed gives what was packed.

use crate::calendar::{date_of_day, day_number, UNIX_EPOCH_DAY};
use crate::datum::{lsu_len, BoundView, DateTime, DatumView, NumericView, Time};
use crate::decoding::{
    decode_bound, decode_cheap_timestamp, decode_datum, decode_datums, decode_full_timestamp,
    decode_lengthed, decode_numeric, decode_range, decode_untagged, decode_var_int,
    decode_var_uint, has_flag, le_at, lemma_decode_extent, lsu_of_bytes, wrap_signed,
};
use crate::encoding::{
    all_wf, bound_encoding, encode_datum, encode_datums, length_class, length_width,
    lengthed_encoding, lsu_bytes, lemma_lsu_bytes_len, range_flags, signed_encoding, time_bytes,
    timestamp_encoding, unix_nanos, unix_seconds, unsigned_encoding, RANGE_EMPTY,
    RANGE_LB_INCLUSIVE, RANGE_LB_INFINITE, RANGE_UB_INCLUSIVE, RANGE_UB_INFINITE,
};
use crate::tag::Tag;
use crate::varint::{
    le_bytes, le_value, lemma_le_bytes_len, lemma_le_roundtrip, lemma_min_bytes_bound,
    lemma_min_bytes_fits, lemma_pow256_monotonic, lemma_pow256_values, min_bytes,
    min_bytes_signed_spec, pow256,
};
use vstd::prelude::*;

verus! {

/// The middle of three sequences laid end to end is found again at its place.
proof fn lemma_middle(pre: Seq<u8>, mid: Seq<u8>, post: Seq<u8>)
    ensures
        (pre + mid + post).subrange(pre.len() as int, (pre.len() + mid.len()) as int) == mid,
        (pre + mid + post).len() == pre.len() + mid.len() + post.len(),
{
    assert((pre + mid + post).subrange(pre.len() as int, (pre.len() + mid.len()) as int) =~= mid);
}

/// A number of `n` bytes that stands `at` bytes into `b` is read back there.
proof fn lemma_le_at(pre: Seq<u8>, v: int, n: nat, post: Seq<u8>)
    requires
        -pow256(n) <= v < pow256(n),
    ensures
        le_at(pre + le_bytes(v, n) + post, pre.len() as int, n) == if v >= 0 {
            v
        } else {
            v + pow256(n)
        },
{
    lemma_le_bytes_len(v, n);
    lemma_middle(pre, le_bytes(v, n), post);
    lemma_le_roundtrip(v, n);
}

proof fn lemma_signed_roundtrip(nonneg: Tag, neg: Tag, v: int, width: nat, rest: Seq<u8>)
    requires
        width == 2 || width == 4 || width == 8,
        -pow256(width) <= 2 * v < pow256(width),
    ensures
        min_bytes_signed_spec(v) <= width,
        (signed_encoding(nonneg, neg, v) + rest).len() == 1 + min_bytes_signed_spec(v)
            + rest.len(),
        (signed_encoding(nonneg, neg, v) + rest)[0] == ((if v >= 0 {
            nonneg.byte()
        } else {
            neg.byte()
        }) + min_bytes_signed_spec(v)) as u8,
        decode_var_int(
            signed_encoding(nonneg, neg, v) + rest,
            min_bytes_signed_spec(v),
            width,
            v < 0,
        ) == Some((v, 1 + min_bytes_signed_spec(v))),
{
    let n = min_bytes_signed_spec(v);
    let base = if v >= 0 {
        nonneg.byte()
    } else {
        neg.byte()
    };
    let b = signed_encoding(nonneg, neg, v) + rest;
    lemma_pow256_values();
    if v >= 0 {
        lemma_min_bytes_fits(v);
        lemma_min_bytes_bound(v, width);
    } else {
        lemma_min_bytes_fits(-v - 1);
        lemma_min_bytes_bound(-v - 1, width);
    }
    lemma_le_bytes_len(v, n);
    lemma_le_at(seq![(base + n) as u8], v, n, rest);
    assert(b =~= seq![(base + n) as u8] + le_bytes(v, n) + rest);
    lemma_pow256_monotonic(n, width);
}

proof fn lemma_unsigned_roundtrip(zero: Tag, v: int, width: nat, rest: Seq<u8>)
    requires
        width <= 8,
        0 <= v < pow256(width),
    ensures
        min_bytes(v) <= width,
        (unsigned_encoding(zero, v) + rest).len() == 1 + min_bytes(v) + rest.len(),
        (unsigned_encoding(zero, v) + rest)[0] == (zero.byte() + min_bytes(v)) as u8,
        decode_var_uint(unsigned_encoding(zero, v) + rest, min_bytes(v)) == Some(
            (v, 1 + min_bytes(v)),
        ),
{
    let n = min_bytes(v);
    let b = unsigned_encoding(zero, v) + rest;
    lemma_min_bytes_fits(v);
    lemma_min_bytes_bound(v, width);
    lemma_le_bytes_len(v, n);
    lemma_le_at(seq![(zero.byte() + n) as u8], v, n, rest);
    assert(b =~= seq![(zero.byte() + n) as u8] + le_bytes(v, n) + rest);
}

/// A number of exactly `n` bytes behind a tag is read back.
proof fn lemma_fixed_roundtrip(tag: u8, v: int, n: nat, rest: Seq<u8>)
    requires
        1 <= n <= 8,
        -pow256(n) <= 2 * v < 2 * pow256(n),
    ensures
        (seq![tag] + le_bytes(v, n) + rest).len() == 1 + n + rest.len(),
        (seq![tag] + le_bytes(v, n) + rest)[0] == tag,
        v >= 0 ==> decode_var_uint(seq![tag] + le_bytes(v, n) + rest, n) == Some((v, 1 + n)),
        2 * v < pow256(n) ==> decode_var_int(seq![tag] + le_bytes(v, n) + rest, n, n, false)
            == Some((v, 1 + n)),
{
    lemma_pow256_values();
    lemma_pow256_monotonic(n, 8);
    lemma_pow256_monotonic(1, n);
    lemma_le_bytes_len(v, n);
    lemma_le_at(seq![tag], v, n, rest);
}

proof fn lemma_lengthed_roundtrip(tiny: Tag, payload: Seq<u8>, rest: Seq<u8>)
    requires
        payload.len() <= u64::MAX,
    ensures
        (lengthed_encoding(tiny, payload) + rest).len() == 1 + length_width(
            length_class(payload.len()),
        ) + payload.len() + rest.len(),
        (lengthed_encoding(tiny, payload) + rest)[0] == (tiny.byte() + length_class(
            payload.len(),
        )) as u8,
        decode_lengthed(lengthed_encoding(tiny, payload) + rest, length_class(payload.len()))
            == Some(
            (payload, (1 + length_width(length_class(payload.len())) + payload.len()) as nat),
        ),
{
    let class = length_class(payload.len());
    let w = length_width(class);
    let t = (tiny.byte() + class) as u8;
    let len = payload.len() as int;
    let b = lengthed_encoding(tiny, payload) + rest;
    lemma_pow256_values();
    lemma_le_bytes_len(len, w);
    lemma_le_at(seq![t], len, w, payload + rest);
    assert(b =~= seq![t] + le_bytes(len, w) + (payload + rest));
    lemma_middle(seq![t] + le_bytes(len, w), payload, rest);
    assert(b =~= (seq![t] + le_bytes(len, w)) + payload + rest);
}

proof fn lemma_untagged_roundtrip(pre: Seq<u8>, payload: Seq<u8>, rest: Seq<u8>)
    requires
        payload.len() <= u64::MAX,
    ensures
        (pre + le_bytes(payload.len() as int, 8) + payload + rest).len() == pre.len() + 8
            + payload.len() + rest.len(),
        decode_untagged(pre + le_bytes(payload.len() as int, 8) + payload + rest, pre.len())
            == Some((payload, (pre.len() + 8 + payload.len()) as nat)),
{
    let len = payload.len() as int;
    let b = pre + le_bytes(len, 8) + payload + rest;
    lemma_pow256_values();
    lemma_le_bytes_len(len, 8);
    lemma_le_at(pre, len, 8, payload + rest);
    assert(b =~= pre + le_bytes(len, 8) + (payload + rest));
    lemma_middle(pre + le_bytes(len, 8), payload, rest);
}

proof fn lemma_time_roundtrip(pre: Seq<u8>, t: Time, rest: Seq<u8>)
    requires
        t.wf(),
    ensures
        (pre + time_bytes(t) + rest).len() == pre.len() + 8 + rest.len(),
        le_at(pre + time_bytes(t) + rest, pre.len() as int, 4) == t.secs,
        le_at(pre + time_bytes(t) + rest, (pre.len() + 4) as int, 4) == t.nanos,
{
    let b = pre + time_bytes(t) + rest;
    lemma_pow256_values();
    lemma_le_bytes_len(t.secs as int, 4);
    lemma_le_bytes_len(t.nanos as int, 4);
    lemma_le_at(pre, t.secs as int, 4, le_bytes(t.nanos as int, 4) + rest);
    assert(b =~= pre + le_bytes(t.secs as int, 4) + (le_bytes(t.nanos as int, 4) + rest));
    lemma_le_at(pre + le_bytes(t.secs as int, 4), t.nanos as int, 4, rest);
    assert(b =~= (pre + le_bytes(t.secs as int, 4)) + le_bytes(t.nanos as int, 4) + rest);
}

proof fn lemma_timestamp_roundtrip(cheap: Tag, full: Tag, t: DateTime, rest: Seq<u8>)
    requires
        t.wf(),
    ensures
        match unix_nanos(t) {
            Some(nanos) => (timestamp_encoding(cheap, full, t) + rest)[0] == cheap.byte()
                && (timestamp_encoding(cheap, full, t) + rest).len() == 9 + rest.len()
                && decode_cheap_timestamp(timestamp_encoding(cheap, full, t) + rest) == Some(t),
            None => (timestamp_encoding(cheap, full, t) + rest)[0] == full.byte() && (
            timestamp_encoding(cheap, full, t) + rest).len() == 17 + rest.len()
                && decode_full_timestamp(timestamp_encoding(cheap, full, t) + rest) == Some(t),
        },
{
    let b = timestamp_encoding(cheap, full, t) + rest;
    lemma_pow256_values();
    match unix_nanos(t) {
        Some(nanos) => {
            lemma_fixed_roundtrip(cheap.byte(), nanos, 8, rest);
            assert(b =~= seq![cheap.byte()] + le_bytes(nanos, 8) + rest);
            let days = day_number(t.year, t.ordinal)->0;
            let secs = unix_seconds(days, t.time.secs);
            assert(nanos == secs * 1_000_000_000 + t.time.nanos);
            assert(nanos / 1_000_000_000 == secs && nanos % 1_000_000_000 == t.time.nanos as int);
            assert(secs / 86_400 == days - UNIX_EPOCH_DAY && secs % 86_400 == t.time.secs as int);
        },
        None => {
            let pre = seq![full.byte()] + le_bytes(t.year as int, 4) + le_bytes(
                t.ordinal as int,
                4,
            );
            lemma_le_bytes_len(t.year as int, 4);
            lemma_le_bytes_len(t.ordinal as int, 4);
            lemma_le_bytes_len(t.time.secs as int, 4);
            lemma_le_bytes_len(t.time.nanos as int, 4);
            lemma_time_roundtrip(pre, t.time, rest);
            assert(b =~= pre + time_bytes(t.time) + rest);
            lemma_le_at(
                seq![full.byte()],
                t.year as int,
                4,
                le_bytes(t.ordinal as int, 4) + time_bytes(t.time) + rest,
            );
            assert(b =~= seq![full.byte()] + le_bytes(t.year as int, 4) + (le_bytes(
                t.ordinal as int,
                4,
            ) + time_bytes(t.time) + rest));
            lemma_le_at(
                seq![full.byte()] + le_bytes(t.year as int, 4),
                t.ordinal as int,
                4,
                time_bytes(t.time) + rest,
            );
            assert(b =~= (seq![full.byte()] + le_bytes(t.year as int, 4)) + le_bytes(
                t.ordinal as int,
                4,
            ) + (time_bytes(t.time) + rest));
        },
    }
}

proof fn lemma_lsu_roundtrip(lsu: Seq<u16>)
    ensures
        lsu_of_bytes(lsu_bytes(lsu)) == lsu,
    decreases lsu.len(),
{
    lemma_lsu_bytes_len(lsu);
    if lsu.len() > 0 {
        let front = lsu.drop_last();
        lemma_lsu_roundtrip(front);
        lemma_lsu_bytes_len(front);
        lemma_pow256_values();
        let bytes = lsu_bytes(lsu);
        assert forall|i: int| 0 <= i < lsu.len() implies lsu_of_bytes(bytes)[i] == lsu[i] by {
            if i < front.len() {
                assert(bytes.subrange(2 * i, 2 * i + 2) =~= lsu_bytes(front).subrange(
                    2 * i,
                    2 * i + 2,
                ));
                assert(lsu_of_bytes(lsu_bytes(front))[i] == front[i]);
            } else {
                lemma_le_at(lsu_bytes(front), lsu.last() as int, 2, Seq::<u8>::empty());
                assert(bytes =~= lsu_bytes(front) + le_bytes(lsu.last() as int, 2) + Seq::<
                    u8,
                >::empty());
            }
        }
        assert(lsu_of_bytes(bytes) =~= lsu);
    } else {
        assert(lsu_of_bytes(lsu_bytes(lsu)) =~= lsu);
    }
}

proof fn lemma_numeric_roundtrip(n: NumericView, rest: Seq<u8>)
    requires
        n.wf(),
    ensures
        (encode_datum(DatumView::Numeric(n)) + rest).len() == 4 + 2 * n.lsu.len() + rest.len(),
        (encode_datum(DatumView::Numeric(n)) + rest)[0] == Tag::Numeric.byte(),
        decode_numeric(encode_datum(DatumView::Numeric(n)) + rest) == Some(
            (n, (4 + 2 * n.lsu.len()) as nat),
        ),
{
    let b = encode_datum(DatumView::Numeric(n)) + rest;
    lemma_pow256_values();
    lemma_lsu_bytes_len(n.lsu);
    lemma_lsu_roundtrip(n.lsu);
    lemma_le_bytes_len(n.exponent as int, 1);
    let e = le_bytes(n.exponent as int, 1);
    reveal_with_fuel(le_bytes, 2);
    assert(e =~= seq![((n.exponent as int) % 256) as u8]);
    let head = seq![Tag::Numeric.byte(), n.digits] + e + seq![n.bits];
    assert(b =~= head + lsu_bytes(n.lsu) + rest);
    lemma_middle(head, lsu_bytes(n.lsu), rest);
    assert(b[1] == n.digits);
    assert(b[2] == ((n.exponent as int) % 256) as u8);
    assert(b[3] == n.bits);
    assert(wrap_signed(b[2] as int, 1) == n.exponent as int);
}

proof fn lemma_flags(lower: BoundView, upper: BoundView)
    ensures
        range_flags(lower, upper) < 32,
        !has_flag(range_flags(lower, upper), RANGE_EMPTY),
        has_flag(range_flags(lower, upper), RANGE_LB_INCLUSIVE) == lower.inclusive,
        has_flag(range_flags(lower, upper), RANGE_LB_INFINITE) == (lower.bound is None),
        has_flag(range_flags(lower, upper), RANGE_UB_INCLUSIVE) == upper.inclusive,
        has_flag(range_flags(lower, upper), RANGE_UB_INFINITE) == (upper.bound is None),
{
}

proof fn lemma_bound_roundtrip(b: Seq<u8>, at: nat, bound: BoundView, rest: Seq<u8>)
    requires
        bound.wf(),
        2 <= at <= b.len(),
        b.skip(at as int) == bound_encoding(bound) + rest,
    ensures
        decode_bound(b, at, bound.bound is None, bound.inclusive) == Some(
            (bound, at + bound_encoding(bound).len()),
        ),
    decreases bound, 0nat,
{
    match bound.bound {
        None => {},
        Some(d) => {
            lemma_decode_encode(*d, rest);
        },
    }
}

proof fn lemma_roundtrip_signed(d: DatumView, rest: Seq<u8>)
    requires
        d is Int16 || d is Int32 || d is Int64 || d is Date,
    ensures
        decode_datum(encode_datum(d) + rest) == Some((d, encode_datum(d).len())),
{
    reveal(crate::decoding::decode_signed);
    lemma_pow256_values();
    match d {
        DatumView::Int16(i) => {
            lemma_signed_roundtrip(Tag::NonNegativeInt16_0, Tag::NegativeInt16_0, i as int, 2, rest);
        },
        DatumView::Int32(i) => {
            lemma_signed_roundtrip(Tag::NonNegativeInt32_0, Tag::NegativeInt32_0, i as int, 4, rest);
        },
        DatumView::Int64(i) => {
            lemma_signed_roundtrip(Tag::NonNegativeInt64_0, Tag::NegativeInt64_0, i as int, 8, rest);
        },
        DatumView::Date(date) => {
            lemma_fixed_roundtrip(Tag::Date.byte(), date.pg_epoch_days as int, 4, rest);
        },
        _ => {},
    }
}

proof fn lemma_roundtrip_unsigned(d: DatumView, rest: Seq<u8>)
    requires
        d is UInt8 || d is UInt16 || d is UInt32 || d is UInt64 || d is Float32 || d is Float64
            || d is MzTimestamp,
    ensures
        decode_datum(encode_datum(d) + rest) == Some((d, encode_datum(d).len())),
{
    reveal(crate::decoding::decode_unsigned);
    lemma_pow256_values();
    match d {
        DatumView::UInt8(i) => {
            lemma_unsigned_roundtrip(Tag::UInt8_0, i as int, 1, rest);
        },
        DatumView::UInt16(i) => {
            lemma_unsigned_roundtrip(Tag::UInt16_0, i as int, 2, rest);
        },
        DatumView::UInt32(i) => {
            lemma_unsigned_roundtrip(Tag::UInt32_0, i as int, 4, rest);
        },
        DatumView::UInt64(i) => {
            lemma_unsigned_roundtrip(Tag::UInt64_0, i as int, 8, rest);
        },
        DatumView::Float32(bits) => {
            lemma_fixed_roundtrip(Tag::Float32.byte(), bits as int, 4, rest);
        },
        DatumView::Float64(bits) => {
            lemma_fixed_roundtrip(Tag::Float64.byte(), bits as int, 8, rest);
        },
        DatumView::MzTimestamp(t) => {
            lemma_fixed_roundtrip(Tag::MzTimestamp.byte(), t as int, 8, rest);
        },
        _ => {},
    }
}

proof fn lemma_roundtrip_temporal(d: DatumView, rest: Seq<u8>)
    requires
        d.wf(),
        d is Time || d is Timestamp || d is TimestampTz || d is Interval,
    ensures
        decode_datum(encode_datum(d) + rest) == Some((d, encode_datum(d).len())),
{
    let b = encode_datum(d) + rest;
    reveal(crate::decoding::decode_temporal);
    lemma_pow256_values();
    match d {
        DatumView::Time(t) => {
            lemma_time_roundtrip(seq![Tag::Time.byte()], t, rest);
        },
        DatumView::Timestamp(t) => {
            lemma_timestamp_roundtrip(Tag::CheapTimestamp, Tag::Timestamp, t, rest);
        },
        DatumView::TimestampTz(t) => {
            lemma_timestamp_roundtrip(Tag::CheapTimestampTz, Tag::TimestampTz, t, rest);
        },
        DatumView::Interval(i) => {
            let months = le_bytes(i.months as int, 4);
            let days = le_bytes(i.days as int, 4);
            let micros = le_bytes(i.micros as int, 8);
            let tag = seq![Tag::Interval.byte()];
            lemma_le_bytes_len(i.months as int, 4);
            lemma_le_bytes_len(i.days as int, 4);
            lemma_le_bytes_len(i.micros as int, 8);
            lemma_le_at(tag, i.months as int, 4, days + micros + rest);
            assert(b =~= tag + months + (days + micros + rest));
            lemma_le_at(tag + months, i.days as int, 4, micros + rest);
            assert(b =~= (tag + months) + days + (micros + rest));
            lemma_le_at(tag + months + days, i.micros as int, 8, rest);
            assert(b =~= (tag + months + days) + micros + rest);
        },
        _ => {},
    }
}

proof fn lemma_roundtrip_bytes(d: DatumView, rest: Seq<u8>)
    requires
        d.wf(),
        d is Bytes || d is List,
    ensures
        decode_datum(encode_datum(d) + rest) == Some((d, encode_datum(d).len())),
{
    reveal(crate::decoding::decode_blob);
    match d {
        DatumView::Bytes(payload) => {
            lemma_lengthed_roundtrip(Tag::BytesTiny, payload, rest);
        },
        DatumView::List(payload) => {
            lemma_lengthed_roundtrip(Tag::ListTiny, payload, rest);
        },
        _ => {},
    }
}

proof fn lemma_roundtrip_string(s: Seq<char>, rest: Seq<u8>)
    requires
        vstd::utf8::encode_utf8(s).len() <= u64::MAX,
    ensures
        decode_datum(encode_datum(DatumView::String(s)) + rest) == Some(
            (DatumView::String(s), encode_datum(DatumView::String(s)).len()),
        ),
{
    reveal(crate::decoding::decode_blob);
    let payload = vstd::utf8::encode_utf8(s);
    lemma_lengthed_roundtrip(Tag::StringTiny, payload, rest);
    vstd::utf8::encode_utf8_valid_utf8(s);
    vstd::utf8::encode_utf8_decode_utf8(s);
    let b = encode_datum(DatumView::String(s)) + rest;
    let class = length_class(payload.len());
    assert(Tag::of_byte(b[0]) is Some);
    let tag = Tag::of_byte(b[0])->0;
    assert(crate::decoding::is_blob_tag(tag));
    assert(tag.byte() - Tag::StringTiny.byte() == class);
    assert(crate::decoding::decode_blob(tag, b) == Some(
        (DatumView::String(s), encode_datum(DatumView::String(s)).len()),
    ));
}

proof fn lemma_roundtrip_array(d: DatumView, rest: Seq<u8>)
    requires
        d.wf(),
        d is Uuid || d is Array || d is Dict,
    ensures
        decode_datum(encode_datum(d) + rest) == Some((d, encode_datum(d).len())),
{
    let b = encode_datum(d) + rest;
    reveal(crate::decoding::decode_blob);
    match d {
        DatumView::Uuid(u) => {
            lemma_middle(seq![Tag::Uuid.byte()], u, rest);
        },
        DatumView::Array { dims, elements } => {
            let ndims = (dims.len() / 16) as u8;
            let head = seq![Tag::Array.byte(), ndims];
            lemma_middle(head, dims, le_bytes(elements.len() as int, 8) + elements + rest);
            assert(b =~= head + dims + (le_bytes(elements.len() as int, 8) + elements + rest));
            lemma_untagged_roundtrip(head + dims, elements, rest);
            assert(b =~= (head + dims) + le_bytes(elements.len() as int, 8) + elements + rest);
            assert(b[1] == ndims);
        },
        DatumView::Dict(payload) => {
            lemma_untagged_roundtrip(seq![Tag::Dict.byte()], payload, rest);
        },
        _ => {},
    }
}

/// What `decode_range` makes of two ends that were read one after the other.
proof fn lemma_range_of_bounds(b: Seq<u8>, lower: BoundView, mid: nat, upper: BoundView, end: nat)
    requires
        2 <= b.len(),
        b[1] < 32,
        !has_flag(b[1], RANGE_EMPTY),
        decode_bound(
            b,
            2,
            has_flag(b[1], RANGE_LB_INFINITE),
            has_flag(b[1], RANGE_LB_INCLUSIVE),
        ) == Some((lower, mid)),
        decode_bound(
            b,
            mid,
            has_flag(b[1], RANGE_UB_INFINITE),
            has_flag(b[1], RANGE_UB_INCLUSIVE),
        ) == Some((upper, end)),
    ensures
        decode_range(b) == Some((DatumView::Range { lower, upper }, end)),
{
}

proof fn lemma_roundtrip_range(d: DatumView, rest: Seq<u8>)
    requires
        d.wf(),
        d is Range,
    ensures
        decode_datum(encode_datum(d) + rest) == Some((d, encode_datum(d).len())),
    decreases d, 1nat,
{
    let lower = d->lower;
    let upper = d->upper;
    let e = encode_datum(d);
    let b = e + rest;
    let flags = range_flags(lower, upper);
    lemma_flags(lower, upper);
    let lo = bound_encoding(lower);
    let up = bound_encoding(upper);
    let head = seq![Tag::Range.byte(), flags];
    assert(e == head + lo + up);
    assert(b =~= head + lo + up + rest);
    assert(b[0] == Tag::Range.byte());
    assert(b[1] == flags);
    assert(b.skip(2) =~= lo + (up + rest));
    assert(lower.wf() && upper.wf());
    lemma_bound_roundtrip(b, 2, lower, up + rest);
    let mid = (2 + lo.len()) as nat;
    assert(b.skip(mid as int) =~= up + rest);
    lemma_bound_roundtrip(b, mid, upper, rest);
    let end = (mid + up.len()) as nat;
    lemma_range_of_bounds(b, lower, mid, upper, end);
    assert(e.len() == end);
    assert(Tag::of_byte(b[0]) == Some(Tag::Range));
    assert(decode_datum(b) == decode_range(b));
}

/// Reading the packed form of a datum, whatever follows it, gives the datum
/// back and stops behind it.
pub proof fn lemma_decode_encode(d: DatumView, rest: Seq<u8>)
    requires
        d.wf(),
    ensures
        decode_datum(encode_datum(d) + rest) == Some((d, encode_datum(d).len())),
    decreases d, 2nat,
{
    if d is Int16 || d is Int32 || d is Int64 || d is Date {
        lemma_roundtrip_signed(d, rest);
    } else if d is UInt8 || d is UInt16 || d is UInt32 || d is UInt64 || d is Float32
        || d is Float64 || d is MzTimestamp {
        lemma_roundtrip_unsigned(d, rest);
    } else if d is Time || d is Timestamp || d is TimestampTz || d is Interval {
        lemma_roundtrip_temporal(d, rest);
    } else if d is Bytes || d is List {
        lemma_roundtrip_bytes(d, rest);
    } else if d is Uuid || d is Array || d is Dict {
        lemma_roundtrip_array(d, rest);
    } else {
        match d {
            DatumView::String(s) => {
                lemma_roundtrip_string(s, rest);
            },
            DatumView::Numeric(n) => {
                lemma_numeric_roundtrip(n, rest);
            },
            DatumView::EmptyRange => {
                assert((encode_datum(d) + rest)[1] == RANGE_EMPTY);
            },
            DatumView::Range { lower, upper } => {
                lemma_roundtrip_range(d, rest);
            },
            _ => {},
        }
    }
}

/// Packing one datum and then others is packing all of them.
pub proof fn lemma_encode_datums_front(d: DatumView, rest: Seq<DatumView>)
    ensures
        encode_datums(seq![d] + rest) == encode_datum(d) + encode_datums(rest),
    decreases rest.len(),
{
    let all = seq![d] + rest;
    if rest.len() == 0 {
        assert(all.drop_last() =~= Seq::<DatumView>::empty());
        assert(encode_datums(Seq::<DatumView>::empty()) =~= Seq::<u8>::empty());
        assert(encode_datums(rest) =~= Seq::<u8>::empty());
        assert(all.last() == d);
        assert(encode_datums(all) =~= encode_datum(d) + encode_datums(rest));
    } else {
        assert(all.drop_last() =~= seq![d] + rest.drop_last());
        lemma_encode_datums_front(d, rest.drop_last());
        assert(encode_datums(all) =~= encode_datum(d) + encode_datums(rest));
    }
}

/// Reading back the packed forms of a sequence of datums gives the sequence.
pub proof fn lemma_decode_encode_datums(ds: Seq<DatumView>)
    requires
        all_wf(ds),
    ensures
        decode_datums(encode_datums(ds)) == Some(ds),
    decreases ds.len(),
{
    if ds.len() > 0 {
        let d = ds[0];
        let rest = ds.drop_first();
        assert(ds =~= seq![d] + rest);
        lemma_encode_datums_front(d, rest);
        assert(d.wf());
        assert(all_wf(rest)) by {
            assert forall|i: int| 0 <= i < rest.len() implies (#[trigger] rest[i]).wf() by {
                assert(rest[i] == ds[i + 1]);
            }
        }
        lemma_decode_encode(d, encode_datums(rest));
        lemma_decode_encode_datums(rest);
        let b = encode_datums(ds);
        assert(b.skip(encode_datum(d).len() as int) =~= encode_datums(rest));
    }
}

} // verus!
