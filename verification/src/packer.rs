//! Nested datums written in place: lists, maps, arrays and ranges.
//!
//! The elements of a nested datum are packed straight into the row, behind a
//! place kept free for their length, which is filled in when they are all
//! there. A list starts with one byte for its length; where that proves too
//! little, the elements are moved up to make room for more.

use crate::buffer::buffer_limit;
use crate::datum::{
    bound_view, ArrayDimension, BoundView, Datum, DatumView, Range, RangeBound,
    MAX_ARRAY_DIMENSIONS,
};
use crate::numeric::{numeric_above, units_fit};
use crate::encoding::{
    all_wf, encode_datum, encode_datums, length_class, length_width, lengthed_encoding,
    RANGE_EMPTY,
};
use crate::row::{
    is_packed, lemma_encode_datums_take, lemma_packed_encoding, views, Row, RowPacker,
};
use crate::tag::Tag;
use crate::varint::{
    le_bytes, le_bytes_of, le_bytes_of_signed, lemma_le_bytes_len, lemma_pow256_values, pow256,
};
use vstd::prelude::*;
use vstd::string::StringSliceAdditionalSpecFns;

verus! {

/// `after` begins with `before`.
pub open spec fn extends(before: Seq<u8>, after: Seq<u8>) -> bool {
    before.len() <= after.len() && after.take(before.len() as int) == before
}

/// Why an array was not packed.
#[derive(Debug, Clone, Copy, PartialEq, Eq)]
pub enum InvalidArrayError {
    /// The array has more dimensions than `MAX_ARRAY_DIMENSIONS`.
    TooManyDimensions(usize),
    /// The number of elements is not the product of the lengths of the
    /// dimensions.
    WrongCardinality { actual: usize, expected: usize },
}

/// Why a range was not packed.
#[derive(Debug, Clone, Copy, PartialEq, Eq)]
pub enum InvalidRangeError {
    /// The lower end lies above the upper end.
    MisorderedRangeBounds,
}

/// The lower end of a range that is yet to be packed: whether it belongs to
/// the range, and what packs its datum. Nothing to pack it means that the
/// range is unbounded below.
pub struct RangeLowerBound<L> {
    pub inclusive: bool,
    pub bound: Option<L>,
}

/// The upper end of a range that is yet to be packed.
pub struct RangeUpperBound<U> {
    pub inclusive: bool,
    pub bound: Option<U>,
}

/// The number of elements of an array with the dimensions `dims`: the
/// product of their lengths, and none where there is no dimension.
pub open spec fn array_cardinality(dims: Seq<ArrayDimension>) -> nat {
    if dims.len() == 0 {
        0
    } else {
        length_product(dims)
    }
}

/// The product of the lengths of `dims`.
pub open spec fn length_product(dims: Seq<ArrayDimension>) -> nat
    decreases dims.len(),
{
    if dims.len() == 0 {
        1
    } else {
        length_product(dims.drop_last()) * (dims.last().length as nat)
    }
}

/// The dimensions `dims` as a row stores them: for each its lower bound and
/// its length, in eight bytes each.
pub open spec fn dims_bytes(dims: Seq<ArrayDimension>) -> Seq<u8>
    decreases dims.len(),
{
    if dims.len() == 0 {
        Seq::<u8>::empty()
    } else {
        dims_bytes(dims.drop_last()) + le_bytes(dims.last().lower_bound as int, 8) + le_bytes(
            dims.last().length as int,
            8,
        )
    }
}

/// The packed form of a map with the entries `entries`: the keys as strings
/// and the values, in turn.
pub open spec fn entries_bytes(entries: Seq<(String, Datum)>) -> Seq<u8>
    decreases entries.len(),
{
    if entries.len() == 0 {
        Seq::<u8>::empty()
    } else {
        entries_bytes(entries.drop_last()) + encode_datum(DatumView::String(entries.last().0@))
            + encode_datum(entries.last().1@)
    }
}

/// The keys of `entries` ascend strictly, byte by byte.
pub open spec fn keys_ascend(entries: Seq<(String, Datum)>) -> bool {
    forall|i: int|
        0 < i < entries.len() ==> crate::order::lex_less(
            vstd::utf8::encode_utf8(#[trigger] entries[i - 1].0@),
            vstd::utf8::encode_utf8(entries[i].0@),
        )
}

/// In entries whose keys ascend every key lies below every later key: no
/// key is there twice, and a dictionary reads its keys back in their one
/// order.
pub proof fn lemma_keys_ascend(entries: Seq<(String, Datum)>, i: int, j: int)
    requires
        keys_ascend(entries),
        0 <= i < j < entries.len(),
    ensures
        crate::order::lex_less(
            vstd::utf8::encode_utf8(entries[i].0@),
            vstd::utf8::encode_utf8(entries[j].0@),
        ),
        entries[i].0@ != entries[j].0@,
    decreases j - i,
{
    let a = vstd::utf8::encode_utf8(entries[i].0@);
    let b = vstd::utf8::encode_utf8(entries[j - 1].0@);
    let c = vstd::utf8::encode_utf8(entries[j].0@);
    assert(crate::order::lex_less(b, c));
    if i < j - 1 {
        lemma_keys_ascend(entries, i, j - 1);
        crate::order::lemma_lex_transitive(a, b, c);
    }
    crate::order::lemma_lex_trichotomy(a, c);
}

/// Every key can be packed as a string, and every value as a datum.
pub open spec fn entries_wf(entries: Seq<(String, Datum)>) -> bool {
    forall|i: int|
        0 <= i < entries.len() ==> DatumView::String((#[trigger] entries[i]).0@).wf()
            && entries[i].1@.wf()
}

/// The number by which a float of 32 bits with the bits `bits` is ordered:
/// the two zeros are level, and what is not a number stands above all
/// numbers.
pub open spec fn float32_key(bits: u32) -> int {
    if bits & 0x7fff_ffff > 0x7f80_0000 {
        0x8000_0000
    } else if bits & 0x8000_0000 != 0 {
        -((bits & 0x7fff_ffff) as int)
    } else {
        (bits & 0x7fff_ffff) as int
    }
}

/// The number by which a float of 64 bits with the bits `bits` is ordered:
/// the two zeros are level, and what is not a number stands above all
/// numbers.
pub open spec fn float64_key(bits: u64) -> int {
    if bits & 0x7fff_ffff_ffff_ffff > 0x7ff0_0000_0000_0000 {
        0x8000_0000_0000_0000
    } else if bits & 0x8000_0000_0000_0000 != 0 {
        -((bits & 0x7fff_ffff_ffff_ffff) as int)
    } else {
        (bits & 0x7fff_ffff_ffff_ffff) as int
    }
}

/// The number by which a datum is ordered among the datums of its kind,
/// for the kinds that are ordered by one number: the truth values, the
/// integers, the floats, dates, times and timestamps, and the kinds of one
/// value.
pub open spec fn order_key(d: DatumView) -> Option<int> {
    match d {
        DatumView::False => Some(0),
        DatumView::True => Some(1),
        DatumView::Float32(bits) => Some(float32_key(bits)),
        DatumView::Float64(bits) => Some(float64_key(bits)),
        DatumView::Time(t) => Some(t.secs * 2_000_000_000 + t.nanos),
        DatumView::JsonNull => Some(0),
        DatumView::Dummy => Some(0),
        DatumView::Int16(i) => Some(i as int),
        DatumView::Int32(i) => Some(i as int),
        DatumView::Int64(i) => Some(i as int),
        DatumView::UInt8(i) => Some(i as int),
        DatumView::UInt16(i) => Some(i as int),
        DatumView::UInt32(i) => Some(i as int),
        DatumView::UInt64(i) => Some(i as int),
        DatumView::MzTimestamp(t) => Some(t as int),
        DatumView::Date(date) => Some(date.pg_epoch_days as int),
        DatumView::Timestamp(t) => Some(
            ((t.year * 367 + t.ordinal) * 86_400 + t.time.secs) * 2_000_000_000 + t.time.nanos,
        ),
        DatumView::TimestampTz(t) => Some(
            ((t.year * 367 + t.ordinal) * 86_400 + t.time.secs) * 2_000_000_000 + t.time.nanos,
        ),
        _ => None,
    }
}

/// The kinds of datums, numbered; two datums of one kind can be the ends of
/// a range.
pub open spec fn kind_of(d: DatumView) -> nat {
    match d {
        DatumView::False => 0,
        DatumView::True => 0,
        DatumView::Int16(_) => 1,
        DatumView::Int32(_) => 2,
        DatumView::Int64(_) => 3,
        DatumView::UInt8(_) => 4,
        DatumView::UInt16(_) => 5,
        DatumView::UInt32(_) => 6,
        DatumView::UInt64(_) => 7,
        DatumView::Float32(_) => 8,
        DatumView::Float64(_) => 9,
        DatumView::Date(_) => 10,
        DatumView::Time(_) => 11,
        DatumView::Timestamp(_) => 12,
        DatumView::TimestampTz(_) => 13,
        DatumView::Interval(_) => 14,
        DatumView::Bytes(_) => 15,
        DatumView::String(_) => 16,
        DatumView::Array { .. } => 17,
        DatumView::List(_) => 18,
        DatumView::Dict(_) => 19,
        DatumView::Numeric(_) => 20,
        DatumView::JsonNull => 21,
        DatumView::Uuid(_) => 22,
        DatumView::MzTimestamp(_) => 23,
        DatumView::EmptyRange => 24,
        DatumView::Range { .. } => 24,
        DatumView::Dummy => 25,
        DatumView::Null => 26,
    }
}

/// The datum `l` stands above the datum `u` of its kind, where neither
/// holds other datums: numbers by value, spans of time by months, then
/// days, then microseconds, bytes and identifiers byte by byte, strings by
/// the bytes of their text, dictionaries by the bytes of their packed
/// entries, decimal numbers by value; a decimal number whose coefficient
/// units do not hold three digits each stands above none and below none.
pub open spec fn above_plain(l: DatumView, u: DatumView) -> bool {
    match (l, u) {
        (DatumView::Interval(a), DatumView::Interval(b)) => a.months > b.months || (a.months
            == b.months && (a.days > b.days || (a.days == b.days && a.micros > b.micros))),
        (DatumView::Bytes(a), DatumView::Bytes(b)) => crate::order::lex_less(b, a),
        (DatumView::String(a), DatumView::String(b)) => crate::order::lex_less(
            vstd::utf8::encode_utf8(b),
            vstd::utf8::encode_utf8(a),
        ),
        (DatumView::Uuid(a), DatumView::Uuid(b)) => crate::order::lex_less(b, a),
        (DatumView::Dict(a), DatumView::Dict(b)) => crate::order::lex_less(b, a),
        (DatumView::Numeric(a), DatumView::Numeric(b)) => units_fit(a) && units_fit(b)
            && numeric_above(a, b),
        _ => match (order_key(l), order_key(u)) {
            (Some(a), Some(b)) => a > b,
            _ => false,
        },
    }
}

/// How deep the datums that `d` holds can be nested at most: a list or an
/// array no deeper than its packed elements are long, a range one deeper
/// than its ends.
pub open spec fn depth_of(d: DatumView) -> nat
    decreases d,
{
    match d {
        DatumView::List(elements) => elements.len(),
        DatumView::Array { elements, .. } => elements.len(),
        DatumView::Range { lower, upper } => {
            let below = match lower.bound {
                Some(x) => depth_of(*x),
                None => 0,
            };
            let over = match upper.bound {
                Some(x) => depth_of(*x),
                None => 0,
            };
            if below + over + 1 > usize::MAX {
                usize::MAX as nat
            } else {
                below + over + 1
            }
        },
        _ => 0,
    }
}

/// The end `x` of a range stands above the end `y`, both lower ends or
/// both upper ends. An end that is unbounded lies below every bounded
/// lower end and above every bounded upper end; bounded ends go by their
/// datums; and of two ends at one datum the lower end that leaves the
/// datum out and the upper end that takes it in stands above.
pub open spec fn bound_ranked(x: BoundView, y: BoundView, upper: bool, depth: nat) -> bool
    decreases depth, 1nat,
{
    let by_inclusion = x.inclusive != y.inclusive && x.inclusive == upper;
    match (x.bound, y.bound) {
        (None, None) => by_inclusion,
        (Some(_), None) => !upper,
        (None, Some(_)) => upper,
        (Some(a), Some(b)) => ranked(*a, *b, depth) || (!ranked(*b, *a, depth) && by_inclusion),
    }
}

/// The datums that are packed in `a` stand above those packed in `b`:
/// the first datum in which they differ stands above its fellow, or `b`
/// ends before they differ and `a` does not.
pub open spec fn bytes_ranked(a: Seq<u8>, b: Seq<u8>, depth: nat) -> bool
    decreases depth, 2 + a.len(),
{
    match crate::decoding::decode_datum(a) {
        Some((x, n)) => if n == 0 || n > a.len() {
            false
        } else {
            match crate::decoding::decode_datum(b) {
                Some((y, m)) => if m == 0 || m > b.len() {
                    true
                } else if ranked(x, y, depth) {
                    true
                } else if ranked(y, x, depth) {
                    false
                } else {
                    bytes_ranked(a.skip(n as int), b.skip(m as int), depth)
                },
                None => true,
            }
        },
        None => false,
    }
}

/// The datum `l` stands above the datum `u` in the order of all datums,
/// looked into to the depth `depth`. Datums of two kinds go by their
/// kinds. Lists go by the first element in which they differ, arrays by
/// their elements and then by their dimensions, ranges by their lower
/// ends and then by their upper ends, the empty range below every other;
/// all other datums go by the order of their kind.
pub open spec fn ranked(l: DatumView, u: DatumView, depth: nat) -> bool
    decreases depth, 0nat,
{
    if kind_of(l) != kind_of(u) {
        kind_of(l) > kind_of(u)
    } else {
        match (l, u) {
            (DatumView::List(a), DatumView::List(b)) => depth > 0 && bytes_ranked(
                a,
                b,
                (depth - 1) as nat,
            ),
            (
                DatumView::Array { dims: da, elements: ea },
                DatumView::Array { dims: db, elements: eb },
            ) => depth > 0 && (bytes_ranked(ea, eb, (depth - 1) as nat) || (!bytes_ranked(
                eb,
                ea,
                (depth - 1) as nat,
            ) && crate::order::lex_less(db, da))),
            (DatumView::Range { .. }, DatumView::EmptyRange) => true,
            (
                DatumView::Range { lower: ll, upper: lu },
                DatumView::Range { lower: ul, upper: uu },
            ) => depth > 0 && (bound_ranked(ll, ul, false, (depth - 1) as nat) || (!bound_ranked(
                ul,
                ll,
                false,
                (depth - 1) as nat,
            ) && bound_ranked(lu, uu, true, (depth - 1) as nat))),
            (DatumView::EmptyRange, _) => false,
            (DatumView::List(_), _) => false,
            (DatumView::Array { .. }, _) => false,
            (DatumView::Range { .. }, _) => false,
            _ => above_plain(l, u),
        }
    }
}

/// The datum `l` stands above the datum `u` in the order of all datums.
pub open spec fn above(l: DatumView, u: DatumView) -> bool {
    ranked(l, u, depth_of(l))
}

/// The datums `l` and `u` cannot be the lower and the upper end of one
/// range: they are of two kinds, or `l` lies above `u`.
pub open spec fn ends_rejected(l: DatumView, u: DatumView) -> bool {
    kind_of(l) != kind_of(u) || above(l, u)
}

/// The two ends are there and cannot be the ends of one range.
pub open spec fn bounds_misordered(lower: BoundView, upper: BoundView) -> bool {
    lower.bound matches Some(l) && upper.bound matches Some(u) && ends_rejected(*l, *u)
}

/// The number by which a float of 32 bits with the bits `bits` is ordered.
fn float32_key_of(bits: u32) -> (k: i128)
    ensures
        k == float32_key(bits),
{
    let magnitude: u32 = bits & 0x7fff_ffff;
    if magnitude > 0x7f80_0000 {
        0x8000_0000
    } else if bits & 0x8000_0000 != 0 {
        -(magnitude as i128)
    } else {
        magnitude as i128
    }
}

/// The number by which a float of 64 bits with the bits `bits` is ordered.
fn float64_key_of(bits: u64) -> (k: i128)
    ensures
        k == float64_key(bits),
{
    let magnitude: u64 = bits & 0x7fff_ffff_ffff_ffff;
    if magnitude > 0x7ff0_0000_0000_0000 {
        0x8000_0000_0000_0000
    } else if bits & 0x8000_0000_0000_0000 != 0 {
        -(magnitude as i128)
    } else {
        magnitude as i128
    }
}

/// The number by which `d` is ordered among the datums of its kind, if its
/// kind is ordered by one number, and the number of its kind.
pub fn order_key_of(d: &Datum) -> (r: (Option<i128>, u8))
    ensures
        match r.0 {
            Some(key) => order_key(d@) == Some(key as int),
            None => order_key(d@) is None,
        },
        r.1 == kind_of(d@),
{
    match d {
        Datum::False => (Some(0), 0),
        Datum::True => (Some(1), 0),
        Datum::Int16(i) => (Some(*i as i128), 1),
        Datum::Int32(i) => (Some(*i as i128), 2),
        Datum::Int64(i) => (Some(*i as i128), 3),
        Datum::UInt8(i) => (Some(*i as i128), 4),
        Datum::UInt16(i) => (Some(*i as i128), 5),
        Datum::UInt32(i) => (Some(*i as i128), 6),
        Datum::UInt64(i) => (Some(*i as i128), 7),
        Datum::Float32(bits) => (Some(float32_key_of(*bits)), 8),
        Datum::Float64(bits) => (Some(float64_key_of(*bits)), 9),
        Datum::Date(date) => (Some(date.pg_epoch_days as i128), 10),
        Datum::Time(t) => (Some(t.secs as i128 * 2_000_000_000 + t.nanos as i128), 11),
        Datum::Timestamp(t) => (
            Some(
                ((t.year as i128 * 367 + t.ordinal as i128) * 86_400 + t.time.secs as i128)
                    * 2_000_000_000 + t.time.nanos as i128,
            ),
            12,
        ),
        Datum::TimestampTz(t) => (
            Some(
                ((t.year as i128 * 367 + t.ordinal as i128) * 86_400 + t.time.secs as i128)
                    * 2_000_000_000 + t.time.nanos as i128,
            ),
            13,
        ),
        Datum::Interval(_) => (None, 14),
        Datum::Bytes(_) => (None, 15),
        Datum::String(_) => (None, 16),
        Datum::Array(_) => (None, 17),
        Datum::List(_) => (None, 18),
        Datum::Dict(_) => (None, 19),
        Datum::Numeric(_) => (None, 20),
        Datum::JsonNull => (Some(0), 21),
        Datum::Uuid(_) => (None, 22),
        Datum::MzTimestamp(t) => (Some(*t as i128), 23),
        Datum::Range(_) => (None, 24),
        Datum::Dummy => (Some(0), 25),
        Datum::Null => (None, 26),
    }
}

/// Whether `l` stands above `u` of its kind, where neither holds other
/// datums.
fn plain_above(l: &Datum, u: &Datum) -> (b: bool)
    requires
        l@.wf(),
        u@.wf(),
    ensures
        b == above_plain(l@, u@),
{
    match (l, u) {
        (Datum::Interval(a), Datum::Interval(b)) => a.months > b.months || (a.months == b.months
            && (a.days > b.days || (a.days == b.days && a.micros > b.micros))),
        (Datum::Bytes(a), Datum::Bytes(b)) => crate::order::bytes_less(
            b.as_slice(),
            a.as_slice(),
        ),
        (Datum::String(a), Datum::String(b)) => crate::order::bytes_less(
            b.as_str().as_bytes(),
            a.as_str().as_bytes(),
        ),
        (Datum::Uuid(a), Datum::Uuid(b)) => crate::order::bytes_less(
            b.bytes.as_slice(),
            a.bytes.as_slice(),
        ),
        (Datum::Dict(a), Datum::Dict(b)) => crate::order::bytes_less(
            b.data.as_slice(),
            a.data.as_slice(),
        ),
        (Datum::Numeric(a), Datum::Numeric(b)) => a.has_units_fit() && b.has_units_fit()
            && a.is_above(b),
        _ => match (order_key_of(l).0, order_key_of(u).0) {
            (Some(a), Some(b)) => a > b,
            _ => false,
        },
    }
}

/// How deep the datums that `d` holds can be nested at most.
pub fn depth(d: &Datum) -> (n: usize)
    ensures
        n == depth_of(d@),
    decreases d,
{
    match d {
        Datum::List(l) => l.data.len(),
        Datum::Array(a) => a.elements.data.len(),
        Datum::Range(r) => match &r.inner {
            None => 0,
            Some(inner) => {
                let below = match &inner.lower.bound {
                    Some(x) => depth(x),
                    None => 0,
                };
                let over = match &inner.upper.bound {
                    Some(x) => depth(x),
                    None => 0,
                };
                if below >= usize::MAX - over {
                    usize::MAX
                } else {
                    below + over + 1
                }
            },
        },
        _ => 0,
    }
}

/// Whether the end `x` of a range stands above the end `y`, both lower
/// ends or both upper ends.
fn bound_above(x: &RangeBound, y: &RangeBound, upper: bool, fuel: usize) -> (b: bool)
    requires
        bound_view(*x).wf(),
        bound_view(*y).wf(),
    ensures
        b == bound_ranked(bound_view(*x), bound_view(*y), upper, fuel as nat),
    decreases fuel, 1nat,
{
    let by_inclusion = x.inclusive != y.inclusive && x.inclusive == upper;
    match (&x.bound, &y.bound) {
        (None, None) => by_inclusion,
        (Some(_), None) => !upper,
        (None, Some(_)) => upper,
        (Some(a), Some(b)) => ranked_above(a, b, fuel) || (!ranked_above(b, a, fuel)
            && by_inclusion),
    }
}

/// Whether the datums that are packed in `a` stand above those packed in
/// `b`.
fn bytes_above(a: &[u8], b: &[u8], fuel: usize) -> (above: bool)
    ensures
        above == bytes_ranked(a@, b@, fuel as nat),
    decreases fuel, 2 + a@.len(),
{
    let mut at: usize = 0;
    let mut bt: usize = 0;
    proof {
        assert(a@.skip(0) =~= a@);
        assert(b@.skip(0) =~= b@);
    }
    loop
        invariant
            at <= a@.len(),
            bt <= b@.len(),
            bytes_ranked(a@, b@, fuel as nat) == bytes_ranked(
                a@.skip(at as int),
                b@.skip(bt as int),
                fuel as nat,
            ),
        decreases a@.len() - at,
    {
        let ghost here_a = a@.skip(at as int);
        let ghost here_b = b@.skip(bt as int);
        proof {
            crate::decoding::lemma_decode_extent(here_a);
            crate::decoding::lemma_decode_extent(here_b);
        }
        let (x, a_next) = match crate::decoding::read_datum(a, at) {
            Some(read) => read,
            None => {
                return false;
            },
        };
        let (y, b_next) = match crate::decoding::read_datum(b, bt) {
            Some(read) => read,
            None => {
                return true;
            },
        };
        if ranked_above(&x, &y, fuel) {
            return true;
        }
        if ranked_above(&y, &x, fuel) {
            return false;
        }
        proof {
            assert(here_a.skip(a_next - at) =~= a@.skip(a_next as int));
            assert(here_b.skip(b_next - bt) =~= b@.skip(b_next as int));
        }
        at = a_next;
        bt = b_next;
    }
}

/// Whether `l` stands above `u` in the order of all datums, looked into to
/// the depth `fuel`.
fn ranked_above(l: &Datum, u: &Datum, fuel: usize) -> (b: bool)
    requires
        l@.wf(),
        u@.wf(),
    ensures
        b == ranked(l@, u@, fuel as nat),
    decreases fuel, 0nat,
{
    let l_kind = order_key_of(l).1;
    let u_kind = order_key_of(u).1;
    if l_kind != u_kind {
        return l_kind > u_kind;
    }
    match (l, u) {
        (Datum::List(a), Datum::List(b)) => fuel > 0 && bytes_above(
            a.data.as_slice(),
            b.data.as_slice(),
            fuel - 1,
        ),
        (Datum::Array(a), Datum::Array(b)) => fuel > 0 && (bytes_above(
            a.elements.data.as_slice(),
            b.elements.data.as_slice(),
            fuel - 1,
        ) || (!bytes_above(b.elements.data.as_slice(), a.elements.data.as_slice(), fuel - 1)
            && crate::order::bytes_less(b.dims.data.as_slice(), a.dims.data.as_slice()))),
        (Datum::Range(a), Datum::Range(b)) => match (&a.inner, &b.inner) {
            (None, _) => false,
            (Some(_), None) => true,
            (Some(x), Some(y)) => fuel > 0 && (bound_above(&x.lower, &y.lower, false, fuel - 1)
                || (!bound_above(&y.lower, &x.lower, false, fuel - 1) && bound_above(
                &x.upper,
                &y.upper,
                true,
                fuel - 1,
            ))),
        },
        (Datum::List(_), _) => false,
        (Datum::Array(_), _) => false,
        (Datum::Range(_), _) => false,
        _ => plain_above(l, u),
    }
}

/// Whether `l` stands above `u` in the order of all datums.
pub fn datum_above(l: &Datum, u: &Datum) -> (b: bool)
    requires
        l@.wf(),
        u@.wf(),
    ensures
        b == above(l@, u@),
{
    ranked_above(l, u, depth(l))
}

/// Whether the keys of `entries` ascend strictly.
pub fn keys_ascending(entries: &[(String, Datum)]) -> (b: bool)
    ensures
        b == keys_ascend(entries@),
{
    let mut i: usize = 1;
    while i < entries.len()
        invariant
            1 <= i,
            forall|k: int|
                0 < k < i && k < entries@.len() ==> crate::order::lex_less(
                    vstd::utf8::encode_utf8(#[trigger] entries@[k - 1].0@),
                    vstd::utf8::encode_utf8(entries@[k].0@),
                ),
        decreases entries.len() - i,
    {
        let a = entries[i - 1].0.as_str().as_bytes();
        let b = entries[i].0.as_str().as_bytes();
        let at = crate::order::first_difference(a, b);
        let less = if at < a.len() && at < b.len() {
            a[at] < b[at]
        } else {
            proof {
                crate::order::lemma_lex_less_skip(a@, b@, at as int);
            }
            at == a.len() && at < b.len()
        };
        if !less {
            return false;
        }
        i = i + 1;
    }
    true
}

impl Row {
    /// Writes the `n` low bytes of `v` over the bytes from `at` on.
    pub(crate) fn write_le(&mut self, at: usize, v: u64, n: u8)
        requires
            n <= 8,
            at + n <= old(self)@.len(),
        ensures
            final(self)@ == old(self)@.take(at as int) + le_bytes(v as int, n as nat) + old(self)@.skip(at + n),
    {
        let bytes = le_bytes_of(v, n);
        proof {
            lemma_le_bytes_len(v as int, n as nat);
        }
        let ghost before = self@;
        let total = self.data_len();
        let mut k: usize = 0;
        while k < n as usize
            invariant
                k <= n <= 8,
                at + n <= before.len() == total,
                bytes@ == le_bytes(v as int, n as nat),
                bytes@.len() == n,
                self@.len() == before.len(),
                forall|i: int|
                    0 <= i < before.len() ==> #[trigger] self@[i] == if at <= i < at + k {
                        bytes@[i - at]
                    } else {
                        before[i]
                    },
            decreases n - k,
        {
            self.set_byte(at + k, bytes[k]);
            k = k + 1;
        }
        assert(self@ =~= before.take(at as int) + le_bytes(v as int, n as nat) + before.skip(
            at + n,
        ));
    }
}

impl<'a> RowPacker<'a> {
    /// Opens a list: writes the tag of a list of few bytes and keeps one
    /// byte free for the length. Gives the place of the tag.
    pub fn begin_list(&mut self) -> (start: usize)
        requires
            old(self)@.len() + 2 <= buffer_limit(),
        ensures
            start == old(self)@.len(),
            final(self)@ == old(self)@ + seq![Tag::ListTiny.byte(), 0u8],
            final(final(self).row)@ == final(old(self).row)@,
    {
        let start = self.row.data_len();
        self.row.push_byte(Tag::ListTiny.to_byte());
        self.row.push_byte(0);
        assert(self@ =~= old(self)@ + seq![Tag::ListTiny.byte(), 0u8]);
        start
    }

    /// Closes the list that was opened at `start`: what was packed since
    /// becomes its elements. Their length is written behind the tag; where
    /// it does not fit in the one byte kept free, the tag is changed and the
    /// elements are moved up to make room.
    pub fn finish_list(&mut self, start: usize)
        requires
            start + 2 <= old(self)@.len(),
            old(self)@.len() + 7 <= buffer_limit(),
        ensures
            final(self)@ == old(self)@.take(start as int) + lengthed_encoding(
                Tag::ListTiny,
                old(self)@.skip(start + 2),
            ),
            final(final(self).row)@ == final(old(self).row)@,
    {
        let ghost before = self@;
        let ghost payload = before.skip(start + 2);
        let len = self.row.data_len() - start - 2;
        proof {
            lemma_pow256_values();
            lemma_le_bytes_len(len as int, length_width(length_class(len as nat)));
        }
        if len < 0x100 {
            self.row.set_byte(start, Tag::ListTiny.to_byte());
            self.row.write_le(start + 1, len as u64, 1);
            assert(self@ =~= before.take(start as int) + lengthed_encoding(Tag::ListTiny, payload));
        } else {
            let (tag, len_len): (Tag, u8) = if len < 0x1_0000 {
                (Tag::ListShort, 2)
            } else if (len as u64) < 0x1_0000_0000 {
                (Tag::ListLong, 4)
            } else {
                (Tag::ListHuge, 8)
            };
            self.row.set_byte(start, tag.to_byte());
            // Room for the longer length, behind the elements.
            let mut k: u8 = 1;
            while k < len_len
                invariant
                    1 <= k <= len_len <= 8,
                    start + 2 <= before.len(),
                    before.len() + 7 <= buffer_limit(),
                    self@.len() == before.len() + k - 1,
                    forall|i: int| 0 <= i < before.len() && i != start ==> self@[i] == before[i],
                    self@[start as int] == tag.byte(),
                    final(self.row)@ == final(old(self).row)@,
                decreases len_len - k,
            {
                self.row.push_byte(0);
                k = k + 1;
            }
            // The elements move up behind the place of the longer length.
            let ghost grown = self@;
            self.row.copy_within(start + 2, start + 2 + len, start + 1 + len_len as usize);
            let ghost moved = self@;
            self.row.write_le(start + 1, len as u64, len_len);
            proof {
                let want = before.take(start as int) + lengthed_encoding(Tag::ListTiny, payload);
                let dest = start + 1 + len_len;
                assert(self@.len() == want.len());
                assert forall|i: int| 0 <= i < want.len() implies self@[i] == want[i] by {
                    if i < start {
                        assert(moved[i] == grown[i]);
                    } else if i == start {
                        assert(moved[i] == grown[i]);
                    } else if i < dest {
                    } else {
                        assert(moved[i] == grown[start + 2 + i - dest]);
                        assert(payload[i - dest] == before[start + 2 + i - dest]);
                    }
                }
                assert(self@ =~= want);
            }
        }
    }

    /// Packs a list whose elements `f` packs. `f` may use every way of
    /// packing but those that drop what was packed.
    pub fn push_list_with<F, R>(&mut self, f: F) -> (out: R) where F: FnOnce(&mut RowPacker) -> R
        requires
            old(self)@.len() + 2 <= buffer_limit(),
            forall|p: &mut RowPacker|
                p@ == old(self)@ + seq![Tag::ListTiny.byte(), 0u8] ==> #[trigger] call_requires(
                    f,
                    (p,),
                ),
            forall|p: &mut RowPacker, r: R| #[trigger]
                call_ensures(f, (p,), r) ==> extends(p@, final(p)@) && final(p)@.len() + 7
                    <= buffer_limit() && final(final(p).row)@ == final(p.row)@,
        ensures
            // `f` is called once, behind the tag and the place of the
            // length; what it packed are the elements, and what it gave is
            // given.
            exists|p: &mut RowPacker, r: R| #[trigger]
                call_ensures(f, (p,), r) && r == out && p@.len() == old(self)@.len() + 2
                    && extends(old(self)@, p@) && final(self)@ == old(self)@ + encode_datum(
                    DatumView::List(final(p)@.skip(p@.len() as int)),
                ),
            final(final(self).row)@ == final(old(self).row)@,
    {
        let start = self.begin_list();
        let ghost opened = self@;
        let out = f(self);
        let ghost filled = self@;
        self.finish_list(start);
        proof {
            let elements = filled.skip(start + 2);
            assert(filled.take(opened.len() as int) == opened);
            assert(filled.take(start as int) =~= old(self)@) by {
                assert(filled.take(start as int) =~= opened.take(start as int));
            }
            assert(self@ == old(self)@ + encode_datum(DatumView::List(elements)));
            assert(opened.len() == start + 2);
            assert(opened.take(old(self)@.len() as int) =~= old(self)@);
            assert(elements == filled.skip(opened.len() as int));
        }
        out
    }

    /// Packs a list of `datums`.
    pub fn push_list(&mut self, datums: &[Datum])
        requires
            all_wf(views(datums@)),
            old(self)@.len() + 9 + encode_datums(views(datums@)).len() <= buffer_limit(),
        ensures
            final(self)@ == old(self)@ + encode_datum(
                DatumView::List(encode_datums(views(datums@))),
            ),
            final(final(self).row)@ == final(old(self).row)@,
            is_packed(encode_datums(views(datums@))),
    {
        let start = self.begin_list();
        self.extend(datums);
        let ghost filled = self@;
        self.finish_list(start);
        proof {
            lemma_packed_encoding(views(datums@));
            assert(filled.skip(start + 2) =~= encode_datums(views(datums@)));
            assert(filled.take(start as int) =~= old(self)@);
        }
    }

    /// Opens a map: writes its tag and keeps eight bytes free for the
    /// length. Gives the place of the length.
    pub fn begin_dict(&mut self) -> (start: usize)
        requires
            old(self)@.len() + 9 <= buffer_limit(),
        ensures
            start == old(self)@.len() + 1,
            final(self)@ == old(self)@ + seq![Tag::Dict.byte()] + le_bytes(0, 8),
            final(final(self).row)@ == final(old(self).row)@,
    {
        self.row.push_byte(Tag::Dict.to_byte());
        let start = self.row.data_len();
        let zeros = le_bytes_of(0, 8);
        proof {
            lemma_le_bytes_len(0, 8);
        }
        self.row.extend_bytes(zeros.as_slice());
        start
    }

    /// Closes the map whose length has its place at `start`: what was
    /// packed behind that place becomes its keys and values.
    pub fn finish_dict(&mut self, start: usize)
        requires
            1 <= start,
            start + 8 <= old(self)@.len(),
            old(self)@[start - 1] == Tag::Dict.byte(),
        ensures
            final(self)@ == old(self)@.take(start - 1) + encode_datum(
                DatumView::Dict(old(self)@.skip(start + 8)),
            ),
            final(final(self).row)@ == final(old(self).row)@,
    {
        let ghost before = self@;
        let len = self.row.data_len() - start - 8;
        self.row.write_le(start, len as u64, 8);
        assert(self@ =~= before.take(start - 1) + encode_datum(
            DatumView::Dict(before.skip(start + 8)),
        ));
    }

    /// Packs a map whose keys and values `f` packs: a string, then any
    /// datum, and so on. The strings that `f` packs must ascend.
    pub fn push_dict_with<F, R>(&mut self, f: F) -> (out: R) where F: FnOnce(&mut RowPacker) -> R
        requires
            old(self)@.len() + 9 <= buffer_limit(),
            forall|p: &mut RowPacker|
                p@ == old(self)@ + seq![Tag::Dict.byte()] + le_bytes(0, 8)
                    ==> #[trigger] call_requires(f, (p,)),
            forall|p: &mut RowPacker, r: R| #[trigger]
                call_ensures(f, (p,), r) ==> extends(p@, final(p)@) && final(final(p).row)@
                    == final(p.row)@ && crate::row::entries_ascend(
                    final(p)@.skip(p@.len() as int),
                    None,
                ),
        ensures
            // `f` is called once, behind the tag and the place of the
            // length; what it packed are the keys and values, and what it
            // gave is given.
            exists|p: &mut RowPacker, r: R| #[trigger]
                call_ensures(f, (p,), r) && r == out && p@.len() == old(self)@.len() + 9
                    && extends(old(self)@, p@) && final(self)@ == old(self)@ + encode_datum(
                    DatumView::Dict(final(p)@.skip(p@.len() as int)),
                ),
            exists|entries: Seq<u8>|
                crate::row::entries_ascend(entries, None) && final(self)@ == old(self)@
                    + encode_datum(DatumView::Dict(entries)),
            final(final(self).row)@ == final(old(self).row)@,
    {
        let start = self.begin_dict();
        let ghost opened = self@;
        proof {
            lemma_le_bytes_len(0, 8);
        }
        let out = f(self);
        let ghost filled = self@;
        proof {
            assert(filled.take(opened.len() as int) == opened);
            assert(filled[start - 1] == opened[start - 1]);
        }
        self.finish_dict(start);
        proof {
            let entries = filled.skip(start + 8);
            assert(filled.take(start - 1) =~= old(self)@) by {
                assert(filled.take(start - 1) =~= opened.take(start - 1));
            }
            assert(self@ == old(self)@ + encode_datum(DatumView::Dict(entries)));
        }
        out
    }

    /// Packs a map with the keys and values of `entries`, whose keys must
    /// ascend.
    pub fn push_dict(&mut self, entries: &[(String, Datum)])
        requires
            entries_wf(entries@),
            keys_ascend(entries@),
            old(self)@.len() + 9 + entries_bytes(entries@).len() <= buffer_limit(),
        ensures
            final(self)@ == old(self)@ + encode_datum(DatumView::Dict(entries_bytes(entries@))),
            final(final(self).row)@ == final(old(self).row)@,
    {
        let start = self.begin_dict();
        let ghost opened = self@;
        proof {
            lemma_le_bytes_len(0, 8);
        }
        let mut i: usize = 0;
        proof {
            assert(entries@.take(0) =~= Seq::<(String, Datum)>::empty());
            assert(opened + entries_bytes(entries@.take(0)) =~= opened);
            lemma_entries_take(entries@, 0);
        }
        while i < entries.len()
            invariant
                i <= entries.len(),
                entries_wf(entries@),
                opened.len() == old(self)@.len() + 9,
                old(self)@.len() + 9 + entries_bytes(entries@).len() <= buffer_limit(),
                self@ == opened + entries_bytes(entries@.take(i as int)),
                final(self.row)@ == final(old(self).row)@,
            decreases entries.len() - i,
        {
            proof {
                lemma_entries_take(entries@, i as int);
                lemma_entries_take(entries@, i + 1);
            }
            let key = Datum::String(entries[i].0.clone());
            self.row.push_one(&key);
            self.row.push_one(&entries[i].1);
            assert(self@ =~= opened + entries_bytes(entries@.take(i + 1)));
            i = i + 1;
        }
        let ghost filled = self@;
        proof {
            assert(entries@.take(entries@.len() as int) =~= entries@);
            assert(filled[start - 1] == opened[start - 1]);
        }
        self.finish_dict(start);
        proof {
            assert(filled.skip(start + 8) =~= entries_bytes(entries@));
            assert(filled.take(start - 1) =~= old(self)@);
        }
    }

    /// Packs the range `range`, unless its ends are of two kinds or its
    /// lower end lies above its upper end.
    pub fn push_range(&mut self, range: &Range) -> (r: Result<(), InvalidRangeError>)
        requires
            Datum::Range(*range)@.wf(),
            old(self)@.len() + encode_datum(Datum::Range(*range)@).len() <= buffer_limit(),
        ensures
            final(final(self).row)@ == final(old(self).row)@,
            match r {
                Ok(()) => final(self)@ == old(self)@ + encode_datum(Datum::Range(*range)@) && (
                range.inner matches Some(inner) ==> !bounds_misordered(
                    bound_view(inner.lower),
                    bound_view(inner.upper),
                )),
                Err(InvalidRangeError::MisorderedRangeBounds) => final(self)@ == old(self)@ && (
                range.inner matches Some(inner) && bounds_misordered(
                    bound_view(inner.lower),
                    bound_view(inner.upper),
                )),
            },
    {
        let start = self.row.data_len();
        self.row.push_byte(Tag::Range.to_byte());
        match &range.inner {
            None => {
                self.row.push_byte(RANGE_EMPTY);
                assert(self@ =~= old(self)@ + encode_datum(Datum::Range(*range)@));
                Ok(())
            },
            Some(inner) => {
                let flags = range_flags_of(&inner.lower, &inner.upper);
                self.row.push_byte(flags);
                let ghost head = self@;
                match &inner.lower.bound {
                    None => {},
                    Some(d) => {
                        self.row.push_one(d);
                    },
                }
                let ghost mid = self@;
                match &inner.upper.bound {
                    None => {},
                    Some(d) => {
                        self.row.push_one(d);
                    },
                }
                proof {
                    let lo = crate::encoding::bound_encoding(bound_view(inner.lower));
                    let up = crate::encoding::bound_encoding(bound_view(inner.upper));
                    assert(mid =~= head + lo);
                    assert(self@ =~= head + lo + up);
                    assert(self@ =~= old(self)@ + encode_datum(Datum::Range(*range)@));
                }
                let misordered = match (&inner.lower.bound, &inner.upper.bound) {
                    (Some(l), Some(u)) => order_key_of(l).1 != order_key_of(u).1 || datum_above(
                        l,
                        u,
                    ),
                    _ => false,
                };
                if misordered {
                    self.row.truncate_bytes(start);
                    assert(self@ =~= old(self)@);
                    Err(InvalidRangeError::MisorderedRangeBounds)
                } else {
                    Ok(())
                }
            },
        }
    }

    /// Packs an array with the dimensions `dims` and the elements
    /// `datums`, unless there are too many dimensions or the elements are
    /// not as many as the dimensions say. Then nothing is packed.
    pub fn try_push_array(&mut self, dims: &[ArrayDimension], datums: &[Datum]) -> (r: Result<
        (),
        InvalidArrayError,
    >)
        requires
            all_wf(views(datums@)),
            old(self)@.len() + 10 + 16 * MAX_ARRAY_DIMENSIONS + encode_datums(views(datums@)).len()
                <= buffer_limit(),
        ensures
            final(final(self).row)@ == final(old(self).row)@,
            match r {
                Ok(()) => dims@.len() <= MAX_ARRAY_DIMENSIONS && array_cardinality(dims@)
                    == datums@.len() && final(self)@ == old(self)@ + encode_datum(
                    DatumView::Array {
                        dims: dims_bytes(dims@),
                        elements: encode_datums(views(datums@)),
                    },
                ),
                Err(InvalidArrayError::TooManyDimensions(n)) => dims@.len() > MAX_ARRAY_DIMENSIONS
                    && n == dims@.len() && final(self)@ == old(self)@,
                Err(InvalidArrayError::WrongCardinality { actual, expected }) => dims@.len()
                    <= MAX_ARRAY_DIMENSIONS && array_cardinality(dims@) != datums@.len() && actual
                    == datums@.len() && (expected == array_cardinality(dims@) || (expected
                    == usize::MAX && array_cardinality(dims@) > usize::MAX)) && final(self)@
                    == old(self)@,
            },
    {
        if dims.len() > MAX_ARRAY_DIMENSIONS as usize {
            return Err(InvalidArrayError::TooManyDimensions(dims.len()));
        }
        let start = self.row.data_len();
        let off = self.begin_array(dims);
        let ghost opened = self@;
        proof {
            lemma_le_bytes_len(0, 8);
            lemma_dims_bytes_len(dims@);
        }
        self.extend(datums);
        let ghost filled = self@;
        self.finish_array(off);
        proof {
            lemma_dims_bytes_len(dims@);
            assert(filled.take(off as int) =~= opened.take(off as int));
            assert(filled.skip(off + 8) =~= encode_datums(views(datums@)));
            let head = seq![Tag::Array.byte(), dims@.len() as u8] + dims_bytes(dims@);
            assert(opened.take(off as int) =~= old(self)@ + head);
            assert((dims_bytes(dims@).len() / 16) as u8 == dims@.len() as u8);
            assert(self@ =~= old(self)@ + encode_datum(
                DatumView::Array {
                    dims: dims_bytes(dims@),
                    elements: encode_datums(views(datums@)),
                },
            ));
        }
        match check_cardinality(datums.len(), cardinality_of(dims)) {
            Ok(()) => Ok(()),
            Err(e) => {
                self.row.truncate_bytes(start);
                assert(self@ =~= old(self)@);
                Err(e)
            },
        }
    }

    /// Opens an array: writes its tag, the number of its dimensions and the
    /// dimensions, and keeps eight bytes free for the length of the
    /// elements. Gives the place of that length.
    pub fn begin_array(&mut self, dims: &[ArrayDimension]) -> (off: usize)
        requires
            dims@.len() <= 255,
            old(self)@.len() + 10 + 16 * dims@.len() <= buffer_limit(),
        ensures
            off == old(self)@.len() + 2 + 16 * dims@.len(),
            final(self)@ == old(self)@ + seq![Tag::Array.byte(), dims@.len() as u8] + dims_bytes(
                dims@,
            ) + le_bytes(0, 8),
            final(final(self).row)@ == final(old(self).row)@,
    {
        self.row.push_byte(Tag::Array.to_byte());
        self.row.push_byte(dims.len() as u8);
        let ghost head = self@;
        assert(head =~= old(self)@ + seq![Tag::Array.byte(), dims@.len() as u8]);
        let mut i: usize = 0;
        proof {
            assert(dims@.take(0) =~= Seq::<ArrayDimension>::empty());
            assert(head + dims_bytes(dims@.take(0)) =~= head);
            lemma_pow256_values();
        }
        while i < dims.len()
            invariant
                i <= dims.len(),
                dims@.len() <= 255,
                head.len() == old(self)@.len() + 2,
                old(self)@.len() + 10 + 16 * dims@.len() <= buffer_limit(),
                self@ == head + dims_bytes(dims@.take(i as int)),
                final(self.row)@ == final(old(self).row)@,
            decreases dims.len() - i,
        {
            proof {
                lemma_pow256_values();
                lemma_dims_bytes_len(dims@.take(i as int));
                assert(dims@.take(i + 1).drop_last() =~= dims@.take(i as int));
                lemma_le_bytes_len(dims@[i as int].lower_bound as int, 8);
                lemma_le_bytes_len(dims@[i as int].length as int, 8);
            }
            let lower = le_bytes_of_signed(dims[i].lower_bound as i64, 8);
            self.row.extend_bytes(lower.as_slice());
            let length = le_bytes_of(dims[i].length as u64, 8);
            self.row.extend_bytes(length.as_slice());
            assert(self@ =~= head + dims_bytes(dims@.take(i + 1)));
            i = i + 1;
        }
        proof {
            assert(dims@.take(dims@.len() as int) =~= dims@);
            lemma_dims_bytes_len(dims@);
            lemma_le_bytes_len(0, 8);
        }
        let off = self.row.data_len();
        let zeros = le_bytes_of(0, 8);
        self.row.extend_bytes(zeros.as_slice());
        off
    }

    /// Closes the array whose elements have the place of their length at
    /// `off`: writes the length of what was packed behind that place.
    pub fn finish_array(&mut self, off: usize)
        requires
            off + 8 <= old(self)@.len(),
        ensures
            final(self)@ == old(self)@.take(off as int) + le_bytes(
                (old(self)@.len() - off - 8) as int,
                8,
            ) + old(self)@.skip(off + 8),
            final(final(self).row)@ == final(old(self).row)@,
    {
        let len = self.row.data_len() - off - 8;
        self.row.write_le(off, len as u64, 8);
    }

    /// Packs an array with the dimensions `dims` whose elements `f` packs.
    /// `f` gives the number of elements that it packed, or an error. On an
    /// error, with too many dimensions, and where the elements are not as
    /// many as the dimensions say, nothing is packed.
    pub fn push_array_with_unchecked<F>(&mut self, dims: &[ArrayDimension], f: F) -> (r: Result<
        (),
        InvalidArrayError,
    >) where F: FnOnce(&mut RowPacker) -> Result<usize, InvalidArrayError>
        requires
            old(self)@.len() + 10 + 16 * MAX_ARRAY_DIMENSIONS <= buffer_limit(),
            forall|p: &mut RowPacker|
                extends(old(self)@, p@) && p@.len() == old(self)@.len() + 10 + 16 * dims@.len()
                    ==> #[trigger] call_requires(f, (p,)),
            forall|p: &mut RowPacker, r: Result<usize, InvalidArrayError>| #[trigger]
                call_ensures(f, (p,), r) ==> extends(p@, final(p)@) && final(final(p).row)@
                    == final(p.row)@,
        ensures
            final(final(self).row)@ == final(old(self).row)@,
            match r {
                Ok(()) => dims@.len() <= MAX_ARRAY_DIMENSIONS && exists|elements: Seq<u8>|
                    final(self)@ == old(self)@ + encode_datum(
                        DatumView::Array { dims: dims_bytes(dims@), elements },
                    ),
                Err(_) => final(self)@ == old(self)@,
            },
            dims@.len() > MAX_ARRAY_DIMENSIONS ==> r == Err::<(), InvalidArrayError>(
                InvalidArrayError::TooManyDimensions(dims@.len() as usize),
            ),
            // With no more dimensions than there may be, `f` is called once
            // behind the dimensions and the place of the length, and decides:
            // its error is the error; and the number that it gives must be
            // what the dimensions ask for, or that is the error. What it
            // packed are the elements.
            dims@.len() <= MAX_ARRAY_DIMENSIONS ==> exists|
                p: &mut RowPacker,
                out: Result<usize, InvalidArrayError>,
            | #[trigger]
                call_ensures(f, (p,), out) && extends(old(self)@, p@) && p@.len() == old(self)@.len()
                    + 10 + 16 * dims@.len() && match out {
                    Err(e) => r == Err::<(), InvalidArrayError>(e),
                    Ok(n) => match cardinality_error(dims@, n) {
                        Some(e) => r == Err::<(), InvalidArrayError>(e),
                        None => r is Ok && final(self)@ == old(self)@ + encode_datum(
                            DatumView::Array {
                                dims: dims_bytes(dims@),
                                elements: final(p)@.skip(p@.len() as int),
                            },
                        ),
                    },
                },
    {
        if dims.len() > MAX_ARRAY_DIMENSIONS as usize {
            return Err(InvalidArrayError::TooManyDimensions(dims.len()));
        }
        let start = self.row.data_len();
        let off = self.begin_array(dims);
        let ghost opened = self@;
        proof {
            lemma_le_bytes_len(0, 8);
            lemma_dims_bytes_len(dims@);
            assert(opened.take(old(self)@.len() as int) =~= old(self)@);
        }
        let nelements = match f(self) {
            Ok(nelements) => nelements,
            Err(e) => {
                proof {
                    assert(self@.take(start as int) =~= opened.take(start as int));
                }
                self.row.truncate_bytes(start);
                return Err(e);
            },
        };
        let ghost filled = self@;
        self.finish_array(off);
        proof {
            assert(filled.take(off as int) =~= opened.take(off as int));
            let head = seq![Tag::Array.byte(), dims@.len() as u8] + dims_bytes(dims@);
            assert(opened.take(off as int) =~= old(self)@ + head);
            assert((dims_bytes(dims@).len() / 16) as u8 == dims@.len() as u8);
            let elements = filled.skip(off + 8);
            assert(self@ =~= old(self)@ + encode_datum(
                DatumView::Array { dims: dims_bytes(dims@), elements },
            ));
            assert(opened.len() == off + 8);
            assert(elements == filled.skip(opened.len() as int));
        }
        match check_cardinality(nelements, cardinality_of(dims)) {
            Ok(()) => Ok(()),
            Err(e) => {
                self.row.truncate_bytes(start);
                assert(self@ =~= old(self)@);
                Err(e)
            },
        }
    }

    /// Like `push_array_with_unchecked`, for dimensions that are handed
    /// over one by one.
    pub fn push_array_with_row_major<F>(&mut self, dims: Vec<ArrayDimension>, f: F) -> (r: Result<
        (),
        InvalidArrayError,
    >) where F: FnOnce(&mut RowPacker) -> usize
        requires
            old(self)@.len() + 10 + 16 * MAX_ARRAY_DIMENSIONS <= buffer_limit(),
            forall|p: &mut RowPacker|
                extends(old(self)@, p@) && p@.len() == old(self)@.len() + 10 + 16 * dims@.len()
                    ==> #[trigger] call_requires(f, (p,)),
            forall|p: &mut RowPacker, n: usize| #[trigger]
                call_ensures(f, (p,), n) ==> extends(p@, final(p)@) && final(final(p).row)@
                    == final(p.row)@,
        ensures
            final(final(self).row)@ == final(old(self).row)@,
            match r {
                Ok(()) => dims@.len() <= MAX_ARRAY_DIMENSIONS && exists|elements: Seq<u8>|
                    final(self)@ == old(self)@ + encode_datum(
                        DatumView::Array { dims: dims_bytes(dims@), elements },
                    ),
                Err(_) => final(self)@ == old(self)@,
            },
            dims@.len() > MAX_ARRAY_DIMENSIONS ==> r == Err::<(), InvalidArrayError>(
                InvalidArrayError::TooManyDimensions(dims@.len() as usize),
            ),
            // With no more dimensions than there may be, `f` is called once
            // behind the dimensions and the place of the length. The number
            // that it gives must be what the dimensions ask for, or that is
            // the error. What it packed are the elements.
            dims@.len() <= MAX_ARRAY_DIMENSIONS ==> exists|p: &mut RowPacker, n: usize| #[trigger]
                call_ensures(f, (p,), n) && extends(old(self)@, p@) && p@.len() == old(self)@.len()
                    + 10 + 16 * dims@.len() && match cardinality_error(dims@, n) {
                    Some(e) => r == Err::<(), InvalidArrayError>(e),
                    None => r is Ok && final(self)@ == old(self)@ + encode_datum(
                        DatumView::Array {
                            dims: dims_bytes(dims@),
                            elements: final(p)@.skip(p@.len() as int),
                        },
                    ),
                },
    {
        if dims.len() > MAX_ARRAY_DIMENSIONS as usize {
            return Err(InvalidArrayError::TooManyDimensions(dims.len()));
        }
        let start = self.row.data_len();
        let off = self.begin_array(dims.as_slice());
        let ghost opened = self@;
        proof {
            lemma_le_bytes_len(0, 8);
            lemma_dims_bytes_len(dims@);
            assert(opened.take(old(self)@.len() as int) =~= old(self)@);
        }
        let nelements = f(self);
        let ghost filled = self@;
        self.finish_array(off);
        proof {
            assert(filled.take(off as int) =~= opened.take(off as int));
            let head = seq![Tag::Array.byte(), dims@.len() as u8] + dims_bytes(dims@);
            assert(opened.take(off as int) =~= old(self)@ + head);
            assert((dims_bytes(dims@).len() / 16) as u8 == dims@.len() as u8);
            let elements = filled.skip(off + 8);
            assert(self@ =~= old(self)@ + encode_datum(
                DatumView::Array { dims: dims_bytes(dims@), elements },
            ));
            assert(opened.len() == off + 8);
            assert(elements == filled.skip(opened.len() as int));
        }
        match check_cardinality(nelements, cardinality_of(dims.as_slice())) {
            Ok(()) => Ok(()),
            Err(e) => {
                self.row.truncate_bytes(start);
                assert(self@ =~= old(self)@);
                Err(e)
            },
        }
    }
}

/// Behind `before` stands in `after` exactly one datum.
pub open spec fn packs_one(before: Seq<u8>, after: Seq<u8>) -> bool {
    crate::decoding::decode_datum(after.skip(before.len() as int)) matches Some((d, n)) && n
        == after.len() - before.len()
}

/// What a packer of one end of a range has to keep to: where it has packed
/// exactly one datum, that datum is not null.
pub open spec fn bound_allowed(before: Seq<u8>, after: Seq<u8>) -> bool {
    packs_one(before, after) ==> !(packed_datum(before, after) is Null)
}

/// What a packer of one end of a range has done when it has packed exactly
/// one datum, which is not null.
pub open spec fn packs_one_bound(before: Seq<u8>, after: Seq<u8>) -> bool {
    extends(before, after) && packs_one(before, after) && !(packed_datum(before, after) is Null)
}

/// `before` with the tag of a range and the flags `flags` behind it.
pub open spec fn range_head(before: Seq<u8>, flags: u8) -> Seq<u8> {
    before.push(Tag::Range.byte()).push(flags)
}

/// The one datum that stands in `after` behind `before`.
pub open spec fn packed_datum(before: Seq<u8>, after: Seq<u8>) -> DatumView {
    match crate::decoding::decode_datum(after.skip(before.len() as int)) {
        Some((d, _)) => d,
        None => DatumView::Null,
    }
}

/// Behind `head` stand in `after` the ends of a range that are there, the
/// lower up to the place `m` and the upper from there on, each one datum
/// that is not null, both of
/// one kind and the lower no higher than the upper.
pub open spec fn range_packed(
    head: Seq<u8>,
    after: Seq<u8>,
    m: int,
    lower_there: bool,
    upper_there: bool,
) -> bool {
    &&& head.len() <= m <= after.len()
    &&& extends(head, after)
    &&& if lower_there {
        packs_one_bound(head, after.take(m))
    } else {
        m == head.len()
    }
    &&& if upper_there {
        packs_one_bound(after.take(m), after)
    } else {
        m == after.len()
    }
    &&& lower_there && upper_there ==> !ends_rejected(
        packed_datum(head, after.take(m)),
        packed_datum(after.take(m), after),
    )
}

/// The flags of a range by what is known of its ends.
pub open spec fn flags_by(
    lower_inclusive: bool,
    lower_infinite: bool,
    upper_inclusive: bool,
    upper_infinite: bool,
) -> u8 {
    ((if lower_inclusive {
        2int
    } else {
        0
    }) + (if lower_infinite {
        4int
    } else {
        0
    }) + (if upper_inclusive {
        8int
    } else {
        0
    }) + (if upper_infinite {
        16int
    } else {
        0
    })) as u8
}

impl<'a> RowPacker<'a> {
    /// Reads the datum that was packed from `at` on, if exactly one was.
    fn datum_packed(&self, at: usize) -> (found: Option<Datum>)
        requires
            at <= self@.len(),
        ensures
            found is Some <==> packs_one(self@.take(at as int), self@),
            found matches Some(x) ==> x@ == packed_datum(self@.take(at as int), self@) && x@.wf(),
    {
        let data = self.row.data();
        match crate::decoding::read_datum(data, at) {
            Some((d, next)) => if next == data.len() {
                Some(d)
            } else {
                None
            },
            None => None,
        }
    }

    /// Packs a range whose ends `lower` and `upper` pack. Each has to pack
    /// exactly one datum, both of one kind, and the lower no higher than
    /// the upper: else the range is refused as one with misordered ends.
    /// An error of either is handed on. On an error nothing is packed. An
    /// end must not pack a null.
    pub fn push_range_with<L, U>(
        &mut self,
        lower: RangeLowerBound<L>,
        upper: RangeUpperBound<U>,
    ) -> (r: Result<(), InvalidRangeError>) where
        L: FnOnce(&mut RowPacker) -> Result<(), InvalidRangeError>,
        U: FnOnce(&mut RowPacker) -> Result<(), InvalidRangeError>,

        requires
            old(self)@.len() + 2 <= buffer_limit(),
            lower.bound matches Some(f) ==> (forall|p: &mut RowPacker|
                p@.len() == old(self)@.len() + 2 && extends(old(self)@, p@)
                    ==> #[trigger] call_requires(f, (p,))) && (forall|
                p: &mut RowPacker,
                r: Result<(), InvalidRangeError>,
            | #[trigger]
                call_ensures(f, (p,), r) ==> extends(p@, final(p)@) && final(final(p).row)@
                    == final(p.row)@ && (r is Ok ==> bound_allowed(p@, final(p)@))),
            upper.bound matches Some(f) ==> (forall|p: &mut RowPacker|
                extends(old(self)@, p@) ==> #[trigger] call_requires(f, (p,))) && (forall|
                p: &mut RowPacker,
                r: Result<(), InvalidRangeError>,
            | #[trigger]
                call_ensures(f, (p,), r) ==> extends(p@, final(p)@) && final(final(p).row)@
                    == final(p.row)@ && (r is Ok ==> bound_allowed(p@, final(p)@))),
        ensures
            final(final(self).row)@ == final(old(self).row)@,
            // On success the ends are what the closures packed, the upper
            // behind the lower, each one datum, and the two fit together.
            r is Ok ==> match (lower.bound, upper.bound) {
                (None, None) => true,
                (Some(fl), None) => exists|pl: &mut RowPacker, outl: Result<(), InvalidRangeError>| #[trigger]
                    call_ensures(fl, (pl,), outl) && outl is Ok && pl@ == range_head(
                        old(self)@,
                        flags_by(lower.inclusive, false, upper.inclusive, true),
                    ) && final(self)@ == final(pl)@ && packs_one(pl@, final(pl)@),
                (None, Some(fu)) => exists|pu: &mut RowPacker, outu: Result<(), InvalidRangeError>| #[trigger]
                    call_ensures(fu, (pu,), outu) && outu is Ok && pu@ == range_head(
                        old(self)@,
                        flags_by(lower.inclusive, true, upper.inclusive, false),
                    ) && final(self)@ == final(pu)@ && packs_one(pu@, final(pu)@),
                (Some(fl), Some(fu)) => exists|
                    pl: &mut RowPacker,
                    pu: &mut RowPacker,
                    outl: Result<(), InvalidRangeError>,
                    outu: Result<(), InvalidRangeError>,
                |
                    #![trigger call_ensures(fl, (pl,), outl), call_ensures(fu, (pu,), outu)]
                    call_ensures(fl, (pl,), outl) && outl is Ok && call_ensures(fu, (pu,), outu)
                        && outu is Ok && pl@ == range_head(
                        old(self)@,
                        flags_by(lower.inclusive, false, upper.inclusive, false),
                    ) && pu@ == final(pl)@ && final(self)@ == final(pu)@ && packs_one(
                        pl@,
                        final(pl)@,
                    ) && packs_one(pu@, final(pu)@) && !ends_rejected(
                        packed_datum(pl@, final(pl)@),
                        packed_datum(pu@, final(pu)@),
                    ),
            },
            match r {
                // Behind the tag and the flags stand the ends that were
                // packed, of one kind and the lower no higher than the
                // upper.
                Ok(()) => exists|m: int| #[trigger]
                    range_packed(
                        range_head(
                            old(self)@,
                            flags_by(
                                lower.inclusive,
                                lower.bound is None,
                                upper.inclusive,
                                upper.bound is None,
                            ),
                        ),
                        final(self)@,
                        m,
                        lower.bound is Some,
                        upper.bound is Some,
                    ),
                // The error is that of the lower end, or that of the upper
                // end; or an end did not pack exactly one datum; or both
                // did, and the two do not fit together.
                Err(e) => final(self)@ == old(self)@ && ((lower.bound matches Some(f) && exists|
                    p: &mut RowPacker,
                | #[trigger] call_ensures(f, (p,), Err::<(), InvalidRangeError>(e))) || (
                upper.bound matches Some(f) && exists|p: &mut RowPacker| #[trigger]
                    call_ensures(f, (p,), Err::<(), InvalidRangeError>(e))) || (e
                    == InvalidRangeError::MisorderedRangeBounds && ((lower.bound matches Some(fl)
                    && exists|pl: &mut RowPacker, outl: Result<(), InvalidRangeError>| #[trigger]
                    call_ensures(fl, (pl,), outl) && outl is Ok && extends(old(self)@, pl@)
                        && !packs_one(pl@, final(pl)@)) || (upper.bound matches Some(fu) && exists|
                    pu: &mut RowPacker,
                    outu: Result<(), InvalidRangeError>,
                | #[trigger]
                    call_ensures(fu, (pu,), outu) && outu is Ok && extends(old(self)@, pu@)
                        && !packs_one(pu@, final(pu)@)) || (lower.bound matches Some(fl)
                    && upper.bound matches Some(fu) && exists|
                    pl: &mut RowPacker,
                    pu: &mut RowPacker,
                    outl: Result<(), InvalidRangeError>,
                    outu: Result<(), InvalidRangeError>,
                |
                    #![trigger call_ensures(fl, (pl,), outl), call_ensures(fu, (pu,), outu)]
                    call_ensures(fl, (pl,), outl) && outl is Ok && call_ensures(fu, (pu,), outu)
                        && outu is Ok && pu@ == final(pl)@ && packs_one(pl@, final(pl)@)
                        && packs_one(pu@, final(pu)@) && ends_rejected(
                        packed_datum(pl@, final(pl)@),
                        packed_datum(pu@, final(pu)@),
                    ))))),
            },
    {
        let start = self.row.data_len();
        self.row.push_byte(Tag::Range.to_byte());
        let mut flags: u8 = 0;
        if lower.inclusive {
            flags = flags + crate::encoding::RANGE_LB_INCLUSIVE;
        }
        if lower.bound.is_none() {
            flags = flags + crate::encoding::RANGE_LB_INFINITE;
        }
        if upper.inclusive {
            flags = flags + crate::encoding::RANGE_UB_INCLUSIVE;
        }
        if upper.bound.is_none() {
            flags = flags + crate::encoding::RANGE_UB_INFINITE;
        }
        self.row.push_byte(flags);
        let ghost head = self@;
        assert(head =~= old(self)@ + seq![Tag::Range.byte(), flags]);
        assert(head.take(start as int) =~= old(self)@);
        let check = self.row.data_len();
        let ghost lower_there = lower.bound is Some;
        let ghost upper_there = upper.bound is Some;
        assert(flags == flags_by(
            lower.inclusive,
            lower.bound is None,
            upper.inclusive,
            upper.bound is None,
        ));
        assert(head =~= range_head(old(self)@, flags));
        let ghost lower_bound = lower.bound;
        let ghost upper_bound = upper.bound;
        let mut lower_end: Option<Datum> = None;
        match lower.bound {
            None => {},
            Some(value) => {
                match value(self) {
                    Ok(()) => {},
                    Err(e) => {
                        assert(self@.take(start as int) =~= head.take(start as int));
                        self.row.truncate_bytes(start);
                        return Err(e);
                    },
                }
                assert(self@.take(check as int) =~= head);
                assert(self@.take(start as int) =~= head.take(start as int));
                assert(exists|p: &mut RowPacker, out: Result<(), InvalidRangeError>| #[trigger]
                    call_ensures(lower_bound->0, (p,), out) && out is Ok && p@ == head && final(p)@
                        == self@);
                lower_end = self.datum_packed(check);
                if lower_end.is_none() {
                    self.row.truncate_bytes(start);
                    return Err(InvalidRangeError::MisorderedRangeBounds);
                }
                assert(packs_one_bound(head, self@));
            },
        }
        let ghost mid = self@;
        assert(mid.take(head.len() as int) == head);
        assert(mid.take(start as int) =~= head.take(start as int));
        let upper_at = self.row.data_len();
        let mut upper_end: Option<Datum> = None;
        match upper.bound {
            None => {},
            Some(value) => {
                match value(self) {
                    Ok(()) => {},
                    Err(e) => {
                        assert(self@.take(start as int) =~= mid.take(start as int));
                        self.row.truncate_bytes(start);
                        return Err(e);
                    },
                }
                assert(self@.take(upper_at as int) =~= mid);
                assert(self@.take(start as int) =~= mid.take(start as int));
                assert(exists|p: &mut RowPacker, out: Result<(), InvalidRangeError>| #[trigger]
                    call_ensures(upper_bound->0, (p,), out) && out is Ok && p@ == mid && final(p)@
                        == self@);
                upper_end = self.datum_packed(upper_at);
                if upper_end.is_none() {
                    self.row.truncate_bytes(start);
                    return Err(InvalidRangeError::MisorderedRangeBounds);
                }
                assert(packs_one_bound(mid, self@));
            },
        }
        assert(self@.take(mid.len() as int) == mid);
        assert(self@.take(start as int) =~= mid.take(start as int));
        match check_range_order(&lower_end, &upper_end) {
            Err(e) => {
                self.row.truncate_bytes(start);
                Err(e)
            },
            Ok(()) => {
                proof {
                    assert(self@.take(head.len() as int) =~= head) by {
                        assert(self@.take(head.len() as int) =~= mid.take(head.len() as int));
                    }
                    assert(range_packed(
                        head,
                        self@,
                        mid.len() as int,
                        lower_there,
                        upper_there,
                    ));
                }
                Ok(())
            },
        }
    }
}

/// Whether `lower` and `upper` can be the ends of one range: they cannot
/// where both are there and they are of two kinds or the lower lies above
/// the upper.
pub fn check_range_order(lower: &Option<Datum>, upper: &Option<Datum>) -> (r: Result<
    (),
    InvalidRangeError,
>)
    requires
        lower matches Some(l) ==> l@.wf(),
        upper matches Some(u) ==> u@.wf(),
    ensures
        r is Err <==> (lower matches Some(l) && upper matches Some(u) && ends_rejected(l@, u@)),
        r matches Err(e) ==> e == InvalidRangeError::MisorderedRangeBounds,
{
    match (lower, upper) {
        (Some(l), Some(u)) => if order_key_of(l).1 != order_key_of(u).1 || datum_above(l, u) {
            Err(InvalidRangeError::MisorderedRangeBounds)
        } else {
            Ok(())
        },
        _ => Ok(()),
    }
}

/// The flags of a range with the ends `lower` and `upper`.
fn range_flags_of(lower: &RangeBound, upper: &RangeBound) -> (flags: u8)
    ensures
        flags == crate::encoding::range_flags(bound_view(*lower), bound_view(*upper)),
{
    let mut flags: u8 = 0;
    if lower.inclusive {
        flags = flags + crate::encoding::RANGE_LB_INCLUSIVE;
    }
    if lower.bound.is_none() {
        flags = flags + crate::encoding::RANGE_LB_INFINITE;
    }
    if upper.inclusive {
        flags = flags + crate::encoding::RANGE_UB_INCLUSIVE;
    }
    if upper.bound.is_none() {
        flags = flags + crate::encoding::RANGE_UB_INFINITE;
    }
    flags
}

/// The number of elements of an array with the dimensions `dims`; `None`
/// where it is more than any number of elements that there can be.
pub fn cardinality_of(dims: &[ArrayDimension]) -> (n: Option<usize>)
    ensures
        match n {
            Some(n) => n == array_cardinality(dims@),
            None => array_cardinality(dims@) > usize::MAX,
        },
{
    if dims.len() == 0 {
        return Some(0);
    }
    let mut i: usize = 0;
    // A length of zero makes the product zero, whatever the others are.
    while i < dims.len()
        invariant
            i <= dims.len(),
            forall|k: int| 0 <= k < i ==> (#[trigger] dims@[k]).length > 0,
        decreases dims.len() - i,
    {
        if dims[i].length == 0 {
            proof {
                lemma_product_zero(dims@, i as int);
            }
            return Some(0);
        }
        i = i + 1;
    }
    let mut product: usize = 1;
    let mut overflowed = false;
    let mut k: usize = 0;
    proof {
        assert(dims@.take(0) =~= Seq::<ArrayDimension>::empty());
    }
    while k < dims.len()
        invariant
            k <= dims.len(),
            forall|j: int| 0 <= j < dims@.len() ==> (#[trigger] dims@[j]).length > 0,
            length_product(dims@.take(k as int)) >= 1,
            !overflowed ==> product == length_product(dims@.take(k as int)),
            overflowed ==> length_product(dims@.take(k as int)) > usize::MAX,
        decreases dims.len() - k,
    {
        proof {
            assert(dims@.take(k + 1).drop_last() =~= dims@.take(k as int));
            assert(dims@.take(k + 1).last() == dims@[k as int]);
            let before = length_product(dims@.take(k as int));
            let factor = dims@[k as int].length as nat;
            assert(before * factor >= before) by (nonlinear_arith)
                requires
                    factor >= 1,
                    before >= 1,
            ;
            assert(before * factor >= 1) by (nonlinear_arith)
                requires
                    factor >= 1,
                    before >= 1,
            ;
        }
        if !overflowed {
            match product.checked_mul(dims[k].length) {
                Some(p) => {
                    product = p;
                },
                None => {
                    overflowed = true;
                },
            }
        }
        k = k + 1;
    }
    proof {
        assert(dims@.take(dims@.len() as int) =~= dims@);
    }
    if overflowed {
        None
    } else {
        Some(product)
    }
}

/// What is wrong where `actual` elements were packed for the dimensions
/// `dims`, if anything is: the dimensions ask for another number, which is
/// named as far as it can be.
pub open spec fn cardinality_error(dims: Seq<ArrayDimension>, actual: usize) -> Option<
    InvalidArrayError,
> {
    if array_cardinality(dims) == actual {
        None
    } else {
        Some(
            InvalidArrayError::WrongCardinality {
                actual,
                expected: if array_cardinality(dims) <= usize::MAX {
                    array_cardinality(dims) as usize
                } else {
                    usize::MAX
                },
            },
        )
    }
}

/// What went wrong where `actual` elements were packed for dimensions that
/// ask for `expected`, if anything did.
fn check_cardinality(actual: usize, expected: Option<usize>) -> (r: Result<(), InvalidArrayError>)
    ensures
        match r {
            Ok(()) => expected == Some(actual),
            Err(e) => expected != Some(actual) && e == (InvalidArrayError::WrongCardinality {
                actual,
                expected: match expected {
                    Some(n) => n,
                    None => usize::MAX,
                },
            }),
        },
{
    match expected {
        Some(n) => if n == actual {
            Ok(())
        } else {
            Err(InvalidArrayError::WrongCardinality { actual, expected: n })
        },
        None => Err(InvalidArrayError::WrongCardinality { actual, expected: usize::MAX }),
    }
}

/// A dimension without elements leaves the array without elements.
proof fn lemma_product_zero(dims: Seq<ArrayDimension>, at: int)
    requires
        0 <= at < dims.len(),
        dims[at].length == 0,
    ensures
        length_product(dims) == 0,
    decreases dims.len(),
{
    if at == dims.len() - 1 {
        assert(length_product(dims.drop_last()) * 0 == 0) by (nonlinear_arith);
    } else {
        lemma_product_zero(dims.drop_last(), at);
        assert(0 * (dims.last().length as nat) == 0) by (nonlinear_arith);
    }
}

/// Every dimension takes sixteen bytes.
pub proof fn lemma_dims_bytes_len(dims: Seq<ArrayDimension>)
    ensures
        dims_bytes(dims).len() == 16 * dims.len(),
    decreases dims.len(),
{
    if dims.len() > 0 {
        lemma_dims_bytes_len(dims.drop_last());
        lemma_le_bytes_len(dims.last().lower_bound as int, 8);
        lemma_le_bytes_len(dims.last().length as int, 8);
    }
}

/// The packed entries up to the `n`-th open the packed entries, and the
/// next entry follows them.
proof fn lemma_entries_take(entries: Seq<(String, Datum)>, n: int)
    requires
        0 <= n <= entries.len(),
    ensures
        entries_bytes(entries.take(n)).len() <= entries_bytes(entries).len(),
        n < entries.len() ==> entries_bytes(entries.take(n + 1)) == entries_bytes(entries.take(n))
            + encode_datum(DatumView::String(entries[n].0@)) + encode_datum(entries[n].1@),
    decreases entries.len() - n,
{
    if n < entries.len() {
        assert(entries.take(n + 1).drop_last() =~= entries.take(n));
        assert(entries.take(n + 1).last() == entries[n]);
        lemma_entries_take(entries, n + 1);
    } else {
        assert(entries.take(n) =~= entries);
    }
}

} // verus!
