//! The typed scalars that a row holds.
//!
//! A `Datum` owns what it holds. Values of nested kinds (lists, maps and the
//! elements of arrays) are kept as the bytes of their own packed datums, so
//! that packing one copies bytes and reading one slices them. The bounds of a
//! range are datums themselves.

use crate::calendar::{date_valid, is_date_valid, is_time_valid, time_valid};
use vstd::prelude::*;
use vstd::string::StringSliceAdditionalSpecFns;

verus! {

/// A day, counted from January 1, 2000.
#[derive(Debug, Clone, Copy, PartialEq, Eq, Hash)]
pub struct Date {
    pub pg_epoch_days: i32,
}

/// A time of day: seconds since midnight and nanoseconds within the second.
/// The nanoseconds run to just below two seconds in a leap second.
#[derive(Debug, Clone, Copy, PartialEq, Eq, Hash)]
pub struct Time {
    pub secs: u32,
    pub nanos: u32,
}

/// A calendar date with a time of day, in no time zone or in UTC: the year,
/// the day of the year from 1, and the time.
#[derive(Debug, Clone, Copy, PartialEq, Eq, Hash)]
pub struct DateTime {
    pub year: i32,
    pub ordinal: u32,
    pub time: Time,
}

/// A span of time in months, days and microseconds, none carried into
/// another.
#[derive(Debug, Clone, Copy, PartialEq, Eq, Hash)]
pub struct Interval {
    pub months: i32,
    pub days: i32,
    pub micros: i64,
}

/// A decimal number by its raw parts: the count of digits of its
/// coefficient, its exponent, its sign and class bits, and the coefficient
/// in units of three decimal digits, least significant unit first. A number
/// is made by `Numeric::new`, which reduces it, or read from a row: so
/// numbers of one value are packed alike.
#[derive(Debug, Clone, PartialEq, Eq, Hash)]
pub struct Numeric {
    pub(crate) digits: u8,
    pub(crate) exponent: i8,
    pub(crate) bits: u8,
    pub(crate) lsu: Vec<u16>,
}

/// A universally unique identifier: its sixteen bytes.
#[derive(Debug, Clone, Copy, PartialEq, Eq, Hash)]
pub struct Uuid {
    pub bytes: [u8; 16],
}

/// A sequence of datums, as the bytes of their packed forms in order.
#[derive(Debug, Clone, PartialEq, Eq, Hash)]
pub struct DatumList {
    pub data: Vec<u8>,
}

/// A mapping from strings to datums, as the bytes of the packed keys and
/// values in turn, the keys ascending.
#[derive(Debug, Clone, PartialEq, Eq, Hash)]
pub struct DatumMap {
    pub data: Vec<u8>,
}

/// One dimension of an array: the index of its first element and the number
/// of its elements.
#[derive(Debug, Clone, Copy, PartialEq, Eq, Hash)]
pub struct ArrayDimension {
    pub lower_bound: isize,
    pub length: usize,
}

/// The dimensions of an array, sixteen bytes each: the lower bound and the
/// length, both in eight bytes, least significant first.
#[derive(Debug, Clone, PartialEq, Eq, Hash)]
pub struct ArrayDimensions {
    pub data: Vec<u8>,
}

/// A multi-dimensional array: its dimensions and its elements in row-major
/// order.
#[derive(Debug, Clone, PartialEq, Eq, Hash)]
pub struct Array {
    pub dims: ArrayDimensions,
    pub elements: DatumList,
}

/// One end of a range: whether the end itself belongs to the range, and the
/// datum at the end. No datum means that the range is unbounded there.
#[derive(Debug, PartialEq, Eq, Hash)]
pub struct RangeBound {
    pub inclusive: bool,
    pub bound: Option<Box<Datum>>,
}

/// The two ends of a range that is not empty.
#[derive(Debug, PartialEq, Eq, Hash)]
pub struct RangeInner {
    pub lower: RangeBound,
    pub upper: RangeBound,
}

/// A range of values. No inner part means the empty range.
#[derive(Debug, PartialEq, Eq, Hash)]
pub struct Range {
    pub inner: Option<RangeInner>,
}

/// One typed scalar. The two floating-point kinds hold the bit pattern of
/// the number.
#[derive(Debug, PartialEq, Eq, Hash)]
pub enum Datum {
    False,
    True,
    Int16(i16),
    Int32(i32),
    Int64(i64),
    UInt8(u8),
    UInt16(u16),
    UInt32(u32),
    UInt64(u64),
    Float32(u32),
    Float64(u64),
    Date(Date),
    Time(Time),
    Timestamp(DateTime),
    TimestampTz(DateTime),
    Interval(Interval),
    Bytes(Vec<u8>),
    String(String),
    Array(Array),
    List(DatumList),
    Dict(DatumMap),
    Numeric(Numeric),
    JsonNull,
    Uuid(Uuid),
    MzTimestamp(u64),
    Range(Range),
    Dummy,
    Null,
}

/// The most dimensions that an array may have.
pub const MAX_ARRAY_DIMENSIONS: u8 = 6;

/// The most digits that the coefficient of a numeric may have.
pub const NUMERIC_MAX_DIGITS: u8 = 39;

/// What a `Numeric` holds.
pub struct NumericView {
    pub digits: u8,
    pub exponent: i8,
    pub bits: u8,
    pub lsu: Seq<u16>,
}

/// What a `RangeBound` holds.
pub struct BoundView {
    pub inclusive: bool,
    pub bound: Option<Box<DatumView>>,
}

/// What a `Datum` holds.
pub enum DatumView {
    False,
    True,
    Int16(i16),
    Int32(i32),
    Int64(i64),
    UInt8(u8),
    UInt16(u16),
    UInt32(u32),
    UInt64(u64),
    Float32(u32),
    Float64(u64),
    Date(Date),
    Time(Time),
    Timestamp(DateTime),
    TimestampTz(DateTime),
    Interval(Interval),
    Bytes(Seq<u8>),
    String(Seq<char>),
    Array { dims: Seq<u8>, elements: Seq<u8> },
    List(Seq<u8>),
    Dict(Seq<u8>),
    Numeric(NumericView),
    JsonNull,
    Uuid(Seq<u8>),
    MzTimestamp(u64),
    EmptyRange,
    Range { lower: BoundView, upper: BoundView },
    Dummy,
    Null,
}

/// The number of coefficient units that hold `digits` digits, three to a
/// unit.
pub open spec fn lsu_len(digits: u8) -> nat {
    ((digits + 2) / 3) as nat
}

impl Time {
    pub open spec fn wf(self) -> bool {
        time_valid(self.secs, self.nanos)
    }

    /// The time `secs` seconds and `nanos` nanoseconds after midnight, if
    /// there is one.
    pub fn new(secs: u32, nanos: u32) -> (t: Option<Time>)
        ensures
            t == if time_valid(secs, nanos) {
                Some(Time { secs, nanos })
            } else {
                None
            },
    {
        if is_time_valid(secs, nanos) {
            Some(Time { secs, nanos })
        } else {
            None
        }
    }
}

impl DateTime {
    pub open spec fn wf(self) -> bool {
        date_valid(self.year, self.ordinal) && self.time.wf()
    }

    /// The `ordinal`-th day of `year` at `time`, if the calendar has that
    /// day and `time` is a time of day.
    pub fn new(year: i32, ordinal: u32, time: Time) -> (t: Option<DateTime>)
        ensures
            t == if date_valid(year, ordinal) && time.wf() {
                Some(DateTime { year, ordinal, time })
            } else {
                None
            },
    {
        if is_date_valid(year, ordinal) && is_time_valid(time.secs, time.nanos) {
            Some(DateTime { year, ordinal, time })
        } else {
            None
        }
    }
}

impl View for Numeric {
    type V = NumericView;

    closed spec fn view(&self) -> NumericView {
        NumericView { digits: self.digits, exponent: self.exponent, bits: self.bits, lsu: self.lsu@ }
    }
}

impl NumericView {
    pub open spec fn wf(self) -> bool {
        1 <= self.digits <= NUMERIC_MAX_DIGITS && self.lsu.len() == lsu_len(self.digits)
    }
}

impl View for DatumList {
    type V = Seq<u8>;

    open spec fn view(&self) -> Seq<u8> {
        self.data@
    }
}

impl View for DatumMap {
    type V = Seq<u8>;

    open spec fn view(&self) -> Seq<u8> {
        self.data@
    }
}

/// What the bound `b` holds.
pub open spec fn bound_view(b: RangeBound) -> BoundView
    decreases b,
{
    BoundView {
        inclusive: b.inclusive,
        bound: match b.bound {
            None => None,
            Some(d) => Some(Box::new(datum_view(*d))),
        },
    }
}

/// What the datum `d` holds.
pub open spec fn datum_view(d: Datum) -> DatumView
    decreases d,
{
    match d {
        Datum::False => DatumView::False,
        Datum::True => DatumView::True,
        Datum::Int16(i) => DatumView::Int16(i),
        Datum::Int32(i) => DatumView::Int32(i),
        Datum::Int64(i) => DatumView::Int64(i),
        Datum::UInt8(i) => DatumView::UInt8(i),
        Datum::UInt16(i) => DatumView::UInt16(i),
        Datum::UInt32(i) => DatumView::UInt32(i),
        Datum::UInt64(i) => DatumView::UInt64(i),
        Datum::Float32(bits) => DatumView::Float32(bits),
        Datum::Float64(bits) => DatumView::Float64(bits),
        Datum::Date(date) => DatumView::Date(date),
        Datum::Time(t) => DatumView::Time(t),
        Datum::Timestamp(t) => DatumView::Timestamp(t),
        Datum::TimestampTz(t) => DatumView::TimestampTz(t),
        Datum::Interval(i) => DatumView::Interval(i),
        Datum::Bytes(b) => DatumView::Bytes(b@),
        Datum::String(s) => DatumView::String(s@),
        Datum::Array(a) => DatumView::Array { dims: a.dims.data@, elements: a.elements.data@ },
        Datum::List(l) => DatumView::List(l.data@),
        Datum::Dict(m) => DatumView::Dict(m.data@),
        Datum::Numeric(n) => DatumView::Numeric(n@),
        Datum::JsonNull => DatumView::JsonNull,
        Datum::Uuid(u) => DatumView::Uuid(u.bytes@),
        Datum::MzTimestamp(t) => DatumView::MzTimestamp(t),
        Datum::Range(r) => match r.inner {
            None => DatumView::EmptyRange,
            Some(inner) => DatumView::Range {
                lower: bound_view(inner.lower),
                upper: bound_view(inner.upper),
            },
        },
        Datum::Dummy => DatumView::Dummy,
        Datum::Null => DatumView::Null,
    }
}

impl View for Datum {
    type V = DatumView;

    open spec fn view(&self) -> DatumView {
        datum_view(*self)
    }
}

/// A copy of `v`.
pub fn clone_bytes(v: &Vec<u8>) -> (r: Vec<u8>)
    ensures
        r@ == v@,
{
    let mut r: Vec<u8> = Vec::with_capacity(v.len());
    let mut i: usize = 0;
    while i < v.len()
        invariant
            i <= v.len(),
            r@ == v@.take(i as int),
        decreases v.len() - i,
    {
        r.push(v[i]);
        assert(v@.take(i + 1) =~= v@.take(i as int).push(v@[i as int]));
        i = i + 1;
    }
    assert(v@.take(v.len() as int) =~= v@);
    r
}

impl Numeric {
    /// The number with the raw parts given, as they are.
    pub(crate) fn from_parts(digits: u8, exponent: i8, bits: u8, lsu: Vec<u16>) -> (n: Numeric)
        ensures
            n@ == (NumericView { digits, exponent, bits, lsu: lsu@ }),
    {
        Numeric { digits, exponent, bits, lsu }
    }

    /// The count of digits of the coefficient.
    pub fn digits(&self) -> (r: u8)
        ensures
            r == self@.digits,
    {
        self.digits
    }

    /// The exponent.
    pub fn exponent(&self) -> (r: i8)
        ensures
            r == self@.exponent,
    {
        self.exponent
    }

    /// The sign and class bits.
    pub fn bits(&self) -> (r: u8)
        ensures
            r == self@.bits,
    {
        self.bits
    }

    /// The coefficient in units of three decimal digits, the least
    /// significant unit first.
    pub fn coefficient_units(&self) -> (r: &[u16])
        ensures
            r@ == self@.lsu,
    {
        self.lsu.as_slice()
    }

    /// A copy of this number.
    pub fn clone_numeric(&self) -> (r: Numeric)
        ensures
            r@ == self@,
    {
        let mut lsu: Vec<u16> = Vec::with_capacity(self.lsu.len());
        let mut i: usize = 0;
        while i < self.lsu.len()
            invariant
                i <= self.lsu.len(),
                lsu@ == self.lsu@.take(i as int),
            decreases self.lsu.len() - i,
        {
            lsu.push(self.lsu[i]);
            assert(self.lsu@.take(i + 1) =~= self.lsu@.take(i as int).push(self.lsu@[i as int]));
            i = i + 1;
        }
        assert(self.lsu@.take(self.lsu.len() as int) =~= self.lsu@);
        Numeric { digits: self.digits, exponent: self.exponent, bits: self.bits, lsu }
    }
}

impl RangeBound {
    /// A copy of this bound.
    pub fn clone_bound(&self) -> (r: RangeBound)
        ensures
            bound_view(r) == bound_view(*self),
        decreases *self,
    {
        match &self.bound {
            None => RangeBound { inclusive: self.inclusive, bound: None },
            Some(d) => RangeBound { inclusive: self.inclusive, bound: Some(Box::new(d.clone_datum())) },
        }
    }
}

impl Datum {
    /// A copy of this datum.
    pub fn clone_datum(&self) -> (r: Datum)
        ensures
            r@ == self@,
        decreases *self,
    {
        match self {
            Datum::False => Datum::False,
            Datum::True => Datum::True,
            Datum::Int16(i) => Datum::Int16(*i),
            Datum::Int32(i) => Datum::Int32(*i),
            Datum::Int64(i) => Datum::Int64(*i),
            Datum::UInt8(i) => Datum::UInt8(*i),
            Datum::UInt16(i) => Datum::UInt16(*i),
            Datum::UInt32(i) => Datum::UInt32(*i),
            Datum::UInt64(i) => Datum::UInt64(*i),
            Datum::Float32(bits) => Datum::Float32(*bits),
            Datum::Float64(bits) => Datum::Float64(*bits),
            Datum::Date(date) => Datum::Date(*date),
            Datum::Time(t) => Datum::Time(*t),
            Datum::Timestamp(t) => Datum::Timestamp(*t),
            Datum::TimestampTz(t) => Datum::TimestampTz(*t),
            Datum::Interval(i) => Datum::Interval(*i),
            Datum::Bytes(b) => Datum::Bytes(clone_bytes(b)),
            Datum::String(s) => Datum::String(s.clone()),
            Datum::Array(a) => Datum::Array(
                Array {
                    dims: ArrayDimensions { data: clone_bytes(&a.dims.data) },
                    elements: DatumList { data: clone_bytes(&a.elements.data) },
                },
            ),
            Datum::List(l) => Datum::List(DatumList { data: clone_bytes(&l.data) }),
            Datum::Dict(m) => Datum::Dict(DatumMap { data: clone_bytes(&m.data) }),
            Datum::Numeric(n) => Datum::Numeric(n.clone_numeric()),
            Datum::JsonNull => Datum::JsonNull,
            Datum::Uuid(u) => Datum::Uuid(*u),
            Datum::MzTimestamp(t) => Datum::MzTimestamp(*t),
            Datum::Range(r) => match &r.inner {
                None => Datum::Range(Range { inner: None }),
                Some(inner) => Datum::Range(
                    Range {
                        inner: Some(
                            RangeInner {
                                lower: inner.lower.clone_bound(),
                                upper: inner.upper.clone_bound(),
                            },
                        ),
                    },
                ),
            },
            Datum::Dummy => Datum::Dummy,
            Datum::Null => Datum::Null,
        }
    }
}

impl Clone for Datum {
    fn clone(&self) -> (r: Datum)
        ensures
            r@ == self@,
    {
        self.clone_datum()
    }
}

impl Clone for RangeBound {
    fn clone(&self) -> (r: RangeBound)
        ensures
            bound_view(r) == bound_view(*self),
    {
        self.clone_bound()
    }
}

impl Clone for RangeInner {
    fn clone(&self) -> (r: RangeInner) {
        RangeInner { lower: self.lower.clone_bound(), upper: self.upper.clone_bound() }
    }
}

impl Clone for Range {
    fn clone(&self) -> (r: Range) {
        match &self.inner {
            None => Range { inner: None },
            Some(inner) => Range {
                inner: Some(
                    RangeInner { lower: inner.lower.clone_bound(), upper: inner.upper.clone_bound() },
                ),
            },
        }
    }
}

impl BoundView {
    /// The end of a range holds no datum, or a well-formed one that is not
    /// null.
    pub open spec fn wf(self) -> bool
        decreases self,
    {
        match self.bound {
            None => true,
            Some(d) => !(*d is Null) && d.wf(),
        }
    }
}

impl DatumView {
    /// The datum can be packed: its parts are in their ranges and its
    /// lengths can be written down.
    pub open spec fn wf(self) -> bool
        decreases self,
    {
        match self {
            DatumView::Time(t) => t.wf(),
            DatumView::Timestamp(t) => t.wf(),
            DatumView::TimestampTz(t) => t.wf(),
            DatumView::Bytes(b) => b.len() <= u64::MAX,
            DatumView::String(s) => vstd::utf8::encode_utf8(s).len() <= u64::MAX,
            DatumView::Array { dims, elements } => dims.len() % 16 == 0 && dims.len() / 16 <= 255
                && elements.len() <= u64::MAX,
            DatumView::List(l) => l.len() <= u64::MAX,
            DatumView::Dict(m) => m.len() <= u64::MAX,
            DatumView::Numeric(n) => n.wf(),
            DatumView::Uuid(u) => u.len() == 16,
            DatumView::Range { lower, upper } => lower.wf() && upper.wf(),
            _ => true,
        }
    }
}

impl RangeBound {
    /// Whether the end of a range can be packed.
    pub fn is_wf(&self) -> (b: bool)
        ensures
            b == bound_view(*self).wf(),
        decreases self, 0nat,
    {
        match &self.bound {
            None => true,
            Some(d) => match **d {
                Datum::Null => false,
                _ => d.is_wf(),
            },
        }
    }
}

impl Datum {
    /// Whether the datum can be packed.
    pub fn is_wf(&self) -> (b: bool)
        ensures
            b == self@.wf(),
        decreases self, 1nat,
    {
        match self {
            Datum::Time(t) => is_time_valid(t.secs, t.nanos),
            Datum::Timestamp(t) => is_date_valid(t.year, t.ordinal) && is_time_valid(
                t.time.secs,
                t.time.nanos,
            ),
            Datum::TimestampTz(t) => is_date_valid(t.year, t.ordinal) && is_time_valid(
                t.time.secs,
                t.time.nanos,
            ),
            Datum::Array(a) => {
                // The elements are in memory, so their length can be
                // written down.
                let elements = a.elements.data.len();
                a.dims.data.len() % 16 == 0 && a.dims.data.len() / 16 <= 255 && elements
                    <= usize::MAX
            },
            Datum::Numeric(n) => 1 <= n.digits && n.digits <= NUMERIC_MAX_DIGITS && n.lsu.len() == (
            n.digits as usize + 2) / 3,
            Datum::String(s) => s.as_str().as_bytes().len() <= usize::MAX,
            Datum::Bytes(b) => b.len() <= usize::MAX,
            Datum::List(l) => l.data.len() <= usize::MAX,
            Datum::Dict(m) => m.data.len() <= usize::MAX,
            Datum::Range(r) => match &r.inner {
                None => true,
                Some(inner) => inner.lower.is_wf() && inner.upper.is_wf(),
            },
            _ => true,
        }
    }
}

} // verus!
