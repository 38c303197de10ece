use chrono::{Datelike, NaiveDate, Timelike};
use dataflow_core::arena::{DatumNested, RowArena, SharedRow};
use dataflow_core::datum::{
    Array, ArrayDimension, ArrayDimensions, Date, DateTime, Datum, DatumList, DatumMap, Interval,
    Numeric, Range, RangeBound, RangeInner, Time, Uuid, MAX_ARRAY_DIMENSIONS,
};
use dataflow_core::decoding::{read_datum, split_nanos};
use dataflow_core::encoding::{checked_timestamp_nanos, datum_size, nanos_of_day};
use dataflow_core::packer::{
    cardinality_of, check_range_order, datum_above, depth, keys_ascending,
    InvalidArrayError, InvalidRangeError, RangeLowerBound, RangeUpperBound,
};
use dataflow_core::row::{datum_list_size, datums_size, row_size, Row, RowPacker, RowRef};
use dataflow_core::tag::Tag;
use std::cmp::Ordering;

const TINY: usize = 1 << 8;
const SHORT: usize = 1 << 16;

fn string(s: &str) -> Datum {
    Datum::String(s.to_owned())
}

fn timestamp(date: NaiveDate, h: u32, m: u32, s: u32) -> DateTime {
    let at = date.and_hms_opt(h, m, s).unwrap();
    DateTime {
        year: at.year(),
        ordinal: at.ordinal(),
        time: Time { secs: at.num_seconds_from_midnight(), nanos: at.nanosecond() },
    }
}

fn pg_date(year: i32, month: u32, day: u32) -> Date {
    let epoch = NaiveDate::from_ymd_opt(2000, 1, 1).unwrap().num_days_from_ce();
    let days = NaiveDate::from_ymd_opt(year, month, day).unwrap().num_days_from_ce();
    Date { pg_epoch_days: days - epoch }
}

fn list_of(datum: Datum) -> DatumList {
    match datum {
        Datum::List(list) => list,
        other => panic!("expected a list, found {:?}", other),
    }
}

fn dict_of(datum: Datum) -> DatumMap {
    match datum {
        Datum::Dict(map) => map,
        other => panic!("expected a map, found {:?}", other),
    }
}

fn array_of(datum: Datum) -> Array {
    match datum {
        Datum::Array(array) => array,
        other => panic!("expected an array, found {:?}", other),
    }
}

fn elements(list: &DatumList) -> Vec<Datum> {
    let mut it = list.iter();
    let mut out = Vec::new();
    while let Some(d) = it.next() {
        out.push(d);
    }
    out
}

fn round_trip(datums: Vec<Datum>) {
    let row = Row::pack(&datums);
    println!("{:?}", row.data());
    let mut it = row.iter();
    let mut datums2 = Vec::new();
    while let Some(d) = it.next() {
        datums2.push(d);
    }
    let datums3 = row.unpack();
    assert_eq!(datums, datums2);
    assert_eq!(datums, datums3);
}

#[test]
fn pack_zero_takes_one_byte() {
    let row = Row::pack(&[Datum::Int32(0)]);
    assert_eq!(row.data_len(), 1);
    assert_eq!(row.unpack(), vec![Datum::Int32(0)]);
}

#[test]
fn test_assumptions() {
    assert_eq!(std::mem::size_of::<Tag>(), 1);
    // The packed form is written least significant byte first, whatever the
    // machine: a big-endian machine reads the same bytes.
    let row = Row::pack(&[Datum::Int32(0x0102)]);
    assert_eq!(row.data(), &[Tag::NonNegativeInt32_16.to_byte(), 0x02, 0x01]);
}

#[test]
fn miri_test_arena() {
    let mut arena = RowArena::new();

    let place = arena.push_string("");
    assert_eq!(arena.bytes(place), "".as_bytes());
    let place = arena.push_string("العَرَبِيَّة");
    assert_eq!(std::str::from_utf8(arena.bytes(place)).unwrap(), "العَرَبِيَّة");

    let empty: &[u8] = &[];
    let place = arena.push_bytes(vec![]);
    assert_eq!(arena.bytes(place), empty);
    let place = arena.push_bytes(vec![0, 2, 1, 255]);
    assert_eq!(arena.bytes(place), &[0, 2, 1, 255]);

    let mut row = Row::default();
    let mut packer = row.packer();
    packer.push_dict_with(|row: &mut RowPacker| {
        row.push(&string("a"));
        row.push_list_with(|row: &mut RowPacker| {
            row.push(&string("one"));
            row.push(&string("two"));
            row.push(&string("three"));
        });
        row.push(&string("b"));
        row.push(&string("c"));
    });
    assert_eq!(arena.push_unary_row(row.clone()), row.unpack_first());
    assert_eq!(arena.len(), 5);
    assert_eq!(arena.bytes(4), row.data());
}

#[test]
fn miri_test_round_trip() {
    round_trip(vec![]);
    round_trip(vec![
        Datum::Null,
        Datum::Null,
        Datum::False,
        Datum::True,
        Datum::Int16(-21),
        Datum::Int32(-42),
        Datum::Int64(-2_147_483_648 - 42),
        Datum::UInt8(0),
        Datum::UInt8(1),
        Datum::UInt16(0),
        Datum::UInt16(1),
        Datum::UInt16(1 << 8),
        Datum::UInt32(0),
        Datum::UInt32(1),
        Datum::UInt32(1 << 8),
        Datum::UInt32(1 << 16),
        Datum::UInt32(1 << 24),
        Datum::UInt64(0),
        Datum::UInt64(1),
        Datum::UInt64(1 << 8),
        Datum::UInt64(1 << 16),
        Datum::UInt64(1 << 24),
        Datum::UInt64(1 << 32),
        Datum::UInt64(1 << 40),
        Datum::UInt64(1 << 48),
        Datum::UInt64(1 << 56),
        Datum::Float32((-42.12f32).to_bits()),
        Datum::Float64((-2_147_483_648.0f64 - 42.12).to_bits()),
        Datum::Date(Date { pg_epoch_days: 365 * 45 + 21 }),
        Datum::Timestamp(timestamp(
            NaiveDate::from_isoywd_opt(2019, 30, chrono::Weekday::Wed).unwrap(),
            14,
            32,
            11,
        )),
        Datum::TimestampTz(DateTime {
            year: 1970,
            ordinal: 1,
            time: Time { secs: 61, nanos: 0 },
        }),
        Datum::Interval(Interval { months: 312, days: 0, micros: 0 }),
        Datum::Interval(Interval { months: 0, days: 0, micros: 1_012_312 }),
        Datum::Bytes(vec![]),
        Datum::Bytes(vec![0, 2, 1, 255]),
        string(""),
        string("العَرَبِيَّة"),
    ]);
}

#[test]
fn round_trip_of_the_remaining_kinds() {
    round_trip(vec![
        Datum::Int16(i16::MIN),
        Datum::Int16(i16::MAX),
        Datum::Int32(i32::MIN),
        Datum::Int32(i32::MAX),
        Datum::Int64(i64::MIN),
        Datum::Int64(i64::MAX),
        Datum::UInt8(u8::MAX),
        Datum::UInt16(u16::MAX),
        Datum::UInt32(u32::MAX),
        Datum::UInt64(u64::MAX),
        Datum::Time(Time { secs: 86_399, nanos: 1_999_999_999 }),
        Datum::Numeric(numeric(4, -2, 0x80, &[999, 9])),
        Datum::JsonNull,
        Datum::Dummy,
        Datum::MzTimestamp(u64::MAX),
        Datum::Uuid(Uuid { bytes: [7; 16] }),
        Datum::Range(Range { inner: None }),
        Datum::Range(Range {
            inner: Some(RangeInner {
                lower: RangeBound { inclusive: true, bound: Some(Box::new(Datum::Int32(-1))) },
                upper: RangeBound { inclusive: false, bound: None },
            }),
        }),
        // A timestamp before the years that nanoseconds in 64 bits reach.
        Datum::Timestamp(timestamp(NaiveDate::from_ymd_opt(1, 1, 1).unwrap(), 0, 0, 0)),
        Datum::TimestampTz(timestamp(NaiveDate::from_ymd_opt(9999, 12, 31).unwrap(), 23, 59, 59)),
    ]);
}

#[test]
fn timestamps_take_the_cheap_form_when_they_fit() {
    let near = timestamp(NaiveDate::from_ymd_opt(2019, 7, 24).unwrap(), 14, 32, 11);
    let far = timestamp(NaiveDate::from_ymd_opt(1, 1, 1).unwrap(), 0, 0, 0);
    let expected = NaiveDate::from_ymd_opt(2019, 7, 24)
        .unwrap()
        .and_hms_opt(14, 32, 11)
        .unwrap()
        .and_utc()
        .timestamp_nanos_opt();
    assert_eq!(checked_timestamp_nanos(&near), expected);
    assert_eq!(checked_timestamp_nanos(&far), None);
    let row = Row::pack(&[Datum::Timestamp(near)]);
    assert_eq!(row.data()[0], Tag::CheapTimestamp.to_byte());
    assert_eq!(row.data_len(), 9);
    let row = Row::pack(&[Datum::Timestamp(far)]);
    assert_eq!(row.data()[0], Tag::Timestamp.to_byte());
    assert_eq!(row.data_len(), 17);
    let row = Row::pack(&[Datum::TimestampTz(near)]);
    assert_eq!(row.data()[0], Tag::CheapTimestampTz.to_byte());
}

#[test]
fn epoch_packs_as_zero_nanoseconds() {
    let epoch = DateTime { year: 1970, ordinal: 1, time: Time { secs: 0, nanos: 0 } };
    assert_eq!(checked_timestamp_nanos(&epoch), Some(0));
    let row = Row::pack(&[Datum::Timestamp(epoch)]);
    assert_eq!(row.data(), &[Tag::CheapTimestamp.to_byte(), 0, 0, 0, 0, 0, 0, 0, 0]);
}

#[test]
fn times_and_dates_are_checked() {
    assert_eq!(Time::new(86_399, 0), Some(Time { secs: 86_399, nanos: 0 }));
    assert_eq!(Time::new(86_400, 0), None);
    assert_eq!(Time::new(59, 1_500_000_000), Some(Time { secs: 59, nanos: 1_500_000_000 }));
    assert_eq!(Time::new(58, 1_500_000_000), None);
    assert_eq!(Time::new(0, 2_000_000_000), None);
    let noon = Time { secs: 43_200, nanos: 0 };
    assert!(DateTime::new(2020, 366, noon).is_some());
    assert!(DateTime::new(2021, 366, noon).is_none());
    assert!(DateTime::new(2021, 0, noon).is_none());
}

#[test]
fn tag_chosen_by_value_width() {
    let row = Row::pack(&[Datum::Int32(0)]);
    assert_eq!(row.data(), &[Tag::NonNegativeInt32_0.to_byte()]);
    let row = Row::pack(&[Datum::Int32(255)]);
    assert_eq!(row.data(), &[Tag::NonNegativeInt32_8.to_byte(), 255]);
    let row = Row::pack(&[Datum::Int32(-1)]);
    assert_eq!(row.data(), &[Tag::NegativeInt32_0.to_byte()]);
    let row = Row::pack(&[Datum::Int32(256)]);
    assert_eq!(row.data(), &[Tag::NonNegativeInt32_16.to_byte(), 0, 1]);
    let row = Row::pack(&[Datum::Int32(-2)]);
    assert_eq!(row.data(), &[Tag::NegativeInt32_8.to_byte(), 0xfe]);
    let row = Row::pack(&[Datum::Int32(-256)]);
    assert_eq!(row.data(), &[Tag::NegativeInt32_8.to_byte(), 0x00]);
    let row = Row::pack(&[Datum::Int32(-257)]);
    assert_eq!(row.data(), &[Tag::NegativeInt32_16.to_byte(), 0xff, 0xfe]);
    let row = Row::pack(&[Datum::Int64(i64::MIN)]);
    assert_eq!(row.data_len(), 9);
    assert_eq!(row.data()[0], Tag::NegativeInt64_64.to_byte());
    let row = Row::pack(&[Datum::UInt64(u64::MAX)]);
    assert_eq!(row.data(), &[Tag::UInt64_64.to_byte(), 255, 255, 255, 255, 255, 255, 255, 255]);
    let row = Row::pack(&[Datum::UInt8(0)]);
    assert_eq!(row.data(), &[Tag::UInt8_0.to_byte()]);
    let row = Row::pack(&[Datum::Int16(-21)]);
    assert_eq!(row.data(), &[Tag::NegativeInt16_8.to_byte(), 0xeb]);
}

#[test]
fn tags_and_bytes_correspond() {
    for b in 0..=255u8 {
        match Tag::from_byte(b) {
            Some(tag) => {
                assert!(b < 94);
                assert_eq!(tag.to_byte(), b);
            }
            None => assert!(b >= 94),
        }
    }
    assert_eq!(Tag::Null.to_byte(), 0);
    assert_eq!(Tag::UInt64_64.to_byte(), 93);
    assert_eq!(Tag::NonNegativeInt32_0.actual_int_length(), Some(0));
    assert_eq!(Tag::NegativeInt64_64.actual_int_length(), Some(8));
    assert_eq!(Tag::UInt16_8.actual_int_length(), Some(1));
    assert_eq!(Tag::Int32.actual_int_length(), None);
}

#[test]
fn strings_and_bytes_carry_their_length() {
    let row = Row::pack(&[Datum::Bytes(vec![9, 8])]);
    assert_eq!(row.data(), &[Tag::BytesTiny.to_byte(), 2, 9, 8]);
    let row = Row::pack(&[string("ab")]);
    assert_eq!(row.data(), &[Tag::StringTiny.to_byte(), 2, b'a', b'b']);
    let row = Row::pack(&[Datum::Bytes(vec![1; 256])]);
    assert_eq!(&row.data()[..3], &[Tag::BytesShort.to_byte(), 0, 1]);
    assert_eq!(row.data_len(), 3 + 256);
    let row = Row::pack(&[Datum::Bytes(vec![1; 65_536])]);
    assert_eq!(&row.data()[..5], &[Tag::BytesLong.to_byte(), 0, 0, 1, 0]);
    assert_eq!(row.data_len(), 5 + 65_536);
}

#[test]
fn test_array() {
    const DIM: ArrayDimension = ArrayDimension { lower_bound: 2, length: 2 };
    let mut row = Row::default();
    let mut packer = row.packer();
    packer.try_push_array(&[DIM], &[Datum::Int32(1), Datum::Int32(2)]).unwrap();
    let arr1 = array_of(row.unpack_first());
    assert_eq!(arr1.dims().to_vec(), Some(vec![DIM]));
    assert_eq!(elements(arr1.elements()), vec![Datum::Int32(1), Datum::Int32(2)]);

    let row = Row::pack_slice(&[Datum::Array(arr1.clone())]);
    let arr2 = array_of(row.unpack_first());
    assert_eq!(arr1, arr2);
}

#[test]
fn test_multidimensional_array() {
    let datums = vec![
        Datum::Int32(1),
        Datum::Int32(2),
        Datum::Int32(3),
        Datum::Int32(4),
        Datum::Int32(5),
        Datum::Int32(6),
        Datum::Int32(7),
        Datum::Int32(8),
    ];

    let mut row = Row::default();
    let mut packer = row.packer();
    packer
        .try_push_array(
            &[
                ArrayDimension { lower_bound: 1, length: 1 },
                ArrayDimension { lower_bound: 1, length: 4 },
                ArrayDimension { lower_bound: 1, length: 2 },
            ],
            &datums,
        )
        .unwrap();
    let array = array_of(row.unpack_first());
    assert_eq!(elements(array.elements()), datums);
    assert_eq!(array.dims().len(), 3);
}

#[test]
fn test_array_max_dimensions() {
    let mut row = Row::default();
    let max_dims = usize::from(MAX_ARRAY_DIMENSIONS);

    let res = row.packer().try_push_array(
        &vec![ArrayDimension { lower_bound: 1, length: 1 }; max_dims + 1],
        &[Datum::Int32(4)],
    );
    assert_eq!(res, Err(InvalidArrayError::TooManyDimensions(max_dims + 1)));
    assert!(row.data().is_empty());

    row.packer()
        .try_push_array(
            &vec![ArrayDimension { lower_bound: 1, length: 1 }; max_dims],
            &[Datum::Int32(4)],
        )
        .unwrap();
}

#[test]
fn test_array_wrong_cardinality() {
    let mut row = Row::default();
    let res = row.packer().try_push_array(
        &[
            ArrayDimension { lower_bound: 1, length: 2 },
            ArrayDimension { lower_bound: 1, length: 3 },
        ],
        &[Datum::Int32(1), Datum::Int32(2)],
    );
    assert_eq!(res, Err(InvalidArrayError::WrongCardinality { actual: 2, expected: 6 }));
    assert!(row.data().is_empty());
}

#[test]
fn cardinality_is_the_product_of_the_lengths() {
    assert_eq!(cardinality_of(&[]), Some(0));
    assert_eq!(
        cardinality_of(&[
            ArrayDimension { lower_bound: 1, length: 2 },
            ArrayDimension { lower_bound: -3, length: 3 },
        ]),
        Some(6)
    );
    assert_eq!(
        cardinality_of(&[
            ArrayDimension { lower_bound: 1, length: usize::MAX },
            ArrayDimension { lower_bound: 1, length: 2 },
        ]),
        None
    );
}

#[test]
fn array_dimensions_are_read_back() {
    let dims = ArrayDimensions { data: vec![0xfe, 0xff, 0xff, 0xff, 0xff, 0xff, 0xff, 0xff, 3, 0, 0, 0, 0, 0, 0, 0] };
    assert_eq!(dims.to_vec(), Some(vec![ArrayDimension { lower_bound: -2, length: 3 }]));
    assert_eq!(dims.len(), 1);
    assert!(!dims.is_empty());
    let broken = ArrayDimensions { data: vec![0; 15] };
    assert_eq!(broken.to_vec(), None);
}

#[test]
fn test_nesting() {
    let mut row = Row::default();
    row.packer().push_dict_with(|row: &mut RowPacker| {
        row.push(&string("favourites"));
        row.push_list_with(|row: &mut RowPacker| {
            row.push(&string("ice cream"));
            row.push(&string("oreos"));
            row.push(&string("cheesecake"));
        });
        row.push(&string("name"));
        row.push(&string("bob"));
    });

    let map = dict_of(row.unpack_first());
    let mut iter = map.iter();

    let (k, v) = iter.next().unwrap();
    assert_eq!(k, "favourites");
    assert_eq!(
        elements(&list_of(v)),
        vec![string("ice cream"), string("oreos"), string("cheesecake")]
    );

    let (k, v) = iter.next().unwrap();
    assert_eq!(k, "name");
    assert_eq!(v, string("bob"));
}

fn pack_dict(ok: bool) -> Result<Row, &'static str> {
    let mut row = Row::default();
    let r: Result<i32, &'static str> = row.packer().push_dict_with(|row: &mut RowPacker| {
        if ok {
            row.push(&string("key"));
            row.push(&Datum::Int32(42));
            Ok(7)
        } else {
            Err("fail")
        }
    });
    r?;
    Ok(row)
}

#[test]
fn test_dict_errors() {
    assert_eq!(pack_dict(false), Err("fail"));

    let row = pack_dict(true).unwrap();
    let map = dict_of(row.unpack_first());
    let mut dict = map.iter();
    assert_eq!(dict.next(), Some(("key".to_owned(), Datum::Int32(42))));
    assert_eq!(dict.next(), None);
}

#[test]
fn dict_round_trip() {
    let entries = vec![("age".to_owned(), Datum::Int64(42)), ("name".to_owned(), string("bob"))];
    assert!(keys_ascending(&entries));
    let mut row = Row::default();
    row.packer().push_dict(&entries);
    let map = dict_of(row.unpack_first());
    let mut it = map.iter();
    assert_eq!(it.next(), Some(("age".to_owned(), Datum::Int64(42))));
    assert_eq!(it.next(), Some(("name".to_owned(), string("bob"))));
    assert_eq!(it.next(), None);

    let unordered = vec![("name".to_owned(), string("bob")), ("age".to_owned(), Datum::Int64(42))];
    assert!(!keys_ascending(&unordered));
    let twice = vec![("age".to_owned(), Datum::Int64(1)), ("age".to_owned(), Datum::Int64(2))];
    assert!(!keys_ascending(&twice));
}

#[test]
fn test_datum_sizes() {
    let mut arena = RowArena::new();

    let values_of_interest = vec![
        Datum::Null,
        Datum::False,
        Datum::Int16(0),
        Datum::Int32(0),
        Datum::Int64(0),
        Datum::UInt8(0),
        Datum::UInt8(1),
        Datum::UInt16(0),
        Datum::UInt16(1),
        Datum::UInt16(1 << 8),
        Datum::UInt32(0),
        Datum::UInt32(1),
        Datum::UInt32(1 << 8),
        Datum::UInt32(1 << 16),
        Datum::UInt32(1 << 24),
        Datum::UInt64(0),
        Datum::UInt64(1),
        Datum::UInt64(1 << 8),
        Datum::UInt64(1 << 16),
        Datum::UInt64(1 << 24),
        Datum::UInt64(1 << 32),
        Datum::UInt64(1 << 40),
        Datum::UInt64(1 << 48),
        Datum::UInt64(1 << 56),
        Datum::Float32(0.0f32.to_bits()),
        Datum::Float64(0.0f64.to_bits()),
        Datum::Numeric(numeric(1, 0, 0, &[0])),
        Datum::Numeric(numeric(1, 3, 0, &[1])),
        Datum::Numeric(numeric(4, 0, 0, &[999, 9])),
        Datum::Date(pg_date(1, 1, 1)),
        Datum::Timestamp(DateTime { year: 1970, ordinal: 1, time: Time { secs: 0, nanos: 0 } }),
        Datum::TimestampTz(DateTime { year: 1970, ordinal: 1, time: Time { secs: 0, nanos: 0 } }),
        Datum::Interval(Interval { months: 0, days: 0, micros: 0 }),
        Datum::Bytes(vec![]),
        string(""),
        Datum::JsonNull,
        Datum::Range(Range { inner: None }),
        arena.make_datum(|packer: &mut RowPacker| {
            packer
                .push_range(&Range {
                    inner: Some(RangeInner {
                        lower: RangeBound {
                            inclusive: true,
                            bound: Some(Box::new(Datum::Int32(-1))),
                        },
                        upper: RangeBound {
                            inclusive: true,
                            bound: Some(Box::new(Datum::Int32(1))),
                        },
                    }),
                })
                .unwrap();
        }),
    ];
    for value in values_of_interest {
        if datum_size(&value) != Row::pack_slice(&[value.clone()]).data().len() {
            panic!("Disparity in claimed size for {:?}", value);
        }
    }
}

#[test]
fn sizes_add_up() {
    let datums = vec![Datum::Int32(255), string("bob"), Datum::Null, Datum::UInt64(1 << 40)];
    let row = Row::pack(&datums);
    let sum: usize = datums.iter().map(datum_size).sum();
    assert_eq!(sum, row.data_len());
    assert_eq!(datums_size(&datums), row.data_len());
    assert_eq!(sum, 2 + 5 + 1 + 7);
    // Short rows live inside the handle, whose size is what they take.
    assert_eq!(row.byte_len(), 24);
    assert_eq!(row_size(&datums), 24);
    let long = vec![Datum::Bytes(vec![0; 100])];
    let row = Row::pack(&long);
    assert_eq!(row.data_len(), 102);
    assert_eq!(row.byte_len(), 24 + 102);
    assert_eq!(row_size(&long), 24 + 102);
    // A list is its elements behind a tag and a length.
    let mut listed = Row::default();
    listed.packer().push_list(&datums);
    assert_eq!(datum_list_size(&datums), listed.data_len());
    assert_eq!(datum_size(&listed.unpack_first()), listed.data_len());
}

type Bound = fn(&mut RowPacker) -> Result<(), InvalidRangeError>;

fn push_one(row: &mut RowPacker) -> Result<(), InvalidRangeError> {
    row.push(&Datum::Int32(1));
    Ok(())
}

fn push_two(row: &mut RowPacker) -> Result<(), InvalidRangeError> {
    row.push(&Datum::Int32(2));
    Ok(())
}

fn range_with(lower: Option<Bound>, upper: Option<Bound>) -> (Result<(), InvalidRangeError>, Row) {
    let mut row = Row::default();
    let r = row.packer().push_range_with(
        RangeLowerBound { inclusive: true, bound: lower },
        RangeUpperBound { inclusive: true, bound: upper },
    );
    (r, row)
}

fn push_none(_row: &mut RowPacker) -> Result<(), InvalidRangeError> {
    Ok(())
}

fn push_one_and_two(row: &mut RowPacker) -> Result<(), InvalidRangeError> {
    row.push(&Datum::Int32(1));
    row.push(&Datum::Int32(2));
    Ok(())
}

fn push_three(row: &mut RowPacker) -> Result<(), InvalidRangeError> {
    row.push(&Datum::Int32(3));
    Ok(())
}

fn push_two_and_three(row: &mut RowPacker) -> Result<(), InvalidRangeError> {
    row.push(&Datum::Int32(2));
    row.push(&Datum::Int32(3));
    Ok(())
}

fn push_short_two(row: &mut RowPacker) -> Result<(), InvalidRangeError> {
    row.push(&Datum::UInt16(2));
    Ok(())
}

#[test]
fn test_range_errors() {
    let empty = Row::default();
    let refused: [(Bound, Bound); 5] = [
        (push_one, push_none),
        (push_one_and_two, push_three),
        (push_one, push_two_and_three),
        (push_one_and_two, push_none),
        (push_one, push_short_two),
    ];
    for (lower, upper) in refused {
        let (e, row) = range_with(Some(lower), Some(upper));
        assert!(e.is_err());
        assert_eq!(empty.byte_len(), row.byte_len());
    }
    let (e, row) = range_with(Some(push_two), Some(push_one));
    assert_eq!(e, Err(InvalidRangeError::MisorderedRangeBounds));
    assert_eq!(empty.byte_len(), row.byte_len());
    assert!(row.data().is_empty());
}

#[test]
fn ranges_that_are_refused_leave_nothing() {
    for (lower, upper) in [(push_none as Bound, push_one as Bound), (push_one, push_short_two)] {
        let (e, row) = range_with(Some(lower), Some(upper));
        assert_eq!(e, Err(InvalidRangeError::MisorderedRangeBounds));
        assert!(row.data().is_empty());
    }
    let (e, row) = range_with(Some(push_none), None);
    assert_eq!(e, Err(InvalidRangeError::MisorderedRangeBounds));
    assert!(row.data().is_empty());
    let (e, row) = range_with(None, Some(push_one_and_two));
    assert_eq!(e, Err(InvalidRangeError::MisorderedRangeBounds));
    assert!(row.data().is_empty());
}

fn decimal(digits: u8, exponent: i8, negative: bool, lsu: Vec<u16>) -> Datum {
    let bits = if negative { 0x80 } else { 0 };
    Datum::Numeric(numeric(u32::from(digits), i32::from(exponent), bits, &lsu))
}

#[test]
fn datums_are_ordered_within_their_kind() {
    // Truth values and integers.
    assert!(datum_above(&Datum::True, &Datum::False));
    assert!(!datum_above(&Datum::False, &Datum::True));
    assert!(datum_above(&Datum::Int64(-1), &Datum::Int64(-2)));
    assert!(!datum_above(&Datum::UInt64(7), &Datum::UInt64(7)));
    // Floats, by their bits: 1.5 above 1.0, -1.0 below -0.0, the zeros level.
    let one = 0x3f80_0000u32;
    let one_and_half = 0x3fc0_0000u32;
    let minus_one = 0xbf80_0000u32;
    let minus_zero = 0x8000_0000u32;
    let not_a_number = 0x7fc0_0000u32;
    assert!(datum_above(&Datum::Float32(one_and_half), &Datum::Float32(one)));
    assert!(datum_above(&Datum::Float32(minus_zero), &Datum::Float32(minus_one)));
    assert!(!datum_above(&Datum::Float32(minus_zero), &Datum::Float32(0)));
    assert!(!datum_above(&Datum::Float32(0), &Datum::Float32(minus_zero)));
    assert!(datum_above(&Datum::Float32(not_a_number), &Datum::Float32(0x7f80_0000)));
    assert!(!datum_above(&Datum::Float32(not_a_number), &Datum::Float32(not_a_number)));
    assert!(datum_above(
        &Datum::Float64(0x4000_0000_0000_0000),
        &Datum::Float64(0xc000_0000_0000_0000)
    ));
    // Spans of time: months first, then days, then microseconds.
    let span = |months, days, micros| Datum::Interval(Interval { months, days, micros });
    assert!(datum_above(&span(1, 0, 0), &span(0, 40, 0)));
    assert!(datum_above(&span(1, 2, -5), &span(1, 1, 900)));
    assert!(!datum_above(&span(1, 2, 3), &span(1, 2, 3)));
    // Bytes and strings, byte by byte; a prefix stands below.
    assert!(datum_above(&Datum::Bytes(vec![1, 2]), &Datum::Bytes(vec![1])));
    assert!(datum_above(&Datum::String("b".to_string()), &Datum::String("ab".to_string())));
    assert!(!datum_above(&Datum::String("a".to_string()), &Datum::String("a".to_string())));
    // Datums of two kinds go by their kinds.
    assert!(datum_above(&Datum::String("a".to_string()), &Datum::Bytes(vec![9])));
    assert!(!datum_above(&Datum::Bytes(vec![9]), &Datum::String("a".to_string())));
    assert!(datum_above(&Datum::Null, &Datum::Int32(i32::MAX)));
}

#[test]
fn decimal_numbers_are_ordered_by_value() {
    let one = decimal(1, 0, false, vec![1]);
    let one_point_zero = decimal(2, -1, false, vec![10]);
    let two = decimal(1, 0, false, vec![2]);
    let minus_five = decimal(1, 0, true, vec![5]);
    let thousand = decimal(4, 0, false, vec![0, 1]);
    let nine_hundred = decimal(1, 2, false, vec![9]);
    assert!(datum_above(&two, &one));
    assert!(!datum_above(&one, &two));
    assert!(!datum_above(&one, &one_point_zero));
    assert!(!datum_above(&one_point_zero, &one));
    assert!(datum_above(&two, &one_point_zero));
    assert!(datum_above(&one, &minus_five));
    assert!(!datum_above(&minus_five, &one));
    assert!(datum_above(&thousand, &nine_hundred));
    assert!(!datum_above(&nine_hundred, &thousand));
}

fn listed(datums: &[Datum]) -> Datum {
    let mut row = Row::default();
    row.packer().push_list(datums);
    row.unpack_first()
}

#[test]
fn lists_are_ordered_by_their_elements() {
    let one_two = listed(&[Datum::Int32(1), Datum::Int32(2)]);
    let one_three = listed(&[Datum::Int32(1), Datum::Int32(3)]);
    let one = listed(&[Datum::Int32(1)]);
    let empty = listed(&[]);
    assert!(datum_above(&one_three, &one_two));
    assert!(!datum_above(&one_two, &one_three));
    assert!(!datum_above(&one_two, &one_two));
    assert!(datum_above(&one_two, &one));
    assert!(!datum_above(&one, &one_two));
    assert!(datum_above(&one, &empty));
    assert!(!datum_above(&empty, &empty));
    // A null stands above every other datum.
    let with_null = listed(&[Datum::Null]);
    assert!(datum_above(&with_null, &listed(&[Datum::Int32(i32::MAX)])));
    // Lists of lists go by their first difference, however deep.
    let deep_low = listed(&[listed(&[one_two.clone_datum()]), Datum::Int32(9)]);
    let deep_high = listed(&[listed(&[one_three.clone_datum()]), Datum::Int32(0)]);
    assert!(datum_above(&deep_high, &deep_low));
    assert!(!datum_above(&deep_low, &deep_high));
    assert_eq!(depth(&Datum::Int32(1)), 0);
    assert!(depth(&deep_low) > depth(&one_two));
    // Decimal numbers within lists go by their value.
    let low = listed(&[decimal(1, 0, true, vec![5])]);
    let high = listed(&[decimal(2, -1, false, vec![15])]);
    assert!(datum_above(&high, &low));
    assert!(!datum_above(&low, &high));
}

fn bounded(lower: Option<i32>, lower_inclusive: bool, upper: Option<i32>, upper_inclusive: bool) -> Datum {
    Datum::Range(Range {
        inner: Some(RangeInner {
            lower: RangeBound {
                inclusive: lower_inclusive,
                bound: lower.map(|v| Box::new(Datum::Int32(v))),
            },
            upper: RangeBound {
                inclusive: upper_inclusive,
                bound: upper.map(|v| Box::new(Datum::Int32(v))),
            },
        }),
    })
}

#[test]
fn ranges_are_ordered_by_their_ends() {
    let empty = Datum::Range(Range { inner: None });
    let one_to_five = bounded(Some(1), true, Some(5), false);
    let two_to_three = bounded(Some(2), true, Some(3), false);
    let one_to_six = bounded(Some(1), true, Some(6), false);
    assert!(datum_above(&one_to_five, &empty));
    assert!(!datum_above(&empty, &one_to_five));
    assert!(!datum_above(&empty, &empty));
    // The lower end decides first, then the upper end.
    assert!(datum_above(&two_to_three, &one_to_five));
    assert!(!datum_above(&one_to_five, &two_to_three));
    assert!(datum_above(&one_to_six, &one_to_five));
    assert!(!datum_above(&one_to_five, &one_to_five));
    // An unbounded lower end lies below, an unbounded upper end above.
    assert!(datum_above(&one_to_five, &bounded(None, false, Some(5), false)));
    assert!(datum_above(&bounded(Some(1), true, None, false), &one_to_five));
    // At one datum the lower end that leaves it out stands above, and the
    // upper end that takes it in.
    assert!(datum_above(&bounded(Some(1), false, Some(5), false), &one_to_five));
    assert!(datum_above(&bounded(Some(1), true, Some(5), true), &one_to_five));
}

#[test]
fn arrays_are_ordered_by_their_elements_and_then_their_dimensions() {
    let array = |lower_bound: isize, elements: &[Datum]| {
        let mut row = Row::default();
        row.packer()
            .try_push_array(&[ArrayDimension { lower_bound, length: elements.len() }], elements)
            .unwrap();
        row.unpack_first()
    };
    let low = array(1, &[Datum::Int32(1), Datum::Int32(2)]);
    let high = array(1, &[Datum::Int32(1), Datum::Int32(3)]);
    let moved = array(2, &[Datum::Int32(1), Datum::Int32(2)]);
    assert!(datum_above(&high, &low));
    assert!(!datum_above(&low, &high));
    assert!(!datum_above(&low, &low));
    assert!(datum_above(&moved, &low));
    assert!(!datum_above(&low, &moved));
    assert!(datum_above(&high, &moved));
}

#[test]
fn ranges_of_lists() {
    let low = listed(&[Datum::Int32(1)]);
    let high = listed(&[Datum::Int32(2)]);
    let in_order = range_of(low.clone_datum(), high.clone_datum());
    let mut row = Row::default();
    assert_eq!(row.packer().push_range(&in_order), Ok(()));
    assert_eq!(row.unpack_first(), Datum::Range(in_order));
    let back = range_of(high, low);
    let mut row = Row::default();
    assert_eq!(row.packer().push_range(&back), Err(InvalidRangeError::MisorderedRangeBounds));
    assert!(row.data().is_empty());
}

#[test]
fn the_ends_of_a_range_are_checked() {
    let one = Some(Datum::Int32(1));
    let two = Some(Datum::Int32(2));
    assert_eq!(check_range_order(&one, &two), Ok(()));
    assert_eq!(check_range_order(&one, &one), Ok(()));
    assert_eq!(check_range_order(&two, &one), Err(InvalidRangeError::MisorderedRangeBounds));
    assert_eq!(check_range_order(&None, &one), Ok(()));
    assert_eq!(check_range_order(&two, &None), Ok(()));
    assert_eq!(
        check_range_order(&one, &Some(Datum::Int64(2))),
        Err(InvalidRangeError::MisorderedRangeBounds)
    );
}

fn range_of(lower: Datum, upper: Datum) -> Range {
    Range {
        inner: Some(RangeInner {
            lower: RangeBound { inclusive: true, bound: Some(Box::new(lower)) },
            upper: RangeBound { inclusive: false, bound: Some(Box::new(upper)) },
        }),
    }
}

#[test]
fn ranges_of_strings_and_decimal_numbers() {
    let words = range_of(Datum::String("apple".to_string()), Datum::String("pear".to_string()));
    let mut row = Row::default();
    assert_eq!(row.packer().push_range(&words), Ok(()));
    assert_eq!(row.unpack_first(), Datum::Range(words));
    let back = range_of(Datum::String("pear".to_string()), Datum::String("apple".to_string()));
    let mut row = Row::default();
    assert_eq!(row.packer().push_range(&back), Err(InvalidRangeError::MisorderedRangeBounds));
    assert!(row.data().is_empty());

    let numbers = range_of(decimal(1, 0, true, vec![5]), decimal(2, -1, false, vec![15]));
    let mut row = Row::default();
    assert_eq!(row.packer().push_range(&numbers), Ok(()));
    assert_eq!(row.unpack_first(), Datum::Range(numbers));
    let back = range_of(decimal(2, -1, false, vec![15]), decimal(1, 0, true, vec![5]));
    let mut row = Row::default();
    assert_eq!(row.packer().push_range(&back), Err(InvalidRangeError::MisorderedRangeBounds));
    assert!(row.data().is_empty());

    let mixed = range_of(Datum::Int32(1), Datum::Int64(2));
    let mut row = Row::default();
    assert_eq!(row.packer().push_range(&mixed), Err(InvalidRangeError::MisorderedRangeBounds));
    assert!(row.data().is_empty());
}

#[test]
fn ranges_in_order_are_packed() {
    let (r, row) = range_with(Some(push_one), Some(push_two));
    assert_eq!(r, Ok(()));
    assert_eq!(
        row.unpack_first(),
        Datum::Range(Range {
            inner: Some(RangeInner {
                lower: RangeBound { inclusive: true, bound: Some(Box::new(Datum::Int32(1))) },
                upper: RangeBound { inclusive: true, bound: Some(Box::new(Datum::Int32(2))) },
            }),
        })
    );
    let (r, row) = range_with(Some(push_one), Some(push_one));
    assert_eq!(r, Ok(()));
    assert_eq!(row.data()[1], 2 | 8);
    let (r, row) = range_with(None, Some(push_one));
    assert_eq!(r, Ok(()));
    assert_eq!(row.data()[0], Tag::Range.to_byte());
    assert_eq!(row.data()[1], 2 | 4 | 8);
    let (r, row) = range_with(None, None);
    assert_eq!(r, Ok(()));
    assert_eq!(row.data(), &[Tag::Range.to_byte(), 2 | 4 | 8 | 16]);
}

#[test]
fn push_range_checks_the_order_of_the_ends() {
    let misordered = Range {
        inner: Some(RangeInner {
            lower: RangeBound { inclusive: true, bound: Some(Box::new(Datum::Int32(2))) },
            upper: RangeBound { inclusive: true, bound: Some(Box::new(Datum::Int32(1))) },
        }),
    };
    let mut row = Row::default();
    let r = row.packer().push_range(&misordered);
    assert_eq!(r, Err(InvalidRangeError::MisorderedRangeBounds));
    assert!(row.data().is_empty());
    let mut row = Row::default();
    let r = row.packer().push_range(&Range { inner: None });
    assert_eq!(r, Ok(()));
    assert_eq!(row.data(), &[Tag::Range.to_byte(), 1]);
}

fn list_elem(i: usize) -> Datum {
    if i % 2 == 0 {
        Datum::False
    } else {
        Datum::True
    }
}

fn test_list_encoding_inner(len: usize) {
    let mut row = Row::default();
    {
        let mut packer = row.packer();
        packer.push(&string("start"));
        packer.push_list_with(|packer: &mut RowPacker| {
            for i in 0..len {
                packer.push(&list_elem(i));
            }
        });
        packer.push(&string("end"));
    }
    let mut row_it = row.iter();
    assert_eq!(row_it.next().unwrap(), string("start"));
    match row_it.next().unwrap() {
        Datum::List(list) => {
            let mut list_it = list.iter();
            for i in 0..len {
                assert_eq!(list_it.next().unwrap(), list_elem(i));
            }
            assert!(list_it.next().is_none());
        }
        _ => panic!("expected Datum::List"),
    }
    assert_eq!(row_it.next().unwrap(), string("end"));
    assert!(row_it.next().is_none());
}

#[test]
fn test_list_encoding() {
    test_list_encoding_inner(0);
    test_list_encoding_inner(1);
    test_list_encoding_inner(10);
    test_list_encoding_inner(TINY - 1);
    test_list_encoding_inner(TINY + 1);
    test_list_encoding_inner(SHORT + 1);
}

#[test]
fn list_length_takes_the_fewest_bytes() {
    let pack = |len: usize| {
        let mut row = Row::default();
        row.packer().push_list_with(|packer: &mut RowPacker| {
            for i in 0..len {
                packer.push(&list_elem(i));
            }
        });
        row
    };
    let row = pack(0);
    assert_eq!(row.data(), &[Tag::ListTiny.to_byte(), 0]);
    let row = pack(255);
    assert_eq!(&row.data()[..2], &[Tag::ListTiny.to_byte(), 255]);
    assert_eq!(row.data_len(), 2 + 255);
    let row = pack(256);
    assert_eq!(&row.data()[..3], &[Tag::ListShort.to_byte(), 0, 1]);
    assert_eq!(row.data_len(), 3 + 256);
    assert_eq!(row.data()[3], Tag::False.to_byte());
    assert_eq!(row.data()[4], Tag::True.to_byte());
    let row = pack(65_536);
    assert_eq!(&row.data()[..5], &[Tag::ListLong.to_byte(), 0, 0, 1, 0]);
    assert_eq!(row.data_len(), 5 + 65_536);
    assert_eq!(row.data()[5 + 65_535], Tag::True.to_byte());
}

#[test]
fn row_order_is_by_length_then_bytes() {
    let short = Row::pack(&[Datum::Int32(255)]);
    let long = Row::pack(&[Datum::Int32(0), Datum::Int32(0), Datum::Int32(0)]);
    assert_eq!(short.cmp(&long), Ordering::Less);
    assert_eq!(long.cmp(&short), Ordering::Greater);
    let a = Row::pack(&[Datum::Int32(1)]);
    let b = Row::pack(&[Datum::Int32(2)]);
    assert_eq!(a.cmp(&b), Ordering::Less);
    assert_eq!(a.cmp(&a), Ordering::Equal);
    assert!(a == a.clone());
    assert!(a != b);
    // Copies compare as what they were copied from.
    assert_eq!(a.cmp(&b), a.clone().cmp(&b.clone()));
    assert_eq!(long.cmp(&short), long.clone().cmp(&short.clone()));
    let ra = RowRef::from_slice(a.data());
    let rb = RowRef::from_slice(b.data());
    assert_eq!(ra.cmp(&rb), Ordering::Less);
    assert_eq!(ra.to_owned(), a);
}

#[test]
fn packer_extends_and_truncates() {
    let mut row = Row::pack(&[Datum::Int32(7)]);
    {
        let mut packer = RowPacker::for_existing_row(&mut row);
        packer.push(&string("x"));
        packer.extend(&[Datum::True, Datum::Null]);
        // Seven bytes lie within the row itself.
        assert_eq!(packer.byte_len(), 24);
    }
    assert_eq!(row.unpack(), vec![Datum::Int32(7), string("x"), Datum::True, Datum::Null]);
    {
        let mut packer = RowPacker::for_existing_row(&mut row);
        packer.truncate_datums(2);
    }
    assert_eq!(row.unpack(), vec![Datum::Int32(7), string("x")]);
    let other = Row::pack(&[Datum::False]);
    {
        let mut packer = RowPacker::for_existing_row(&mut row);
        packer.extend_by_row(&other);
    }
    assert_eq!(row.unpack(), vec![Datum::Int32(7), string("x"), Datum::False]);
    {
        let mut packer = RowPacker::for_existing_row(&mut row);
        packer.truncate(2);
    }
    assert_eq!(row.unpack(), vec![Datum::Int32(7)]);
    {
        let mut packer = RowPacker::for_existing_row(&mut row);
        packer.clear();
    }
    assert!(row.is_empty());
}

#[test]
fn try_pack_stops_at_the_first_error() {
    let ok: Vec<Result<Datum, &str>> = vec![Ok(Datum::True), Ok(Datum::Int16(3))];
    assert_eq!(Row::try_pack(ok).unwrap().unpack(), vec![Datum::True, Datum::Int16(3)]);
    let bad: Vec<Result<Datum, &str>> = vec![Ok(Datum::True), Err("first"), Err("second")];
    assert_eq!(Row::try_pack(bad), Err("first"));
    let mut row = Row::pack(&[Datum::Null]);
    {
        let mut packer = RowPacker::for_existing_row(&mut row);
        let bad: Vec<Result<Datum, &str>> = vec![Ok(Datum::True), Err("first")];
        assert_eq!(packer.try_extend(bad), Err("first"));
    }
    // What came before the error stays.
    assert_eq!(row.unpack(), vec![Datum::Null, Datum::True]);
}

#[test]
fn bytes_that_are_no_row_are_refused() {
    assert_eq!(RowRef::from_slice(&[200]).try_unpack(), None);
    assert_eq!(RowRef::from_slice(&[Tag::StringTiny.to_byte(), 2, b'a']).try_unpack(), None);
    assert_eq!(RowRef::from_slice(&[Tag::StringTiny.to_byte(), 1, 0xff]).try_unpack(), None);
    assert_eq!(RowRef::from_slice(&[Tag::MzAclItem.to_byte()]).try_unpack(), None);
    assert_eq!(
        RowRef::from_slice(&[Tag::True.to_byte(), Tag::Null.to_byte()]).try_unpack(),
        Some(vec![Datum::True, Datum::Null])
    );
}

#[test]
fn nested_datum_is_kept_as_its_bytes() {
    let row = Row::pack(&[Datum::Int32(255), string("bob")]);
    let (first, next) = DatumNested::extract(row.data(), 0).unwrap();
    assert_eq!(first.datum(), Datum::Int32(255));
    assert_eq!(first.bytes(), &row.data()[..2]);
    assert_eq!(next, 2);
    let (second, end) = DatumNested::extract(row.data(), next).unwrap();
    assert_eq!(second.datum(), string("bob"));
    assert_eq!(end, row.data_len());
    assert!(DatumNested::extract(row.data(), end).is_none());
    let mut arena = RowArena::new();
    let nested = arena.make_datum_nested(|packer: &mut RowPacker| {
        packer.push(&Datum::UInt16(256));
    });
    assert_eq!(nested.datum(), Datum::UInt16(256));
    assert_eq!(nested.bytes(), &[Tag::UInt16_16.to_byte(), 0, 1]);
}

#[test]
fn arena_makes_datums() {
    let mut arena = RowArena::with_capacity(2);
    let d = arena.make_datum(|packer: &mut RowPacker| {
        packer.push_list(&[string("hello"), string("world")]);
    });
    assert_eq!(elements(&list_of(d)), vec![string("hello"), string("world")]);
    let r: Result<Datum, &str> = arena.try_make_datum(|_packer: &mut RowPacker| Err("no"));
    assert_eq!(r, Err("no"));
    assert_eq!(arena.len(), 1);
    let r: Result<Datum, &str> = arena.try_make_datum(|packer: &mut RowPacker| {
        packer.push(&Datum::True);
        Ok(())
    });
    assert_eq!(r, Ok(Datum::True));
    assert_eq!(arena.len(), 2);
    arena.clear();
    assert_eq!(arena.len(), 0);
}

#[test]
fn shared_row_is_lent_once() {
    let mut shared = SharedRow::new();
    assert!(shared.is_available());
    let mut row = shared.get();
    assert!(row.is_empty());
    assert!(!shared.is_available());
    row.packer().push(&Datum::Int32(5));
    shared.put(row);
    assert!(shared.is_available());
    // The buffer is cleared when it is lent again.
    let row = shared.get();
    assert!(row.is_empty());
    shared.put(row);
    let packed = shared.pack(&[Datum::True, Datum::Int32(5)]);
    assert_eq!(packed.unpack(), vec![Datum::True, Datum::Int32(5)]);
    assert!(shared.is_available());
}

#[test]
fn nanoseconds_are_counted_from_the_epoch() {
    let midnight = Time { secs: 0, nanos: 0 };
    assert_eq!(nanos_of_day(719_163, &midnight), Some(0));
    assert_eq!(nanos_of_day(719_164, &Time { secs: 1, nanos: 5 }), Some(86_401_000_000_005));
    assert_eq!(nanos_of_day(719_162, &Time { secs: 86_399, nanos: 999_999_999 }), Some(-1));
    // In a leap second there are none.
    assert_eq!(nanos_of_day(719_163, &Time { secs: 59, nanos: 1_000_000_000 }), None);
    // Nor where they overflow.
    assert_eq!(nanos_of_day(719_163 + 106_752, &midnight), None);
    assert!(nanos_of_day(719_163 + 106_751, &midnight).is_some());
    assert_eq!(nanos_of_day(i32::MIN, &midnight), None);
    assert_eq!(split_nanos(0), (719_163, 0, 0));
    assert_eq!(split_nanos(86_401_000_000_005), (719_164, 1, 5));
    assert_eq!(split_nanos(-1), (719_162, 86_399, 999_999_999));
    assert_eq!(split_nanos(i64::MIN), (719_163 - 106_752, 763, 145_224_192));
}

fn numeric(digits: u32, exponent: i32, bits: u8, lsu: &[u16]) -> Numeric {
    Numeric::new(digits, exponent, bits, lsu).expect("a number that a row can hold")
}

fn raw_parts(n: Option<Numeric>) -> Option<(u8, i8, u8, Vec<u16>)> {
    n.map(|n| (n.digits(), n.exponent(), n.bits(), n.coefficient_units().to_vec()))
}

#[test]
fn numerics_are_held_in_their_shortest_form() {
    // 1000 in four digits becomes one digit with the exponent three.
    assert_eq!(raw_parts(Numeric::new(4, 0, 0, &[0, 1])), Some((1, 3, 0, vec![1])));
    // 9999 stays as it is.
    assert_eq!(raw_parts(Numeric::new(4, 0, 0, &[999, 9])), Some((4, 0, 0, vec![999, 9])));
    // -12.50 becomes -125 with the exponent -1.
    assert_eq!(
        raw_parts(Numeric::new(4, -2, 0x80, &[250, 1, 0, 0])),
        Some((3, -1, 0x80, vec![125]))
    );
    // Zero becomes zero without an exponent.
    assert_eq!(raw_parts(Numeric::new(1, -5, 0, &[0])), Some((1, 0, 0, vec![0])));
    assert_eq!(Numeric::new(0, 0, 0, &[0]), None);
    assert_eq!(Numeric::new(40, 0, 0, &[0; 14]), None);
    assert_eq!(Numeric::new(4, 0, 0, &[0]), None);
    assert_eq!(Numeric::new(4, 0, 0, &[1000, 1]), None);
    // Numbers of one value are packed alike.
    assert_eq!(Numeric::new(4, 0, 0, &[0, 1]), Numeric::new(1, 3, 0, &[1]));
    assert_eq!(
        Row::pack(&[Datum::Numeric(numeric(3, -2, 0, &[150]))]).data(),
        Row::pack(&[Datum::Numeric(numeric(2, -1, 0, &[15]))]).data()
    );
    let n = Numeric::new(4, 0, 0, &[0, 1]).unwrap();
    let row = Row::pack(&[Datum::Numeric(n.clone())]);
    assert_eq!(row.data(), &[Tag::Numeric.to_byte(), 1, 3, 0, 1, 0]);
    assert_eq!(row.unpack(), vec![Datum::Numeric(n)]);
}

#[test]
fn datums_are_read_where_they_begin() {
    let row = Row::pack(&[Datum::Int32(-2), string("é")]);
    assert_eq!(read_datum(row.data(), 0), Some((Datum::Int32(-2), 2)));
    assert_eq!(read_datum(row.data(), 2), Some((string("é"), 6)));
    assert_eq!(read_datum(row.data(), 6), None);
    // In the middle of a datum something else is read, or nothing.
    assert_eq!(read_datum(row.data(), 3), Some((Datum::True, 4)));
    assert_eq!(read_datum(row.data(), 4), None);
    assert_eq!(datum_size(&string("é")), 4);
}

#[test]
fn rows_are_made_with_room() {
    let mut row = Row::with_capacity(100);
    assert!(row.is_empty());
    assert!(row.byte_capacity() >= 100);
    row.packer().extend(&[Datum::Int64(1 << 40), string("abc")]);
    assert!(row.byte_capacity() >= row.data_len());
    assert_eq!(row.unpack(), vec![Datum::Int64(1 << 40), string("abc")]);
    let copy = Row::from_bytes_unchecked(row.data());
    assert!(copy == row);
    assert_eq!(Row::empty().data_len(), 0);
    assert!(Row::default().is_empty());
}

#[test]
fn datums_that_can_be_packed_are_told_apart() {
    assert!(Datum::Int32(1).is_wf());
    assert!(Datum::String("a".to_string()).is_wf());
    assert!(Datum::Uuid(Uuid { bytes: [7; 16] }).is_wf());
    assert!(Datum::Time(Time { secs: 86_399, nanos: 1_999_999_999 }).is_wf());
    assert!(!Datum::Time(Time { secs: 86_400, nanos: 0 }).is_wf());
    assert!(!Datum::Timestamp(DateTime {
        year: 2001,
        ordinal: 366,
        time: Time { secs: 0, nanos: 0 },
    })
    .is_wf());
    let held = range_of(Datum::Int32(1), Datum::Time(Time { secs: 86_400, nanos: 0 }));
    assert!(!Datum::Range(held).is_wf());
}

#[test]
fn floats_are_ordered_as_ordered_floats_are() {
    let singles: [u32; 12] = [
        0,
        0x8000_0000,
        1,
        0x8000_0001,
        0x3f80_0000,
        0xbf80_0000,
        0x7f7f_ffff,
        0xff7f_ffff,
        0x7f80_0000,
        0xff80_0000,
        0x7fc0_0000,
        0xffc0_0001,
    ];
    for a in singles {
        for b in singles {
            let expected = ordered_float::OrderedFloat(f32::from_bits(a))
                > ordered_float::OrderedFloat(f32::from_bits(b));
            assert_eq!(datum_above(&Datum::Float32(a), &Datum::Float32(b)), expected);
        }
    }
    let doubles: [u64; 10] = [
        0,
        0x8000_0000_0000_0000,
        1,
        0x3ff0_0000_0000_0000,
        0xbff0_0000_0000_0000,
        0x7fef_ffff_ffff_ffff,
        0x7ff0_0000_0000_0000,
        0xfff0_0000_0000_0000,
        0x7ff8_0000_0000_0000,
        0xfff8_0000_0000_0001,
    ];
    for a in doubles {
        for b in doubles {
            let expected = ordered_float::OrderedFloat(f64::from_bits(a))
                > ordered_float::OrderedFloat(f64::from_bits(b));
            assert_eq!(datum_above(&Datum::Float64(a), &Datum::Float64(b)), expected);
        }
    }
}

#[test]
fn dictionaries_are_ordered_by_their_packed_entries() {
    let mut low = Row::default();
    low.packer().push_dict(&[("a".to_string(), Datum::Int32(1))]);
    let mut high = Row::default();
    high.packer().push_dict(&[("a".to_string(), Datum::Int32(2))]);
    let (low, high) = (low.unpack_first(), high.unpack_first());
    assert!(datum_above(&high, &low));
    assert!(!datum_above(&low, &high));
    assert!(!datum_above(&low, &low));
}

#[test]
fn a_dictionary_tells_whether_its_keys_ascend() {
    let entry = |key: &str, value: i32| {
        let mut row = Row::pack(&[string(key)]).data().to_vec();
        row.extend_from_slice(Row::pack(&[Datum::Int32(value)]).data());
        row
    };
    let ascending = DatumMap { data: [entry("age", 1), entry("name", 2)].concat() };
    assert!(ascending.has_ascending_keys());
    let descending = DatumMap { data: [entry("name", 2), entry("age", 1)].concat() };
    assert!(!descending.has_ascending_keys());
    let twice = DatumMap { data: [entry("age", 1), entry("age", 2)].concat() };
    assert!(!twice.has_ascending_keys());
    let torn = DatumMap { data: Row::pack(&[string("age")]).data().to_vec() };
    assert!(!torn.has_ascending_keys());
    let keyless = DatumMap { data: Row::pack(&[Datum::Int32(1), Datum::Int32(2)]).data().to_vec() };
    assert!(!keyless.has_ascending_keys());
    assert!(DatumMap::empty().has_ascending_keys());
}
