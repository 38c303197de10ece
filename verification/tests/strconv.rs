use dataflow_core::datum::{Date, Interval, Uuid};
use dataflow_core::kafka::{BoundKind, KafkaMetadataKind, KafkaSourceExportDetails, RangeBound};
use dataflow_core::strconv::{
    bool_of_word, count_zeros, format_bool, format_bool_static, format_bytes, format_float_text,
    format_nanos_to_micros, format_string, format_uuid, int_error_message, is_infinity_text,
    is_zero_text, judge_float, parse_bool, parse_uuid, uuid_of_reading, write_bytes,
    write_null_word, write_str, FloatClass,
    parse_bytes, parse_bytes_hex, parse_bytes_traditional, parse_escaped_bytes, parse_hex_bytes,
    parse_int16, parse_int32, parse_int64, parse_integer, parse_mz_timestamp, parse_oid,
    parse_pg_legacy_name, parse_uint16, parse_uint32, parse_uint64, ElementEscaper, EscapeError,
    IntErrorKind, ListElementEscaper, ListElementWriter, MapElementEscaper, MapValueWriter,
    Nestable, ParseError, ParseErrorKind, ParseHexError, RangeElementWriter,
    RecordElementEscaper, RecordElementWriter,
    parse_acl_item, parse_date, parse_interval, parse_interval_w_disambiguator, parse_jsonb,
    parse_mz_acl_item, reading_of,
};

fn invalid(ty_name: &str, input: &str, details: Option<&str>) -> ParseError {
    ParseError {
        kind: ParseErrorKind::InvalidInputSyntax,
        ty_name: ty_name.to_owned(),
        input: input.to_owned(),
        details: details.map(|d| d.to_owned()),
    }
}

#[test]
fn test_format_nanos_to_micros() {
    let cases: Vec<(u32, &str)> = vec![
        (0, ""),
        (1, ""),
        (499, ""),
        (500, ".000001"),
        (500_000, ".0005"),
        (5_000_000, ".005"),
        // Leap second. This is possibly wrong and should maybe be reduced (nanosecond
        // % 1_000_000_000), but we are at least now aware it does this.
        (1_999_999_999, ".2"),
    ];
    for (nanos, expect) in cases {
        let mut buf = Vec::new();
        format_nanos_to_micros(&mut buf, nanos);
        assert_eq!(std::str::from_utf8(&buf).unwrap(), expect);
    }
}

fn micros(nanos: u32) -> String {
    let mut buf = b"07".to_vec();
    format_nanos_to_micros(&mut buf, nanos);
    String::from_utf8(buf).unwrap()
}

#[test]
fn nanos_round_to_the_nearest_microsecond() {
    assert_eq!(micros(123_456_499), "07.123456");
    assert_eq!(micros(123_456_500), "07.123457");
    assert_eq!(micros(999_999_500), "07.1");
    assert_eq!(micros(100_000_000), "07.1");
    assert_eq!(micros(10), "07");
    // A leap second has its whole second before the six digits.
    assert_eq!(micros(1_234_560_000), "07.123456");
    assert_eq!(micros(1_000_001_000), "07.1000001");
    assert_eq!(micros(u32::MAX), "07.4294967");
}

#[test]
fn floating_point_texts_are_judged() {
    for text in ["0", "-0", "+0", "000000.00000", "0.0e10", "0.", ".0", "0E5", "-.00e-3", "0e"] {
        assert!(is_zero_text(text.as_bytes()), "{}", text);
    }
    for text in ["", "1", "0.1", ".", "+", "0.0.0", "00x", "1e-400", ".e1", "0.01e1", "-", "e"] {
        assert!(!is_zero_text(text.as_bytes()), "{}", text);
    }
    for text in ["inf", "-inf", "+INF", "Infinity", "-iNfinity", "infx"] {
        assert!(is_infinity_text(text.as_bytes()), "{}", text);
    }
    for text in ["", "in", "1e70", "-", "+in", "nan", " inf"] {
        assert!(!is_infinity_text(text.as_bytes()), "{}", text);
    }
    assert_eq!(count_zeros(b"a000b0", 1), 3);
    assert_eq!(count_zeros(b"a000b0", 0), 0);
    assert_eq!(count_zeros(b"a000b0", 6), 0);
    assert_eq!(judge_float(FloatClass::Infinite, b"1e70"), Err(ParseErrorKind::OutOfRange));
    assert_eq!(judge_float(FloatClass::Infinite, b"-inf"), Ok(()));
    assert_eq!(judge_float(FloatClass::Zero, b"1e-70"), Err(ParseErrorKind::OutOfRange));
    assert_eq!(judge_float(FloatClass::Zero, b"-0.0"), Ok(()));
    assert_eq!(judge_float(FloatClass::Normal, b"1e70"), Ok(()));
    assert_eq!(judge_float(FloatClass::Nan, b"nan"), Ok(()));
    assert_eq!(judge_float(FloatClass::Subnormal, b"1e-40"), Ok(()));
}

#[test]
fn floating_point_numbers_are_written() {
    let write = |class, negative, finite: &str| {
        String::from_utf8(format_float_text(class, negative, finite.as_bytes())).unwrap()
    };
    assert_eq!(write(FloatClass::Infinite, false, ""), "Infinity");
    assert_eq!(write(FloatClass::Infinite, true, ""), "-Infinity");
    assert_eq!(write(FloatClass::Nan, false, ""), "NaN");
    assert_eq!(write(FloatClass::Nan, true, ""), "NaN");
    assert_eq!(write(FloatClass::Zero, true, "-0.0"), "-0");
    assert_eq!(write(FloatClass::Zero, false, "0.0"), "0");
    assert_eq!(write(FloatClass::Normal, false, "1.0"), "1");
    assert_eq!(write(FloatClass::Normal, true, "-1.5"), "-1.5");
    assert_eq!(write(FloatClass::Normal, false, "1e10"), "1e+10");
    assert_eq!(write(FloatClass::Normal, false, "1.5e-10"), "1.5e-10");
    assert_eq!(write(FloatClass::Normal, false, "1.2e30"), "1.2e+30");
    assert_eq!(write(FloatClass::Subnormal, false, "1e-45"), "1e-45");
    assert_eq!(write(FloatClass::Normal, false, "10.0"), "10");
    assert_eq!(write(FloatClass::Normal, false, "e"), "e+");
}

#[test]
fn test_parse_pg_legacy_name() {
    let s = "hello world";
    assert_eq!(s, parse_pg_legacy_name(s));

    let s = "x".repeat(63);
    assert_eq!(s, parse_pg_legacy_name(&s));

    let s = "x".repeat(64);
    assert_eq!("x".repeat(63), parse_pg_legacy_name(&s));

    // The Hebrew character Aleph (א) has a length of 2 bytes.
    let s = format!("{}{}", "x".repeat(61), "א");
    assert_eq!(s, parse_pg_legacy_name(&s));

    let s = format!("{}{}", "x".repeat(62), "א");
    assert_eq!("x".repeat(62), parse_pg_legacy_name(&s));
}

#[test]
fn integers_are_read_with_white_space_around_them() {
    assert_eq!(parse_int16(" 12 "), Ok(12));
    assert_eq!(parse_int16("-32768"), Ok(i16::MIN));
    assert_eq!(parse_int16("+7"), Ok(7));
    assert_eq!(parse_int32("\t-2147483648\n"), Ok(i32::MIN));
    assert_eq!(parse_int32("2147483647"), Ok(i32::MAX));
    assert_eq!(parse_int64("-9223372036854775808"), Ok(i64::MIN));
    assert_eq!(parse_int64("9223372036854775807"), Ok(i64::MAX));
    assert_eq!(parse_uint16("65535"), Ok(u16::MAX));
    assert_eq!(parse_uint32("4294967295"), Ok(u32::MAX));
    assert_eq!(parse_uint64("18446744073709551615"), Ok(u64::MAX));
    assert_eq!(parse_mz_timestamp(" 42"), Ok(42));
    assert_eq!(parse_int32("007"), Ok(7));
}

#[test]
fn texts_that_are_no_integers() {
    assert_eq!(
        parse_int16("32768"),
        Err(invalid("smallint", "32768", Some("number too large to fit in target type")))
    );
    assert_eq!(
        parse_int16("-32769"),
        Err(invalid("smallint", "-32769", Some("number too small to fit in target type")))
    );
    assert_eq!(
        parse_int32(" "),
        Err(invalid("integer", " ", Some("cannot parse integer from empty string")))
    );
    assert_eq!(
        parse_int64("12a"),
        Err(invalid("bigint", "12a", Some("invalid digit found in string")))
    );
    assert_eq!(
        parse_int64("-"),
        Err(invalid("bigint", "-", Some("invalid digit found in string")))
    );
    assert_eq!(
        parse_uint16("-1"),
        Err(invalid("uint2", "-1", Some("invalid digit found in string")))
    );
    assert_eq!(
        parse_uint32("4294967296"),
        Err(invalid("uint4", "4294967296", Some("number too large to fit in target type")))
    );
    assert_eq!(
        parse_uint64("1 2"),
        Err(invalid("uint8", "1 2", Some("invalid digit found in string")))
    );
    assert_eq!(
        parse_mz_timestamp("x"),
        Err(invalid("mz_timestamp", "x", Some("invalid digit found in string")))
    );
}

#[test]
fn integers_agree_with_the_standard_library() {
    let texts = [
        "", "+", "-", "0", "-0", "+0", "127", "128", "-128", "-129", "32767", "32768", "1e3",
        "٣", "99999999999999999999999", "-99999999999999999999999", "--1", "+-1", "1_000",
    ];
    for text in texts {
        let ours = parse_integer(text.as_bytes(), i16::MIN as i128, i16::MAX as i128);
        match text.parse::<i16>() {
            Ok(v) => assert_eq!(ours, Ok(v as i128)),
            Err(e) => {
                let kind = ours.unwrap_err();
                assert_eq!(int_error_message(kind), e.to_string());
            }
        }
        let ours = parse_integer(text.as_bytes(), 0, u64::MAX as i128);
        match text.parse::<u64>() {
            Ok(v) => assert_eq!(ours, Ok(v as i128)),
            Err(e) => {
                let kind = ours.unwrap_err();
                assert_eq!(int_error_message(kind), e.to_string());
            }
        }
    }
    assert_eq!(parse_integer(b"", 0, 9), Err(IntErrorKind::Empty));
    assert_eq!(parse_integer(b"10", 0, 9), Err(IntErrorKind::PosOverflow));
    assert_eq!(parse_integer(b"-10", -9, 9), Err(IntErrorKind::NegOverflow));
    assert_eq!(parse_integer(b"-", -9, 9), Err(IntErrorKind::InvalidDigit));
}

#[test]
fn object_identifiers_wrap() {
    assert_eq!(parse_oid("1"), Ok(1));
    assert_eq!(parse_oid("-1"), Ok(u32::MAX));
    assert_eq!(parse_oid("-2147483648"), Ok(0x8000_0000));
    assert_eq!(parse_oid("2147483647"), Ok(0x7fff_ffff));
    assert_eq!(
        parse_oid("2147483648"),
        Err(invalid("oid", "2147483648", Some("number too large to fit in target type")))
    );
}

#[test]
fn truth_values_are_read_in_any_case() {
    for text in ["t", "tr", "tru", "true", "y", "ye", "yes", "on", "1", " TRUE ", "Yes", "oN"] {
        assert_eq!(parse_bool(text), Ok(true));
    }
    for text in ["f", "fa", "fal", "fals", "false", "n", "no", "of", "off", "0", "\tFalse", "OFF"] {
        assert_eq!(parse_bool(text), Ok(false));
    }
    for text in ["", "o", "truee", "2", "yes no", "nope"] {
        assert_eq!(parse_bool(text), Err(invalid("boolean", text, None)));
    }
    assert_eq!(bool_of_word("on"), Some(true));
    assert_eq!(bool_of_word("of"), Some(false));
    assert_eq!(bool_of_word("o"), None);
    assert_eq!(bool_of_word("ON"), None);
    assert_eq!(format_bool_static(true), "t");
    assert_eq!(format_bool_static(false), "f");
}

#[test]
fn bytes_in_hexadecimal_digits() {
    assert_eq!(parse_bytes_hex("00ff"), Ok(vec![0, 255]));
    assert_eq!(parse_bytes_hex("DeAd bE\tef\n"), Ok(vec![0xde, 0xad, 0xbe, 0xef]));
    assert_eq!(parse_bytes_hex(""), Ok(vec![]));
    assert_eq!(parse_bytes_hex("abc"), Err(ParseHexError::OddLength));
    assert_eq!(parse_bytes_hex("a c"), Err(ParseHexError::InvalidHexDigit(' ')));
    assert_eq!(parse_bytes_hex("0g"), Err(ParseHexError::InvalidHexDigit('g')));
    assert_eq!(parse_hex_bytes(b"\\x0102", 2), Ok(vec![1, 2]));
    assert_eq!(parse_bytes("\\x0102"), Ok(vec![1, 2]));
    assert_eq!(
        parse_bytes("\\x010"),
        Err(invalid("bytea", "\\x010", Some("invalid hexadecimal data: odd number of digits")))
    );
    assert_eq!(
        parse_bytes("\\x0\t"),
        Err(invalid("bytea", "\\x0\t", Some("invalid hexadecimal digit: \"\\t\"")))
    );
    assert_eq!(ParseHexError::InvalidHexDigit('z').message(), "invalid hexadecimal digit: \"z\"");
    assert_eq!(
        ParseHexError::InvalidHexDigit('\'').message(),
        "invalid hexadecimal digit: \"\\'\""
    );
}

#[test]
fn bytes_in_the_old_way() {
    assert_eq!(parse_bytes_traditional("abc"), Ok(b"abc".to_vec()));
    assert_eq!(parse_bytes_traditional("a\\\\b"), Ok(b"a\\b".to_vec()));
    assert_eq!(parse_bytes_traditional("\\000\\377\\101"), Ok(vec![0, 255, 65]));
    assert_eq!(parse_bytes("x\\134y"), Ok(b"x\\y".to_vec()));
    assert_eq!(parse_escaped_bytes(b"\\"), Err(EscapeError::EndsWithEscape));
    assert_eq!(parse_escaped_bytes(b"\\0"), Err(EscapeError::InvalidEscape));
    assert_eq!(parse_escaped_bytes(b"\\400"), Err(EscapeError::InvalidEscape));
    assert_eq!(parse_escaped_bytes(b"\\08"), Err(EscapeError::InvalidEscape));
    assert_eq!(
        parse_bytes_traditional("a\\"),
        Err(invalid("bytea", "a\\", Some("ends with escape character")))
    );
    assert_eq!(
        parse_bytes_traditional("\\xyz"),
        Err(invalid("bytea", "\\xyz", Some("invalid escape sequence")))
    );
}

#[test]
fn errors_are_built_in_steps() {
    let e = ParseError::new(ParseErrorKind::OutOfRange, "date", "x");
    assert_eq!(e.kind, ParseErrorKind::OutOfRange);
    assert_eq!(e.details, None);
    assert_eq!(ParseError::out_of_range("date", "x"), e);
    let e = ParseError::invalid_input_syntax("date", "x").with_details("why");
    assert_eq!(e, invalid("date", "x", Some("why")));
}

#[test]
fn elements_are_quoted_where_they_must_be() {
    assert!(ListElementEscaper::needs_escaping(b""));
    assert!(ListElementEscaper::needs_escaping(b"NULL"));
    assert!(!ListElementEscaper::needs_escaping(b"null"));
    assert!(ListElementEscaper::needs_escaping(b"a b"));
    assert!(ListElementEscaper::needs_escaping(b"a,b"));
    assert!(ListElementEscaper::needs_escaping(b"{"));
    assert!(ListElementEscaper::needs_escaping(b"\\"));
    assert!(!ListElementEscaper::needs_escaping(b"a=>b"));
    assert!(!ListElementEscaper::needs_escaping(b"(a)"));
    assert!(!ListElementEscaper::needs_escaping(b"a\x0bb"));
    assert_eq!(ListElementEscaper::escape_char(b'"'), b'\\');
    assert!(MapElementEscaper::needs_escaping(b"a=>b"));
    assert!(MapElementEscaper::needs_escaping(b"NULL"));
    assert!(!MapElementEscaper::needs_escaping(b"ab"));
    assert_eq!(MapElementEscaper::escape_char(b'"'), b'\\');
    assert!(RecordElementEscaper::needs_escaping(b""));
    assert!(RecordElementEscaper::needs_escaping(b"(a)"));
    assert!(!RecordElementEscaper::needs_escaping(b"NULL"));
    assert!(!RecordElementEscaper::needs_escaping(b"{a}"));
    assert_eq!(RecordElementEscaper::escape_char(b'"'), b'"');
    assert_eq!(RecordElementEscaper::escape_char(b'\\'), b'\\');
}

#[test]
fn writers_mark_what_is_missing() {
    let mut buf = b"{".to_vec();
    assert_eq!(ListElementWriter { buf: &mut buf }.write_null(), Nestable::Yes);
    assert_eq!(buf, b"{NULL");
    let mut buf = Vec::new();
    assert_eq!(MapValueWriter { buf: &mut buf }.write_null(), Nestable::Yes);
    assert_eq!(buf, b"NULL");
    let mut buf = b"[".to_vec();
    assert_eq!(RangeElementWriter { buf: &mut buf }.write_null(), Nestable::Yes);
    assert_eq!(buf, b"[");
    let mut buf = b"(".to_vec();
    assert_eq!(RecordElementWriter { buf: &mut buf }.write_null(), Nestable::Yes);
    assert_eq!(buf, b"(");
    let mut buf = b"(".to_vec();
    RecordElementWriter { buf: &mut buf }.nonnull_buffer().push(b'x');
    assert_eq!(buf, b"(x");
    let mut buf = b"a".to_vec();
    write_str(&mut buf, "bé");
    write_bytes(&mut buf, b"c");
    write_null_word(&mut buf);
    assert_eq!(buf, "abécNULL".as_bytes());
}

#[test]
fn bounds_of_partition_ranges() {
    assert_eq!(RangeBound::before(3), RangeBound::Elem(3, BoundKind::Before));
    assert_eq!(RangeBound::exact(3), RangeBound::Elem(3, BoundKind::At));
    assert_eq!(RangeBound::after(3), RangeBound::Elem(3, BoundKind::After));
    assert_eq!(*RangeBound::exact(7).unwrap_exact(), 7);
    assert_eq!(RangeBound::<i32>::minimum(), RangeBound::NegInfinity);
    assert_eq!(RangeBound::<i32>::maximum(), RangeBound::PosInfinity);
    assert!(BoundKind::Before < BoundKind::At);
    assert!(BoundKind::At < BoundKind::After);
    let details = KafkaSourceExportDetails {
        metadata_columns: vec![
            ("part".to_owned(), KafkaMetadataKind::Partition),
            ("h".to_owned(), KafkaMetadataKind::Header { key: "k".to_owned(), use_bytes: true }),
        ],
    };
    assert_eq!(details.clone(), details);
}

#[test]
fn bytes_are_written_in_hexadecimal_digits() {
    let mut buf = b"b=".to_vec();
    assert_eq!(format_bytes(&mut buf, &[0xde, 0xad, 0x00, 0x0f]), Nestable::MayNeedEscaping);
    assert_eq!(buf, b"b=\\xdead000f");
    let mut buf = Vec::new();
    format_bytes(&mut buf, &[]);
    assert_eq!(buf, b"\\x");
    // What is written is read back.
    let mut buf = Vec::new();
    let bytes: Vec<u8> = (0..=255).collect();
    format_bytes(&mut buf, &bytes);
    assert_eq!(parse_bytes(std::str::from_utf8(&buf).unwrap()), Ok(bytes));
}

#[test]
fn identifiers_are_read_and_written() {
    let id = parse_uuid(" 67e55044-10b1-426f-9247-bb680e5fe0c8\n").unwrap();
    assert_eq!(
        id.bytes,
        [
            0x67, 0xe5, 0x50, 0x44, 0x10, 0xb1, 0x42, 0x6f, 0x92, 0x47, 0xbb, 0x68, 0x0e, 0x5f,
            0xe0, 0xc8
        ]
    );
    let mut buf = Vec::new();
    assert_eq!(format_uuid(&mut buf, &id), Nestable::Yes);
    assert_eq!(buf, b"67e55044-10b1-426f-9247-bb680e5fe0c8");
    assert_eq!(parse_uuid("67E5504410B1426F9247BB680E5FE0C8"), Ok(id));
    let e = parse_uuid("nope").unwrap_err();
    assert_eq!(e.kind, ParseErrorKind::InvalidInputSyntax);
    assert_eq!(e.ty_name, "uuid");
    assert_eq!(e.input, "nope");
    assert!(e.details.is_some());
    assert_eq!(
        uuid_of_reading(Err("why".to_owned()), " x "),
        Err(invalid("uuid", " x ", Some("why")))
    );
    assert_eq!(uuid_of_reading(Ok([3; 16]), "x"), Ok(Uuid { bytes: [3; 16] }));
}

#[test]
fn texts_and_truth_values_are_written() {
    let mut buf = b"(".to_vec();
    assert_eq!(format_string(&mut buf, "a b"), Nestable::MayNeedEscaping);
    assert_eq!(format_bool(&mut buf, true), Nestable::Yes);
    assert_eq!(format_bool(&mut buf, false), Nestable::Yes);
    assert_eq!(buf, b"(a btf");
}

#[test]
fn what_a_reader_gave_becomes_the_result() {
    let day = Date { pg_epoch_days: 366 };
    assert_eq!(parse_date("2001-01-01", Ok(Some(day))), Ok(day));
    assert_eq!(
        parse_date("999999-01-01", Ok(None)),
        Err(ParseError {
            kind: ParseErrorKind::OutOfRange,
            ty_name: "date".to_string(),
            input: "999999-01-01".to_string(),
            details: None,
        })
    );
    assert_eq!(
        parse_date("soon", Err("no year".to_string())),
        Err(invalid("date", "soon", Some("no year")))
    );
    let span = Interval { months: 1, days: 2, micros: 3 };
    assert_eq!(parse_interval("1 mon 2 days", Ok(span)), Ok(span));
    assert_eq!(
        parse_interval("a while", Err("no number".to_string())),
        Err(invalid("interval", "a while", Some("no number")))
    );
    assert_eq!(parse_interval_w_disambiguator("1", Ok(span)), Ok(span));
    assert_eq!(
        parse_interval_w_disambiguator("x", Err("no number".to_string())),
        Err(invalid("interval", "x", Some("no number")))
    );
    assert_eq!(parse_jsonb(" 1 ", Ok(1u8)), Ok(1u8));
    assert_eq!(
        parse_jsonb::<u8>(" { ", Err("open".to_string())),
        Err(invalid("jsonb", " { ", Some("open")))
    );
    assert_eq!(
        parse_mz_acl_item::<u8>("u1", Err("no grantor".to_string())),
        Err(invalid("mz_aclitem", "u1", Some("no grantor")))
    );
    assert_eq!(parse_mz_acl_item("u1=r/u2", Ok(7u8)), Ok(7u8));
    assert_eq!(
        parse_acl_item::<u8>("1", Err("no grantor".to_string())),
        Err(invalid("aclitem", "1", Some("no grantor")))
    );
    assert_eq!(parse_acl_item("1=r/2", Ok(7u8)), Ok(7u8));
    assert_eq!(reading_of("uuid", "x", Ok::<u8, String>(3)), Ok(3));
    assert_eq!(
        reading_of::<u8>("uuid", "x", Err("short".to_string())),
        Err(invalid("uuid", "x", Some("short")))
    );
}

#[test]
fn integers_are_read_as_the_standard_library_reads_them() {
    let texts = [
        "", " ", "+", "-", "0", "-0", "+0", "7", "-7", "+7", "007", "12 3", "1_000", "0x10",
        "32767", "32768", "-32768", "-32769", "65535", "65536", "2147483647", "2147483648",
        "-2147483648", "-2147483649", "4294967295", "4294967296", "9223372036854775807",
        "9223372036854775808", "-9223372036854775808", "-9223372036854775809",
        "18446744073709551615", "18446744073709551616", "99999999999999999999999x", "9x",
        "x9", "--1", "+-1", "1-", "１２", " 42 ", "\t-5\n",
    ];
    let details = |e: std::num::ParseIntError| e.to_string();
    for text in texts {
        let trimmed = text.trim();
        assert_eq!(
            parse_int16(text).map_err(|e| e.details),
            trimmed.parse::<i16>().map_err(|e| Some(details(e)))
        );
        assert_eq!(
            parse_int32(text).map_err(|e| e.details),
            trimmed.parse::<i32>().map_err(|e| Some(details(e)))
        );
        assert_eq!(
            parse_int64(text).map_err(|e| e.details),
            trimmed.parse::<i64>().map_err(|e| Some(details(e)))
        );
        assert_eq!(
            parse_uint16(text).map_err(|e| e.details),
            trimmed.parse::<u16>().map_err(|e| Some(details(e)))
        );
        assert_eq!(
            parse_uint32(text).map_err(|e| e.details),
            trimmed.parse::<u32>().map_err(|e| Some(details(e)))
        );
        assert_eq!(
            parse_uint64(text).map_err(|e| e.details),
            trimmed.parse::<u64>().map_err(|e| Some(details(e)))
        );
    }
}

#[test]
fn bounds_on_partitions_are_ordered_as_they_are_derived() {
    let bounds = [
        RangeBound::NegInfinity,
        RangeBound::Elem(-1, BoundKind::After),
        RangeBound::Elem(0, BoundKind::Before),
        RangeBound::Elem(0, BoundKind::At),
        RangeBound::Elem(0, BoundKind::After),
        RangeBound::Elem(1, BoundKind::Before),
        RangeBound::Elem(i32::MAX, BoundKind::After),
        RangeBound::Elem(i32::MIN, BoundKind::Before),
        RangeBound::PosInfinity,
    ];
    for a in bounds {
        for b in bounds {
            assert_eq!(a.is_below(&b), a < b);
        }
    }
}

#[test]
fn white_space_of_every_script_is_trimmed() {
    assert_eq!(parse_int16("\u{2003}12\u{3000}"), Ok(12));
    assert_eq!(parse_int32("\u{a0}\u{1680}-3\u{85}\u{2028}\u{2029}"), Ok(-3));
    assert_eq!(parse_int64("\u{b}\u{c}7\u{202f}\u{205f}"), Ok(7));
    // A zero-width space is no white space.
    assert!(parse_int16("\u{200b}12").is_err());
}
