use dataflow_core::array_text::{parse_array, ArrayBuilder, ArrayParsingError, Dimension};
use dataflow_core::datum::{ArrayDimension, Date, DateTime, Time};
use dataflow_core::lexing::{
    char_at, is_null_text, lex_embedded_element, lex_quoted_element, lex_unquoted_element,
    skip_whitespace, LexError, Nesting,
};
use dataflow_core::nested::{
    escape_elem, format_array, format_elems, format_int16, format_int32, format_int64,
    format_legacy_vector, format_list, format_map, format_mz_timestamp, format_range,
    format_record, format_uint16, format_uint32, format_uint64, write_decimal, write_element,
    Element, RangeText,
};
use dataflow_core::parsing::{
    lex_element, open_list, open_map, parse_legacy_vector, parse_list, parse_map, parse_range,
    read_range_close, read_range_lower, read_range_upper, ListStep, MapStep, NestedError,
    RangeLower, RangeSpans,
};
use dataflow_core::strconv::{
    ListElementEscaper, MapElementEscaper, Nestable, RecordElementEscaper,
};
use dataflow_core::temporal::{
    format_date, format_time, format_timestamp, format_timestamptz, write_padded,
};

fn value(text: &str) -> Element {
    Element::Value { text: text.as_bytes().to_vec(), nestable: Nestable::MayNeedEscaping }
}

fn plain(text: &str) -> Element {
    Element::Value { text: text.as_bytes().to_vec(), nestable: Nestable::Yes }
}

fn text_of(bytes: Vec<u8>) -> String {
    String::from_utf8(bytes).unwrap()
}

fn some(text: &str) -> Option<Vec<u8>> {
    Some(text.as_bytes().to_vec())
}

fn list(text: &str) -> Result<Vec<Option<Vec<u8>>>, String> {
    parse_list(text.as_bytes(), false).map_err(|e| text_of(e.message(text.as_bytes())))
}

fn map(text: &str) -> Result<Vec<(Vec<u8>, Option<Vec<u8>>)>, String> {
    parse_map(text.as_bytes(), false).map_err(|e| text_of(e.message(text.as_bytes())))
}

fn array(text: &str) -> Result<(Vec<Option<Vec<u8>>>, Vec<usize>), String> {
    parse_array(text.as_bytes())
        .map(|(elems, dims)| {
            for d in &dims {
                assert_eq!(d.lower_bound, 1);
            }
            (elems, dims.iter().map(|d| d.length).collect())
        })
        .map_err(|e| text_of(e.message(text.as_bytes())))
}

fn range(text: &str) -> Result<Option<RangeSpans>, String> {
    parse_range(text.as_bytes()).map_err(|e| text_of(e.message(text.as_bytes())))
}

#[test]
fn integers_are_written_in_decimal() {
    let mut buf = Vec::new();
    assert_eq!(format_int16(&mut buf, -21), Nestable::Yes);
    buf.push(b' ');
    format_int32(&mut buf, 0);
    buf.push(b' ');
    format_int64(&mut buf, i64::MIN);
    buf.push(b' ');
    format_uint16(&mut buf, 65_535);
    buf.push(b' ');
    format_uint32(&mut buf, 10);
    buf.push(b' ');
    format_uint64(&mut buf, u64::MAX);
    buf.push(b' ');
    format_mz_timestamp(&mut buf, 1_700_000_000_000);
    buf.push(b' ');
    write_decimal(&mut buf, i128::MAX);
    assert_eq!(
        text_of(buf),
        "-21 0 -9223372036854775808 65535 10 18446744073709551615 1700000000000 \
         170141183460469231731687303715884105727"
    );
}

#[test]
fn elements_are_escaped_in_place() {
    let mut buf = b"ab,c d".to_vec();
    escape_elem::<ListElementEscaper>(&mut buf, 3);
    assert_eq!(text_of(buf), "ab,\"c d\"");
    let mut buf = b"ab,cd".to_vec();
    escape_elem::<ListElementEscaper>(&mut buf, 3);
    assert_eq!(text_of(buf), "ab,cd");
    let mut buf = b"x\"y\\z".to_vec();
    escape_elem::<ListElementEscaper>(&mut buf, 0);
    assert_eq!(text_of(buf), "\"x\\\"y\\\\z\"");
    let mut buf = b"x\"y\\z".to_vec();
    escape_elem::<RecordElementEscaper>(&mut buf, 0);
    assert_eq!(text_of(buf), "\"x\"\"y\\\\z\"");
    let mut buf = b"(".to_vec();
    escape_elem::<RecordElementEscaper>(&mut buf, 1);
    assert_eq!(text_of(buf), "(\"\"");
    let mut buf = b"a=b".to_vec();
    escape_elem::<MapElementEscaper>(&mut buf, 0);
    assert_eq!(text_of(buf), "\"a=b\"");
    let mut buf = b"NULL".to_vec();
    escape_elem::<ListElementEscaper>(&mut buf, 0);
    assert_eq!(text_of(buf), "\"NULL\"");
    let mut buf = b"NULL".to_vec();
    escape_elem::<ListElementEscaper>(&mut buf, 4);
    assert_eq!(text_of(buf), "NULL\"\"");
}

#[test]
fn lists_are_written() {
    let elems = vec![
        value("a"),
        Element::Null,
        value("b c"),
        plain("1"),
        value(""),
        value("x\"y\\z"),
        plain("{n,m}"),
        value("null"),
        value("NULL"),
    ];
    let mut buf = Vec::new();
    assert_eq!(format_list(&mut buf, &elems), Nestable::Yes);
    assert_eq!(text_of(buf), "{a,NULL,\"b c\",1,\"\",\"x\\\"y\\\\z\",{n,m},null,\"NULL\"}");
    let mut buf = Vec::new();
    format_list(&mut buf, &[]);
    assert_eq!(text_of(buf), "{}");
    let mut buf = Vec::new();
    assert_eq!(
        format_legacy_vector(&mut buf, &[plain("1"), plain("2"), Element::Null]),
        Nestable::MayNeedEscaping
    );
    assert_eq!(text_of(buf), "1 2 NULL");
    let mut buf = b">".to_vec();
    format_elems(&mut buf, &[value("a"), value("b,c")], b';');
    assert_eq!(text_of(buf), ">a;\"b,c\"");
    let mut buf = Vec::new();
    let null: [u8; 0] = [];
    write_element::<MapElementEscaper>(&mut buf, &value("a>b"), &null);
    assert_eq!(text_of(buf), "\"a>b\"");
}

#[test]
fn records_maps_and_ranges_are_written() {
    let mut buf = Vec::new();
    assert_eq!(
        format_record(&mut buf, &[value("a"), Element::Null, value("b c"), value("x\"y"), value("")]),
        Nestable::MayNeedEscaping
    );
    assert_eq!(text_of(buf), "(a,,\"b c\",\"x\"\"y\",\"\")");
    let mut buf = Vec::new();
    let entries = vec![
        (b"k".to_vec(), value("v")),
        (b"a b".to_vec(), Element::Null),
        (b"".to_vec(), plain("{x=>1}")),
        (b"x".to_vec(), value("a=>b")),
    ];
    assert_eq!(format_map(&mut buf, &entries), Nestable::Yes);
    assert_eq!(text_of(buf), "{k=>v,\"a b\"=>NULL,\"\"=>{x=>1},x=>\"a=>b\"}");
    let mut buf = Vec::new();
    format_map(&mut buf, &[]);
    assert_eq!(text_of(buf), "{}");
    let mut buf = Vec::new();
    assert_eq!(format_range(&mut buf, &None), Nestable::MayNeedEscaping);
    assert_eq!(text_of(buf), "empty");
    let mut buf = Vec::new();
    format_range(
        &mut buf,
        &Some(RangeText {
            lower_inclusive: true,
            lower: plain("1"),
            upper_inclusive: false,
            upper: Element::Null,
        }),
    );
    assert_eq!(text_of(buf), "[1,)");
    let mut buf = Vec::new();
    format_range(
        &mut buf,
        &Some(RangeText {
            lower_inclusive: false,
            lower: value("a,b"),
            upper_inclusive: true,
            upper: value("c"),
        }),
    );
    assert_eq!(text_of(buf), "(\"a,b\",c]");
}

#[test]
fn arrays_are_written() {
    let dim = |lower_bound, length| ArrayDimension { lower_bound, length };
    let elems: Vec<Element> = (1..=8).map(|i| plain(&i.to_string())).collect();
    let mut buf = Vec::new();
    assert_eq!(format_array(&mut buf, &[dim(1, 3)], &elems), Nestable::Yes);
    assert_eq!(text_of(buf), "{1,2,3}");
    let mut buf = Vec::new();
    format_array(&mut buf, &[dim(1, 2), dim(1, 2)], &elems);
    assert_eq!(text_of(buf), "{{1,2},{3,4}}");
    let mut buf = Vec::new();
    format_array(&mut buf, &[dim(1, 1), dim(1, 4), dim(1, 2)], &elems);
    assert_eq!(text_of(buf), "{{{1,2},{3,4},{5,6},{7,8}}}");
    let mut buf = Vec::new();
    format_array(&mut buf, &[dim(2, 2)], &elems);
    assert_eq!(text_of(buf), "[2:3]={1,2}");
    let mut buf = Vec::new();
    format_array(&mut buf, &[dim(1, 2), dim(-1, 1)], &elems);
    assert_eq!(text_of(buf), "[1:2][-1:-1]={{1},{2}}");
    let mut buf = Vec::new();
    format_array(&mut buf, &[], &[]);
    assert_eq!(text_of(buf), "{}");
    let mut buf = Vec::new();
    format_array(&mut buf, &[dim(1, 0)], &[]);
    assert_eq!(text_of(buf), "{}");
    let mut buf = Vec::new();
    format_array(&mut buf, &[dim(1, 2)], &[value("a b"), Element::Null]);
    assert_eq!(text_of(buf), "{\"a b\",NULL}");
}

#[test]
fn lists_are_read() {
    assert_eq!(list("{}"), Ok(vec![]));
    assert_eq!(list("{ }"), Ok(vec![]));
    assert_eq!(list("{a,b}"), Ok(vec![some("a"), some("b")]));
    assert_eq!(list("{ a , b }  "), Ok(vec![some("a"), some("b")]));
    assert_eq!(list("{a b}"), Ok(vec![some("a b")]));
    assert_eq!(list("{\"a b\",\"c\\\"d\",\"\"}"), Ok(vec![some("a b"), some("c\"d"), some("")]));
    assert_eq!(
        list("{NULL,null,\"NULL\",N\\ULL,nul}"),
        Ok(vec![None, None, some("NULL"), some("NULL"), some("nul")])
    );
    assert_eq!(list("{a\\,b,c\\ }"), Ok(vec![some("a,b"), some("c ")]));
    assert_eq!(list("{é,日本}"), Ok(vec![some("é"), some("日本")]));
    assert_eq!(list("{a;b}"), Ok(vec![some("a;b")]));
    assert_eq!(
        parse_list(b"{{a,b},{c}, {\"}\"}}", true),
        Ok(vec![some("{a,b}"), some("{c}"), some("{\"}\"}")])
    );
}

#[test]
fn lists_that_are_not_read() {
    let err = |s: &str| Err(s.to_owned());
    assert_eq!(list(""), err("expected '{', found empty string"));
    assert_eq!(list("x"), err("expected '{', found x"));
    assert_eq!(list("éa"), err("expected '{', found é"));
    assert_eq!(list("{a"), err("unterminated element"));
    assert_eq!(list("{a,b"), err("unterminated element"));
    assert_eq!(list("{a\\"), err("unterminated element"));
    assert_eq!(list("{a,}"), err("malformed literal; missing element"));
    assert_eq!(list("{a,,b}"), err("malformed literal; missing element"));
    assert_eq!(list("{,a}"), err("malformed literal; missing element"));
    assert_eq!(list("{a}x"), err("malformed array literal; contains 'x' after terminal '}'"));
    assert_eq!(list("{a} é"), err("malformed array literal; contains 'é' after terminal '}'"));
    assert_eq!(list("{a{b}"), err("malformed literal; must escape special character '{'"));
    assert_eq!(list("{a \"b\"}"), err("malformed literal; must escape special character '\"'"));
    assert_eq!(
        list("{{a}}"),
        err("unescaped '{' at beginning of element; perhaps you want a nested list, e.g. '{a}'::text list list")
    );
    assert_eq!(list("{\"a"), err("unterminated quoted string"));
    assert_eq!(list("{\"a\\"), err("unterminated quoted string"));
    assert_eq!(list("{\"a\"b}"), err("expected ',' or '}', got 'b'"));
    assert_eq!(list("{\"a\""), err("unexpected end of input"));
    assert_eq!(list("{ "), err("unexpected end of input"));
    assert_eq!(list("{a, "), err("unexpected end of input"));
    // Where the text ends behind the brace the reading goes back to it.
    assert_eq!(
        list("{"),
        err("unescaped '{' at beginning of element; perhaps you want a nested list, e.g. '{a}'::text list list")
    );
    assert_eq!(
        parse_list(b"{", true).map_err(|e| text_of(e.message(b"{"))),
        err("unterminated embedded element")
    );
    assert_eq!(
        parse_list(b"{{a}", true).map_err(|e| text_of(e.message(b"{{a}"))),
        err("unexpected end of input")
    );
    assert_eq!(
        parse_list(b"{{a", true).map_err(|e| text_of(e.message(b"{{a"))),
        err("unterminated embedded element")
    );
}

#[test]
fn lists_are_read_step_by_step() {
    let text = b"{a, \"b\" ,NULL}";
    let mut lexer = open_list(text).unwrap();
    assert_eq!((lexer.pos, lexer.first), (1, true));
    assert_eq!(lexer.step(text, false), Ok(ListStep::Element(some("a"))));
    assert_eq!((lexer.pos, lexer.first), (2, false));
    assert_eq!(lexer.step(text, false), Ok(ListStep::Element(some("b"))));
    assert_eq!(lexer.pos, 7);
    assert_eq!(lexer.step(text, false), Ok(ListStep::Element(None)));
    assert_eq!(lexer.pos, 13);
    assert_eq!(lexer.step(text, false), Ok(ListStep::Done));
    assert_eq!(lexer.pos, 14);
    // A fault behind an element is met when the element has been read.
    let text = b"{a,b,}";
    let mut lexer = open_list(text).unwrap();
    assert_eq!(lexer.step(text, false), Ok(ListStep::Element(some("a"))));
    assert_eq!(lexer.step(text, false), Ok(ListStep::Element(some("b"))));
    assert_eq!(lexer.step(text, false), Err(NestedError::Lex(LexError::MissingElement)));
    assert_eq!(open_list(b"a"), Err(NestedError::ExpectedOpen { found: true }));
}

#[test]
fn elements_are_lexed() {
    assert_eq!(lex_quoted_element(b"x\"a\\\\b\"y", 1), Ok((b"a\\b".to_vec(), 7)));
    assert_eq!(lex_quoted_element(b"\"", 0), Err(LexError::UnterminatedQuoted));
    assert_eq!(lex_embedded_element(b"{a{b}\"}\"\\}}x", 0), Ok(11));
    assert_eq!(lex_embedded_element(b"{a{b}", 0), Err(LexError::UnterminatedEmbedded));
    assert_eq!(lex_embedded_element(b"{\\", 0), Err(LexError::UnterminatedEmbedded));
    assert_eq!(lex_unquoted_element(Nesting::List, b"ab ,", 0), Ok((some("ab"), 3)));
    assert_eq!(lex_unquoted_element(Nesting::List, b"a=b,", 0), Ok((some("a=b"), 3)));
    assert_eq!(lex_unquoted_element(Nesting::Dict, b"a=b,", 0), Ok((some("a"), 1)));
    assert_eq!(
        lex_unquoted_element(Nesting::Dict, b"a>b,", 0),
        Err(LexError::MustEscape { at: 1 })
    );
    assert_eq!(lex_unquoted_element(Nesting::List, b"a  ,", 0), Ok((some("a"), 3)));
    assert_eq!(lex_unquoted_element(Nesting::List, b"\\  ,", 0), Ok((some(" "), 3)));
    assert_eq!(lex_unquoted_element(Nesting::List, b"null}", 0), Ok((None, 4)));
    assert_eq!(lex_unquoted_element(Nesting::List, b"null }", 0), Ok((None, 5)));
    assert_eq!(lex_unquoted_element(Nesting::List, b"nu\\ll}", 0), Ok((some("null"), 5)));
    assert_eq!(
        lex_element(Nesting::Dict, b"{a}", 0, false),
        Err(NestedError::UnescapedValueBrace)
    );
    assert_eq!(lex_element(Nesting::Dict, b"{a}", 0, true), Ok((some("{a}"), 3)));
    assert_eq!(lex_element(Nesting::List, b"", 0, true), Err(NestedError::UnexpectedEnd));
    assert_eq!(skip_whitespace(b" \t\n\x0c\r\x0bx", 0), 5);
    assert_eq!(skip_whitespace(b"  ", 1), 2);
    assert_eq!(char_at("aé日x".as_bytes(), 1), "é".as_bytes());
    assert_eq!(char_at("aé日x".as_bytes(), 3), "日".as_bytes());
    assert_eq!(char_at("aé日x".as_bytes(), 6), b"x");
    assert!(is_null_text(b"NuLl"));
    assert!(!is_null_text(b"NULLL"));
    assert!(!is_null_text(b"NUL"));
}

#[test]
fn vectors_of_the_old_kind_are_read() {
    assert_eq!(
        parse_legacy_vector(b" 1  22\t333 "),
        vec![b"1".to_vec(), b"22".to_vec(), b"333".to_vec()]
    );
    assert_eq!(parse_legacy_vector(b""), Vec::<Vec<u8>>::new());
    assert_eq!(parse_legacy_vector(b"  \n"), Vec::<Vec<u8>>::new());
    assert_eq!(parse_legacy_vector(b"{a,b}"), vec![b"{a,b}".to_vec()]);
}

#[test]
fn maps_are_read() {
    let entry = |k: &str, v: Option<&str>| (k.as_bytes().to_vec(), v.map(|v| v.as_bytes().to_vec()));
    assert_eq!(map("{}"), Ok(vec![]));
    assert_eq!(map("{a=>1,b=>2}"), Ok(vec![entry("a", Some("1")), entry("b", Some("2"))]));
    assert_eq!(
        map("{ a => 1 , \"b c\" => \"d\" }"),
        Ok(vec![entry("a", Some("1")), entry("b c", Some("d"))])
    );
    assert_eq!(map("{a=>NULL,a=>\"NULL\"}"), Ok(vec![entry("a", None), entry("a", Some("NULL"))]));
    // What stands behind the closing brace is not looked at.
    assert_eq!(map("{a=>1}junk"), Ok(vec![entry("a", Some("1"))]));
    assert_eq!(
        parse_map(b"{a=>{b=>1},c=>{}}", true),
        Ok(vec![entry("a", Some("{b=>1}")), entry("c", Some("{}"))])
    );
    let err = |s: &str| Err(s.to_owned());
    assert_eq!(map(""), err("expected '{', found empty string"));
    assert_eq!(map("a=>1"), err("expected '{', found a"));
    assert_eq!(map("{NULL=>1}"), err("expected key"));
    assert_eq!(map("{a 1}"), err("expected =>"));
    assert_eq!(map("{a=1}"), err("expected =>"));
    assert_eq!(map("{a="), err("expected =>"));
    assert_eq!(map("{a=>"), err("unexpected end of input"));
    assert_eq!(map("{a=>1"), err("unterminated element"));
    assert_eq!(map("{a=>1 b=>2}"), err("expected ',' or end of input, got '='"));
    assert_eq!(map("{a=>\"1\"b=>2}"), err("expected ',' or end of input, got 'b'"));
    assert_eq!(map("{a=>1,"), err("unexpected end of input"));
    assert_eq!(map("{a>1}"), err("malformed literal; must escape special character '>'"));
    assert_eq!(
        map("{a=>{b=>1}}"),
        err("unescaped '{' at beginning of value; perhaps you want a nested map, e.g. '{a=>{a=>1}}'::map[text=>map[text=>int]]")
    );
    let text = b"{a=>1,b=>}";
    let mut lexer = open_map(text).unwrap();
    assert_eq!(
        lexer.step(text, false),
        Ok(MapStep::Entry { key: b"a".to_vec(), value: some("1") })
    );
    assert_eq!(lexer.pos, 5);
    assert_eq!(lexer.step(text, false), Err(NestedError::Lex(LexError::MissingElement)));
}

#[test]
fn ranges_are_read() {
    let spans = |lower_inclusive, lower, upper_inclusive, upper| {
        Ok(Some(RangeSpans { lower_inclusive, lower, upper_inclusive, upper }))
    };
    assert_eq!(range("empty"), Ok(None));
    assert_eq!(range("  empty \n"), Ok(None));
    assert_eq!(range("[1,2)"), spans(true, Some((1, 2)), false, Some((3, 4))));
    assert_eq!(range("(,)"), spans(false, None, false, None));
    assert_eq!(range(" ( a b ,c d] "), spans(false, Some((2, 7)), true, Some((8, 11))));
    assert_eq!(range("[,5]"), spans(true, None, true, Some((2, 3))));
    assert_eq!(range("[5,)"), spans(true, Some((1, 2)), false, None));
    let err = |s: &str| Err(s.to_owned());
    assert_eq!(range("empty x"), err("Junk after \"empty\" key word."));
    assert_eq!(range("emptyx"), err("Junk after \"empty\" key word."));
    assert_eq!(range(""), err("Missing left parenthesis or bracket."));
    assert_eq!(range("1,2]"), err("Missing left parenthesis or bracket."));
    assert_eq!(range("["), err("Unexpected end of input."));
    assert_eq!(range("[1 2]"), err("Missing comma after lower bound."));
    assert_eq!(range("[1,"), err("Unexpected end of input."));
    assert_eq!(range("[1,2"), err("Missing left parenthesis or bracket."));
    assert_eq!(range("[1,2] x"), err("Junk after right parenthesis or bracket."));
    assert_eq!(range("[1,2]]"), err("Junk after right parenthesis or bracket."));
    // The ends are read one after the other.
    let text = b"[1,2";
    assert_eq!(
        read_range_lower(text),
        Ok(Some(RangeLower { inclusive: true, bound: Some((1, 2)), next: 2 }))
    );
    assert_eq!(read_range_upper(text, 2), Ok((Some((3, 4)), 4)));
    assert_eq!(read_range_close(text, 4), Err(NestedError::MissingBracket));
    assert_eq!(read_range_close(b"[1,2) ", 4), Ok(false));
    assert_eq!(read_range_close(b"[1,2]", 4), Ok(true));
}

#[test]
fn arrays_are_read() {
    assert_eq!(array("{1,2,3}"), Ok((vec![some("1"), some("2"), some("3")], vec![3])));
    assert_eq!(
        array("{{1,2},{3,4}}"),
        Ok((vec![some("1"), some("2"), some("3"), some("4")], vec![2, 2]))
    );
    assert_eq!(
        array(" { { \"a b\" , NULL } , { c\\,d , e f } } "),
        Ok((vec![some("a b"), None, some("c,d"), some("e f")], vec![2, 2]))
    );
    assert_eq!(array("{{{1},{2}}}"), Ok((vec![some("1"), some("2")], vec![1, 2, 1])));
    assert_eq!(array("{}"), Ok((vec![], vec![])));
    assert_eq!(array("{{},{}}"), Ok((vec![], vec![])));
    let err = |s: &str| Err(s.to_owned());
    assert_eq!(array("[1:2]={1,2}"), err("Specifying array lower bounds is not supported"));
    assert_eq!(array("1,2"), err("Array value must start with \"{\""));
    assert_eq!(array(""), err("Array value must start with \"{\""));
    assert_eq!(array("{1,2"), err("unterminated element"));
    assert_eq!(array("{1,2} x"), err("Junk after closing right brace."));
    assert_eq!(array("{1}{"), err("Junk after closing right brace."));
    assert_eq!(array("{\"1\""), err("Unexpected end of input."));
    assert_eq!(array("{"), err("Unexpected end of input."));
    assert_eq!(array("{1,}"), err("Unexpected \"}\" character."));
    assert_eq!(array("{1,,2}"), err("Unexpected \",\" character."));
    assert_eq!(array("{,1}"), err("Unexpected \",\" character."));
    assert_eq!(array("{\"1\"{2}}"), err("Unexpected \"{\" character."));
    assert_eq!(
        array("{{1},{2,3}}"),
        err("Multidimensional arrays must have sub-arrays with matching dimensions.")
    );
    assert_eq!(
        array("{1,{2}}"),
        err("Multidimensional arrays must have sub-arrays with matching dimensions.")
    );
    assert_eq!(array("{{1},2}"), err("Unexpected array element."));
    assert_eq!(array("{\"1\"\"2\"}"), err("Unexpected array element."));
    assert_eq!(array("{\"1"), err("unterminated quoted string"));
    assert_eq!(array("{a\"b\"}"), err("malformed literal; must escape special character '\"'"));
}

#[test]
fn the_builder_of_arrays_counts_what_it_is_given() {
    let dimension = Dimension { length: None, staged_element: false, committed_element_count: 0 };
    let mut builder = ArrayBuilder {
        current_command_char: 0,
        dimensions: vec![dimension, dimension],
        current_dim: 1,
        sealed: false,
        elements: vec![],
    };
    assert_eq!(builder.insert_element(some("a")), Ok(()));
    assert!(builder.dimensions[1].staged_element);
    assert_eq!(builder.insert_element(some("b")), Err(ArrayParsingError::UnexpectedElement));
    assert_eq!(builder.stage_element(), Err(ArrayParsingError::UnexpectedElement));
    builder.current_command_char = 7;
    assert_eq!(builder.enter_dim(), Err(ArrayParsingError::UnexpectedChar { at: 7 }));
    assert_eq!(builder.commit_element(true), Ok(()));
    assert_eq!(builder.dimensions[1].committed_element_count, 1);
    assert_eq!(builder.commit_element(true), Err(ArrayParsingError::UnexpectedChar { at: 7 }));
    assert_eq!(builder.commit_element(false), Err(ArrayParsingError::UnexpectedChar { at: 7 }));
    assert_eq!(builder.enter_dim(), Err(ArrayParsingError::NonRectilinearDims));
    assert_eq!(builder.insert_element(None), Ok(()));
    assert_eq!(builder.exit_dim(), Ok(()));
    assert_eq!(builder.current_dim, 0);
    assert_eq!(
        builder.dimensions,
        vec![
            Dimension { length: None, staged_element: true, committed_element_count: 0 },
            Dimension { length: Some(2), staged_element: false, committed_element_count: 0 },
        ]
    );
    assert_eq!(builder.commit_element(true), Ok(()));
    assert_eq!(builder.enter_dim(), Ok(()));
    assert_eq!(builder.insert_element(some("c")), Ok(()));
    assert_eq!(builder.exit_dim(), Err(ArrayParsingError::NonRectilinearDims));
    assert_eq!(builder.elements, vec![some("a"), None, some("c")]);
}

fn time_of(secs: u32, nanos: u32) -> String {
    let mut buf = Vec::new();
    assert_eq!(format_time(&mut buf, Time { secs, nanos }), Nestable::Yes);
    text_of(buf)
}

fn date_of(pg_epoch_days: i32) -> Option<String> {
    let mut buf = b"d:".to_vec();
    let r = format_date(&mut buf, Date { pg_epoch_days });
    match r {
        Some(nestable) => {
            assert_eq!(nestable, Nestable::Yes);
            Some(text_of(buf))
        }
        None => {
            assert_eq!(buf, b"d:");
            None
        }
    }
}

fn timestamp_of(year: i32, ordinal: u32, secs: u32, nanos: u32) -> (Option<String>, Option<String>) {
    let ts = DateTime { year, ordinal, time: Time { secs, nanos } };
    let mut plain = Vec::new();
    let mut zoned = Vec::new();
    let a = format_timestamp(&mut plain, &ts);
    let b = format_timestamptz(&mut zoned, &ts);
    assert_eq!(a, b);
    match a {
        Some(nestable) => {
            assert_eq!(nestable, Nestable::MayNeedEscaping);
            (Some(text_of(plain)), Some(text_of(zoned)))
        }
        None => {
            assert!(plain.is_empty() && zoned.is_empty());
            (None, None)
        }
    }
}

#[test]
fn times_of_day_are_written() {
    assert_eq!(time_of(0, 0), "00:00:00");
    assert_eq!(time_of(14 * 3600 + 32 * 60 + 11, 0), "14:32:11");
    assert_eq!(time_of(14 * 3600 + 32 * 60 + 11, 500_000), "14:32:11.0005");
    assert_eq!(time_of(86_399, 999_999_499), "23:59:59.999999");
    assert_eq!(time_of(86_399, 999_999_500), "23:59:59.1");
    // Within a leap second the second counts sixty.
    assert_eq!(time_of(86_399, 1_000_000_000), "23:59:60.1");
    assert_eq!(time_of(86_399, 1_500_000_000), "23:59:60.15");
}

#[test]
fn dates_are_written() {
    assert_eq!(date_of(0), Some("d:2000-01-01".to_owned()));
    assert_eq!(date_of(365 * 45 + 21), Some("d:2045-01-10".to_owned()));
    assert_eq!(date_of(-730_119), Some("d:0001-01-01".to_owned()));
    assert_eq!(date_of(-730_120), Some("d:0001-12-31 BC".to_owned()));
    assert_eq!(date_of(-730_120 - 366), Some("d:0002-12-31 BC".to_owned()));
    assert_eq!(date_of(3_652_059 - 730_120 + 1), Some("d:10000-01-01".to_owned()));
    assert_eq!(date_of(i32::MAX), None);
    assert_eq!(date_of(i32::MIN), None);
}

#[test]
fn timestamps_are_written() {
    let at = 14 * 3600 + 32 * 60 + 11;
    assert_eq!(
        timestamp_of(2019, 205, at, 0),
        (Some("2019-07-24 14:32:11".to_owned()), Some("2019-07-24 14:32:11+00".to_owned()))
    );
    assert_eq!(
        timestamp_of(2020, 366, at, 123_456_000),
        (
            Some("2020-12-31 14:32:11.123456".to_owned()),
            Some("2020-12-31 14:32:11.123456+00".to_owned())
        )
    );
    assert_eq!(
        timestamp_of(0, 1, 0, 0),
        (Some("0001-01-01 00:00:00 BC".to_owned()), Some("0001-01-01 00:00:00+00 BC".to_owned()))
    );
    assert_eq!(
        timestamp_of(-43, 74, 43_200, 0),
        (Some("0044-03-15 12:00:00 BC".to_owned()), Some("0044-03-15 12:00:00+00 BC".to_owned()))
    );
    assert_eq!(
        timestamp_of(12_345, 32, 1, 0),
        (Some("12345-02-01 00:00:01".to_owned()), Some("12345-02-01 00:00:01+00".to_owned()))
    );
    assert_eq!(timestamp_of(2021, 366, 0, 0), (None, None));
    assert_eq!(timestamp_of(2021, 0, 0, 0), (None, None));
}

#[test]
fn numbers_are_padded_with_zeros() {
    let write = |v, width| {
        let mut buf = Vec::new();
        write_padded(&mut buf, v, width);
        text_of(buf)
    };
    assert_eq!(write(0, 0), "0");
    assert_eq!(write(7, 2), "07");
    assert_eq!(write(42, 2), "42");
    assert_eq!(write(123, 2), "123");
    assert_eq!(write(5, 4), "0005");
    assert_eq!(write(u64::MAX, 4), "18446744073709551615");
    assert_eq!(write(1, 22), "0000000000000000000001");
}
