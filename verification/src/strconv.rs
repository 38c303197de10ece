//! Values from and to their text.
//!
//! The text of a value is what PostgreSQL writes for it. A value is read
//! from text that may have white space around it; where the text is not
//! that of a value, the error names the type, repeats the text and says
//! what is wrong with it.

use crate::datum::{Date, Interval, Uuid};
use crate::order::bytes_equal;
use vstd::prelude::*;
use vstd::string::StringSliceAdditionalSpecFns;

verus! {

/// Whether the text of a value can stand in a list as it is.
#[derive(Debug, Clone, Copy, PartialEq, Eq)]
pub enum Nestable {
    /// The text never has to be escaped.
    Yes,
    /// The text may have to be escaped.
    MayNeedEscaping,
}

/// In which way a text is not the text of a value.
#[derive(Debug, Clone, Copy, PartialEq, Eq, Hash)]
pub enum ParseErrorKind {
    OutOfRange,
    InvalidInputSyntax,
}

/// Why a text was not read as a value of a type.
#[derive(Debug, Clone, PartialEq, Eq, Hash)]
pub struct ParseError {
    pub kind: ParseErrorKind,
    pub ty_name: String,
    pub input: String,
    pub details: Option<String>,
}

/// Why a text was not read as bytes in hexadecimal digits.
#[derive(Debug, Clone, Copy, PartialEq, Eq, Hash)]
pub enum ParseHexError {
    InvalidHexDigit(char),
    OddLength,
}

/// Why a text was not read as an integer.
#[derive(Debug, Clone, Copy, PartialEq, Eq)]
pub enum IntErrorKind {
    /// The text is empty.
    Empty,
    /// The text has a character that is no digit, or is a sign alone.
    InvalidDigit,
    /// The number is above the greatest of the type.
    PosOverflow,
    /// The number is below the least of the type.
    NegOverflow,
}

/// `c` is white space: a character with the Unicode property
/// `White_Space`.
pub open spec fn is_white_space(c: char) -> bool {
    let n = c as u32;
    (0x09 <= n <= 0x0d) || n == 0x20 || n == 0x85 || n == 0xa0 || n == 0x1680 || (0x2000 <= n
        <= 0x200a) || n == 0x2028 || n == 0x2029 || n == 0x202f || n == 0x205f || n == 0x3000
}

/// `s` without the white space at its start.
pub open spec fn trimmed_start(s: Seq<char>) -> Seq<char>
    decreases s.len(),
{
    if s.len() > 0 && is_white_space(s[0]) {
        trimmed_start(s.drop_first())
    } else {
        s
    }
}

/// `s` without the white space at its end.
pub open spec fn trimmed_end(s: Seq<char>) -> Seq<char>
    decreases s.len(),
{
    if s.len() > 0 && is_white_space(s.last()) {
        trimmed_end(s.drop_last())
    } else {
        s
    }
}

/// `s` without the white space at its start and at its end.
pub open spec fn trimmed(s: Seq<char>) -> Seq<char> {
    trimmed_end(trimmed_start(s))
}

/// `s` in lower case, as `str::to_lowercase` writes it.
pub uninterp spec fn lowercased(s: Seq<char>) -> Seq<char>;

/// What `char::escape_default` writes for `c`.
pub uninterp spec fn escaped(c: char) -> Seq<char>;

/// `str::trim`: the text without leading and trailing white space, which
/// its documentation defines as the characters with the Unicode property
/// `White_Space`.
#[verifier::external_body]
fn str_trim(s: &str) -> (t: &str)
    ensures
        t@ == trimmed(s@),
{
    s.trim()
}

/// `str::to_lowercase`: the text in lower case.
#[verifier::external_body]
fn str_to_lowercase(s: &str) -> (t: String)
    ensures
        t@ == lowercased(s@),
{
    s.to_lowercase()
}

/// `char::escape_default`, collected into a string: the character as it is
/// written in a Rust literal.
#[verifier::external_body]
fn char_escape_default(c: char) -> (t: String)
    ensures
        t@ == escaped(c),
{
    c.escape_default().collect()
}

impl ParseError {
    /// An error of the kind `kind` for the text `input` of the type
    /// `ty_name`, without details.
    pub fn new(kind: ParseErrorKind, ty_name: &str, input: &str) -> (e: ParseError)
        ensures
            e.kind == kind,
            e.ty_name@ == ty_name@,
            e.input@ == input@,
            e.details is None,
    {
        ParseError { kind, ty_name: ty_name.to_owned(), input: input.to_owned(), details: None }
    }

    /// The error that `input` is out of the range of `ty_name`.
    pub fn out_of_range(ty_name: &str, input: &str) -> (e: ParseError)
        ensures
            e.kind == ParseErrorKind::OutOfRange,
            e.ty_name@ == ty_name@,
            e.input@ == input@,
            e.details is None,
    {
        ParseError::new(ParseErrorKind::OutOfRange, ty_name, input)
    }

    /// The error that `input` is not written as a value of `ty_name`.
    pub fn invalid_input_syntax(ty_name: &str, input: &str) -> (e: ParseError)
        ensures
            e.kind == ParseErrorKind::InvalidInputSyntax,
            e.ty_name@ == ty_name@,
            e.input@ == input@,
            e.details is None,
    {
        ParseError::new(ParseErrorKind::InvalidInputSyntax, ty_name, input)
    }

    /// The same error with the details `details`.
    pub fn with_details(self, details: &str) -> (e: ParseError)
        ensures
            e.kind == self.kind,
            e.ty_name == self.ty_name,
            e.input == self.input,
            e.details matches Some(d) && d@ == details@,
    {
        ParseError {
            kind: self.kind,
            ty_name: self.ty_name,
            input: self.input,
            details: Some(details.to_owned()),
        }
    }
}

/// What is said of a text that is no integer.
pub open spec fn int_error_text(kind: IntErrorKind) -> Seq<char> {
    match kind {
        IntErrorKind::Empty => "cannot parse integer from empty string"@,
        IntErrorKind::InvalidDigit => "invalid digit found in string"@,
        IntErrorKind::PosOverflow => "number too large to fit in target type"@,
        IntErrorKind::NegOverflow => "number too small to fit in target type"@,
    }
}

/// What is said of a text that is no integer.
pub fn int_error_message(kind: IntErrorKind) -> (text: &'static str)
    ensures
        text@ == int_error_text(kind),
{
    match kind {
        IntErrorKind::Empty => "cannot parse integer from empty string",
        IntErrorKind::InvalidDigit => "invalid digit found in string",
        IntErrorKind::PosOverflow => "number too large to fit in target type",
        IntErrorKind::NegOverflow => "number too small to fit in target type",
    }
}

/// The number that the decimal digits `digits` spell behind the number
/// `acc`, counted down where `negative`. The digits are taken from the
/// left; the first that is no digit, and the first with which the number
/// leaves the range from `min` to `max`, ends the reading.
pub open spec fn scan_digits(digits: Seq<u8>, acc: int, negative: bool, min: int, max: int) -> Result<
    int,
    IntErrorKind,
>
    decreases digits.len(),
{
    if digits.len() == 0 {
        Ok(acc)
    } else if !(48 <= digits[0] <= 57) {
        Err(IntErrorKind::InvalidDigit)
    } else {
        let digit = digits[0] - 48;
        let next = if negative {
            acc * 10 - digit
        } else {
            acc * 10 + digit
        };
        if next > max {
            Err(IntErrorKind::PosOverflow)
        } else if next < min {
            Err(IntErrorKind::NegOverflow)
        } else {
            scan_digits(digits.drop_first(), next, negative, min, max)
        }
    }
}

/// The integer from `min` to `max` that `text` spells in decimal digits,
/// behind a plus sign or, where `min` is negative, a minus sign, if it has
/// one.
pub open spec fn parse_decimal(text: Seq<u8>, min: int, max: int) -> Result<int, IntErrorKind> {
    if text.len() == 0 {
        Err(IntErrorKind::Empty)
    } else if text.len() == 1 && (text[0] == 43 || text[0] == 45) {
        Err(IntErrorKind::InvalidDigit)
    } else if text[0] == 43 {
        scan_digits(text.drop_first(), 0, false, min, max)
    } else if text[0] == 45 && min < 0 {
        scan_digits(text.drop_first(), 0, true, min, max)
    } else {
        scan_digits(text, 0, false, min, max)
    }
}

/// Reads the integer from `min` to `max` that `text` spells.
pub fn parse_integer(text: &[u8], min: i128, max: i128) -> (r: Result<i128, IntErrorKind>)
    requires
        -0x8000_0000_0000_0000 <= min <= 0,
        0 <= max <= 0xffff_ffff_ffff_ffff,
    ensures
        match r {
            Ok(v) => parse_decimal(text@, min as int, max as int) == Ok::<int, IntErrorKind>(
                v as int,
            ) && min <= v <= max,
            Err(kind) => parse_decimal(text@, min as int, max as int) == Err::<int, IntErrorKind>(
                kind,
            ),
        },
{
    if text.len() == 0 {
        return Err(IntErrorKind::Empty);
    }
    if text.len() == 1 && (text[0] == 43 || text[0] == 45) {
        return Err(IntErrorKind::InvalidDigit);
    }
    let (negative, start): (bool, usize) = if text[0] == 43 {
        (false, 1)
    } else if text[0] == 45 && min < 0 {
        (true, 1)
    } else {
        (false, 0)
    };
    let mut acc: i128 = 0;
    let mut i: usize = start;
    proof {
        assert(text@.skip(0) =~= text@);
        assert(text@.skip(1) =~= text@.drop_first());
    }
    while i < text.len()
        invariant
            start <= i <= text@.len(),
            -0x8000_0000_0000_0000 <= min <= 0,
            0 <= max <= 0xffff_ffff_ffff_ffff,
            min <= acc <= max,
            parse_decimal(text@, min as int, max as int) == scan_digits(
                text@.skip(i as int),
                acc as int,
                negative,
                min as int,
                max as int,
            ),
        decreases text.len() - i,
    {
        let c = text[i];
        proof {
            assert(text@.skip(i as int)[0] == c);
            assert(text@.skip(i as int).drop_first() =~= text@.skip(i + 1));
        }
        if c < 48 || c > 57 {
            return Err(IntErrorKind::InvalidDigit);
        }
        let digit = (c - 48) as i128;
        let next = if negative {
            acc * 10 - digit
        } else {
            acc * 10 + digit
        };
        if next > max {
            return Err(IntErrorKind::PosOverflow);
        }
        if next < min {
            return Err(IntErrorKind::NegOverflow);
        }
        acc = next;
        i = i + 1;
    }
    proof {
        assert(text@.skip(text@.len() as int) =~= Seq::<u8>::empty());
    }
    Ok(acc)
}

/// What reading `s` as an integer of the type `ty_name` from `min` to
/// `max` gives: the number, or the error that the text is not written as
/// one, with what is wrong with it.
pub open spec fn integer_text(s: Seq<char>, min: int, max: int) -> Result<int, IntErrorKind> {
    parse_decimal(vstd::utf8::encode_utf8(trimmed(s)), min, max)
}

/// The error that `s` is no integer of the type `ty_name`, for `kind`.
pub open spec fn is_integer_error(e: ParseError, ty_name: Seq<char>, s: Seq<char>, kind: IntErrorKind) -> bool {
    e.kind == ParseErrorKind::InvalidInputSyntax && e.ty_name@ == ty_name && e.input@ == s && (
    e.details matches Some(d) && d@ == int_error_text(kind))
}

fn parse_integer_text(s: &str, ty_name: &str, min: i128, max: i128) -> (r: Result<
    i128,
    ParseError,
>)
    requires
        -0x8000_0000_0000_0000 <= min <= 0,
        0 <= max <= 0xffff_ffff_ffff_ffff,
    ensures
        match r {
            Ok(v) => integer_text(s@, min as int, max as int) == Ok::<int, IntErrorKind>(v as int)
                && min <= v <= max,
            Err(e) => integer_text(s@, min as int, max as int) matches Err(kind)
                && is_integer_error(e, ty_name@, s@, kind),
        },
{
    let text = str_trim(s);
    match parse_integer(text.as_bytes(), min, max) {
        Ok(v) => Ok(v),
        Err(kind) => Err(
            ParseError::invalid_input_syntax(ty_name, s).with_details(int_error_message(kind)),
        ),
    }
}

/// Reads a 16-bit integer from `s`, which may have white space around it.
pub fn parse_int16(s: &str) -> (r: Result<i16, ParseError>)
    ensures
        match r {
            Ok(v) => integer_text(s@, i16::MIN as int, i16::MAX as int) == Ok::<int, IntErrorKind>(
                v as int,
            ),
            Err(e) => integer_text(s@, i16::MIN as int, i16::MAX as int) matches Err(kind)
                && is_integer_error(e, "smallint"@, s@, kind),
        },
{
    match parse_integer_text(s, "smallint", -0x8000, 0x7fff) {
        Ok(v) => Ok(v as i16),
        Err(e) => Err(e),
    }
}

/// Reads a 32-bit integer from `s`, which may have white space around it.
pub fn parse_int32(s: &str) -> (r: Result<i32, ParseError>)
    ensures
        match r {
            Ok(v) => integer_text(s@, i32::MIN as int, i32::MAX as int) == Ok::<int, IntErrorKind>(
                v as int,
            ),
            Err(e) => integer_text(s@, i32::MIN as int, i32::MAX as int) matches Err(kind)
                && is_integer_error(e, "integer"@, s@, kind),
        },
{
    match parse_integer_text(s, "integer", -0x8000_0000, 0x7fff_ffff) {
        Ok(v) => Ok(v as i32),
        Err(e) => Err(e),
    }
}

/// Reads a 64-bit integer from `s`, which may have white space around it.
pub fn parse_int64(s: &str) -> (r: Result<i64, ParseError>)
    ensures
        match r {
            Ok(v) => integer_text(s@, i64::MIN as int, i64::MAX as int) == Ok::<int, IntErrorKind>(
                v as int,
            ),
            Err(e) => integer_text(s@, i64::MIN as int, i64::MAX as int) matches Err(kind)
                && is_integer_error(e, "bigint"@, s@, kind),
        },
{
    match parse_integer_text(s, "bigint", -0x8000_0000_0000_0000, 0x7fff_ffff_ffff_ffff) {
        Ok(v) => Ok(v as i64),
        Err(e) => Err(e),
    }
}

/// Reads an unsigned 16-bit integer from `s`, which may have white space
/// around it.
pub fn parse_uint16(s: &str) -> (r: Result<u16, ParseError>)
    ensures
        match r {
            Ok(v) => integer_text(s@, 0, u16::MAX as int) == Ok::<int, IntErrorKind>(v as int),
            Err(e) => integer_text(s@, 0, u16::MAX as int) matches Err(kind) && is_integer_error(
                e,
                "uint2"@,
                s@,
                kind,
            ),
        },
{
    match parse_integer_text(s, "uint2", 0, 0xffff) {
        Ok(v) => Ok(v as u16),
        Err(e) => Err(e),
    }
}

/// Reads an unsigned 32-bit integer from `s`, which may have white space
/// around it.
pub fn parse_uint32(s: &str) -> (r: Result<u32, ParseError>)
    ensures
        match r {
            Ok(v) => integer_text(s@, 0, u32::MAX as int) == Ok::<int, IntErrorKind>(v as int),
            Err(e) => integer_text(s@, 0, u32::MAX as int) matches Err(kind) && is_integer_error(
                e,
                "uint4"@,
                s@,
                kind,
            ),
        },
{
    match parse_integer_text(s, "uint4", 0, 0xffff_ffff) {
        Ok(v) => Ok(v as u32),
        Err(e) => Err(e),
    }
}

/// Reads an unsigned 64-bit integer from `s`, which may have white space
/// around it.
pub fn parse_uint64(s: &str) -> (r: Result<u64, ParseError>)
    ensures
        match r {
            Ok(v) => integer_text(s@, 0, u64::MAX as int) == Ok::<int, IntErrorKind>(v as int),
            Err(e) => integer_text(s@, 0, u64::MAX as int) matches Err(kind) && is_integer_error(
                e,
                "uint8"@,
                s@,
                kind,
            ),
        },
{
    match parse_integer_text(s, "uint8", 0, 0xffff_ffff_ffff_ffff) {
        Ok(v) => Ok(v as u64),
        Err(e) => Err(e),
    }
}

/// Reads a timestamp of the system, an unsigned 64-bit number, from `s`,
/// which may have white space around it.
pub fn parse_mz_timestamp(s: &str) -> (r: Result<u64, ParseError>)
    ensures
        match r {
            Ok(v) => integer_text(s@, 0, u64::MAX as int) == Ok::<int, IntErrorKind>(v as int),
            Err(e) => integer_text(s@, 0, u64::MAX as int) matches Err(kind) && is_integer_error(
                e,
                "mz_timestamp"@,
                s@,
                kind,
            ),
        },
{
    match parse_integer_text(s, "mz_timestamp", 0, 0xffff_ffff_ffff_ffff) {
        Ok(v) => Ok(v as u64),
        Err(e) => Err(e),
    }
}

/// Reads an object identifier from `s`. For the sake of old habits it is
/// read as a signed 32-bit integer and taken for the unsigned number with
/// the same bits.
pub fn parse_oid(s: &str) -> (r: Result<u32, ParseError>)
    ensures
        match r {
            Ok(v) => integer_text(s@, i32::MIN as int, i32::MAX as int) matches Ok(i) && v == if i
                >= 0 {
                i
            } else {
                i + 0x1_0000_0000
            },
            Err(e) => integer_text(s@, i32::MIN as int, i32::MAX as int) matches Err(kind)
                && is_integer_error(e, "oid"@, s@, kind),
        },
{
    match parse_integer_text(s, "oid", -0x8000_0000, 0x7fff_ffff) {
        Ok(v) => if v >= 0 {
            Ok(v as u32)
        } else {
            Ok((v + 0x1_0000_0000) as u32)
        },
        Err(e) => Err(e),
    }
}

/// The truth value that the word `word` stands for: "true", "yes", "on" and
/// "1" and what begins one of them alone for the one, "false", "no", "off"
/// and "0" and what begins one of them alone for the other.
pub open spec fn bool_word(word: Seq<char>) -> Option<bool> {
    if word == "t"@ || word == "tr"@ || word == "tru"@ || word == "true"@ || word == "y"@ || word
        == "ye"@ || word == "yes"@ || word == "on"@ || word == "1"@ {
        Some(true)
    } else if word == "f"@ || word == "fa"@ || word == "fal"@ || word == "fals"@ || word
        == "false"@ || word == "n"@ || word == "no"@ || word == "of"@ || word == "off"@ || word
        == "0"@ {
        Some(false)
    } else {
        None
    }
}

/// Whether `a` and `b` are the same text.
fn same_text(a: &str, b: &str) -> (same: bool)
    ensures
        same == (a@ == b@),
{
    proof {
        vstd::utf8::encode_utf8_decode_utf8(a@);
        vstd::utf8::encode_utf8_decode_utf8(b@);
    }
    bytes_equal(a.as_bytes(), b.as_bytes())
}

/// The truth value that the word `word` stands for, if it stands for one.
pub fn bool_of_word(word: &str) -> (r: Option<bool>)
    ensures
        r == bool_word(word@),
{
    if same_text(word, "t") || same_text(word, "tr") || same_text(word, "tru") || same_text(
        word,
        "true",
    ) || same_text(word, "y") || same_text(word, "ye") || same_text(word, "yes") || same_text(
        word,
        "on",
    ) || same_text(word, "1") {
        Some(true)
    } else if same_text(word, "f") || same_text(word, "fa") || same_text(word, "fal") || same_text(
        word,
        "fals",
    ) || same_text(word, "false") || same_text(word, "n") || same_text(word, "no") || same_text(
        word,
        "of",
    ) || same_text(word, "off") || same_text(word, "0") {
        Some(false)
    } else {
        None
    }
}

/// Reads a truth value from `s`, in any case of letters and with white
/// space around it.
pub fn parse_bool(s: &str) -> (r: Result<bool, ParseError>)
    ensures
        match r {
            Ok(b) => bool_word(lowercased(trimmed(s@))) == Some(b),
            Err(e) => bool_word(lowercased(trimmed(s@))) is None && e.kind
                == ParseErrorKind::InvalidInputSyntax && e.ty_name@ == "boolean"@ && e.input@
                == s@ && e.details is None,
        },
{
    let lowered = str_to_lowercase(str_trim(s));
    match bool_of_word(lowered.as_str()) {
        Some(b) => Ok(b),
        None => Err(ParseError::invalid_input_syntax("boolean", s)),
    }
}

/// The text of a truth value: "t" or "f".
pub fn format_bool_static(b: bool) -> (text: &'static str)
    ensures
        text@ == if b {
            "t"@
        } else {
            "f"@
        },
{
    match b {
        true => "t",
        false => "f",
    }
}

/// The most bytes that a name of the old kind has.
pub const NAME_MAX_BYTES: usize = 63;

/// Where `bytes`, the bytes of a text, are cut so that no more than
/// `NAME_MAX_BYTES` are left and no character is cut in two.
pub open spec fn name_cut(bytes: Seq<u8>, at: int) -> bool {
    &&& 0 <= at <= bytes.len()
    &&& at <= NAME_MAX_BYTES
    &&& vstd::utf8::is_char_boundary(bytes, at)
    &&& forall|k: int|
        at < k <= bytes.len() && k <= NAME_MAX_BYTES ==> !vstd::utf8::is_char_boundary(bytes, k)
}

/// A name of the old kind from `s`: `s` cut to `NAME_MAX_BYTES` bytes, and
/// to fewer where a character would be cut in two.
pub fn parse_pg_legacy_name(s: &str) -> (name: String)
    ensures
        exists|at: int|
            #[trigger] name_cut(s.spec_bytes(), at) && vstd::utf8::encode_utf8(name@)
                == s.spec_bytes().take(at),
{
    let len = s.as_bytes().len();
    let mut at: usize = if len < NAME_MAX_BYTES {
        len
    } else {
        NAME_MAX_BYTES
    };
    proof {
        vstd::utf8::encode_utf8_valid_utf8(s@);
    }
    while !s.is_char_boundary(at)
        invariant
            at <= s.spec_bytes().len(),
            at <= NAME_MAX_BYTES,
            len == s.spec_bytes().len(),
            vstd::utf8::valid_utf8(s.spec_bytes()),
            forall|k: int|
                at < k <= s.spec_bytes().len() && k <= NAME_MAX_BYTES
                    ==> !vstd::utf8::is_char_boundary(s.spec_bytes(), k),
        decreases at,
    {
        proof {
            // The start of a text is the start of a character.
            if at == 0 {
                vstd::utf8::is_char_boundary_start_end_of_seq(s.spec_bytes());
            }
        }
        at = at - 1;
    }
    let (head, _) = s.split_at(at);
    proof {
        assert(name_cut(s.spec_bytes(), at as int));
        vstd::utf8::encode_utf8_decode_utf8(head@);
    }
    head.to_owned()
}

/// The value of the hexadecimal digit `b`, if it is one.
pub open spec fn nibble(b: u8) -> Option<u8> {
    if 97 <= b <= 102 {
        Some((b - 97 + 10) as u8)
    } else if 65 <= b <= 70 {
        Some((b - 65 + 10) as u8)
    } else if 48 <= b <= 57 {
        Some((b - 48) as u8)
    } else {
        None
    }
}

/// A blank that may stand between two bytes in hexadecimal digits.
pub open spec fn hex_blank(b: u8) -> bool {
    b == 32 || b == 10 || b == 9 || b == 13
}

/// The bytes that `text` spells in pairs of hexadecimal digits, behind the
/// bytes `acc`. Blanks may stand between the pairs.
pub open spec fn hex_decode(text: Seq<u8>, acc: Seq<u8>) -> Result<Seq<u8>, ParseHexError>
    decreases text.len(),
{
    if text.len() == 0 {
        Ok(acc)
    } else if hex_blank(text[0]) {
        hex_decode(text.drop_first(), acc)
    } else {
        match nibble(text[0]) {
            None => Err(ParseHexError::InvalidHexDigit(text[0] as char)),
            Some(high) => if text.len() == 1 {
                Err(ParseHexError::OddLength)
            } else {
                match nibble(text[1]) {
                    None => Err(ParseHexError::InvalidHexDigit(text[1] as char)),
                    Some(low) => hex_decode(text.skip(2), acc.push((high * 16 + low) as u8)),
                }
            },
        }
    }
}

fn decode_nibble(b: u8) -> (r: Result<u8, ParseHexError>)
    ensures
        match r {
            Ok(v) => nibble(b) == Some(v) && v < 16,
            Err(e) => nibble(b) is None && e == ParseHexError::InvalidHexDigit(b as char),
        },
{
    if 97 <= b && b <= 102 {
        Ok(b - 97 + 10)
    } else if 65 <= b && b <= 70 {
        Ok(b - 65 + 10)
    } else if 48 <= b && b <= 57 {
        Ok(b - 48)
    } else {
        Err(ParseHexError::InvalidHexDigit(b as char))
    }
}

/// Reads bytes from pairs of hexadecimal digits, between which blanks may
/// stand.
pub fn parse_bytes_hex(s: &str) -> (r: Result<Vec<u8>, ParseHexError>)
    ensures
        match r {
            Ok(bytes) => hex_decode(s.spec_bytes(), Seq::<u8>::empty()) == Ok::<
                Seq<u8>,
                ParseHexError,
            >(bytes@),
            Err(e) => hex_decode(s.spec_bytes(), Seq::<u8>::empty()) == Err::<
                Seq<u8>,
                ParseHexError,
            >(e),
        },
{
    assert(s.spec_bytes().skip(0) =~= s.spec_bytes());
    parse_hex_bytes(s.as_bytes(), 0)
}

/// Reads bytes from pairs of hexadecimal digits in `text` from `from` on.
pub fn parse_hex_bytes(text: &[u8], from: usize) -> (r: Result<Vec<u8>, ParseHexError>)
    requires
        from <= text@.len(),
    ensures
        match r {
            Ok(bytes) => hex_decode(text@.skip(from as int), Seq::<u8>::empty()) == Ok::<
                Seq<u8>,
                ParseHexError,
            >(bytes@),
            Err(e) => hex_decode(text@.skip(from as int), Seq::<u8>::empty()) == Err::<
                Seq<u8>,
                ParseHexError,
            >(e),
        },
{
    let mut buf: Vec<u8> = Vec::new();
    let mut i: usize = from;
    let n = text.len();
    while i < n
        invariant
            from <= i <= text@.len(),
            n == text@.len(),
            hex_decode(text@.skip(from as int), Seq::<u8>::empty()) == hex_decode(
                text@.skip(i as int),
                buf@,
            ),
        decreases n - i,
    {
        let b = text[i];
        proof {
            assert(text@.skip(i as int)[0] == b);
            assert(text@.skip(i as int).drop_first() =~= text@.skip(i + 1));
        }
        if b == 32 || b == 10 || b == 9 || b == 13 {
            i = i + 1;
            continue ;
        }
        let high = match decode_nibble(b) {
            Ok(high) => high,
            Err(e) => {
                return Err(e);
            },
        };
        if i + 1 >= n {
            return Err(ParseHexError::OddLength);
        }
        proof {
            assert(text@.skip(i as int)[1] == text@[i + 1]);
            assert(text@.skip(i as int).skip(2) =~= text@.skip(i + 2));
        }
        let low = match decode_nibble(text[i + 1]) {
            Ok(low) => low,
            Err(e) => {
                return Err(e);
            },
        };
        buf.push(high * 16 + low);
        i = i + 2;
    }
    proof {
        assert(text@.skip(n as int) =~= Seq::<u8>::empty());
    }
    Ok(buf)
}

/// Why a text in the old way of writing bytes is not read.
#[derive(Debug, Clone, Copy, PartialEq, Eq)]
pub enum EscapeError {
    /// The text ends with a backslash.
    EndsWithEscape,
    /// A backslash is followed by something else than a backslash or three
    /// octal digits, the first no more than 3.
    InvalidEscape,
}

/// The bytes that `text` spells in the old way, behind the bytes `acc`:
/// every byte for itself, but two backslashes for one, and a backslash and
/// three octal digits for the byte with that number.
pub open spec fn escape_decode(text: Seq<u8>, acc: Seq<u8>) -> Result<Seq<u8>, EscapeError>
    decreases text.len(),
{
    if text.len() == 0 {
        Ok(acc)
    } else if text[0] != 92 {
        escape_decode(text.drop_first(), acc.push(text[0]))
    } else if text.len() == 1 {
        Err(EscapeError::EndsWithEscape)
    } else if text[1] == 92 {
        escape_decode(text.skip(2), acc.push(92u8))
    } else if text.len() >= 4 && 48 <= text[1] <= 51 && 48 <= text[2] <= 55 && 48 <= text[3]
        <= 55 {
        escape_decode(
            text.skip(4),
            acc.push(((text[1] - 48) * 64 + (text[2] - 48) * 8 + (text[3] - 48)) as u8),
        )
    } else {
        Err(EscapeError::InvalidEscape)
    }
}

/// What is said of a text in the old way of writing bytes that is not read.
pub open spec fn escape_error_text(e: EscapeError) -> Seq<char> {
    match e {
        EscapeError::EndsWithEscape => "ends with escape character"@,
        EscapeError::InvalidEscape => "invalid escape sequence"@,
    }
}

/// Reads bytes from `text` in the old way of writing them.
pub fn parse_escaped_bytes(text: &[u8]) -> (r: Result<Vec<u8>, EscapeError>)
    ensures
        match r {
            Ok(bytes) => escape_decode(text@, Seq::<u8>::empty()) == Ok::<Seq<u8>, EscapeError>(
                bytes@,
            ),
            Err(e) => escape_decode(text@, Seq::<u8>::empty()) == Err::<Seq<u8>, EscapeError>(e),
        },
{
    let mut out: Vec<u8> = Vec::new();
    let mut i: usize = 0;
    let n = text.len();
    proof {
        assert(text@.skip(0) =~= text@);
    }
    while i < n
        invariant
            i <= text@.len(),
            n == text@.len(),
            escape_decode(text@, Seq::<u8>::empty()) == escape_decode(text@.skip(i as int), out@),
        decreases n - i,
    {
        let b = text[i];
        proof {
            assert(text@.skip(i as int)[0] == b);
            assert(text@.skip(i as int).drop_first() =~= text@.skip(i + 1));
        }
        if b != 92 {
            out.push(b);
            i = i + 1;
            continue ;
        }
        if n - i == 1 {
            return Err(EscapeError::EndsWithEscape);
        }
        proof {
            assert(text@.skip(i as int)[1] == text@[i + 1]);
            assert(text@.skip(i as int).skip(2) =~= text@.skip(i + 2));
        }
        if text[i + 1] == 92 {
            out.push(92);
            i = i + 2;
            continue ;
        }
        if n - i < 4 {
            return Err(EscapeError::InvalidEscape);
        }
        proof {
            assert(text@.skip(i as int)[2] == text@[i + 2]);
            assert(text@.skip(i as int)[3] == text@[i + 3]);
            assert(text@.skip(i as int).skip(4) =~= text@.skip(i + 4));
        }
        let d2 = text[i + 1];
        let d1 = text[i + 2];
        let d0 = text[i + 3];
        if 48 <= d2 && d2 <= 51 && 48 <= d1 && d1 <= 55 && 48 <= d0 && d0 <= 55 {
            out.push((d2 - 48) * 64 + (d1 - 48) * 8 + (d0 - 48));
            i = i + 4;
        } else {
            return Err(EscapeError::InvalidEscape);
        }
    }
    proof {
        assert(text@.skip(n as int) =~= Seq::<u8>::empty());
    }
    Ok(out)
}

/// Reads bytes from `s` in the old way of writing them: every byte stands
/// for itself, but two backslashes stand for one, and a backslash with
/// three octal digits stands for the byte with that number.
pub fn parse_bytes_traditional(s: &str) -> (r: Result<Vec<u8>, ParseError>)
    ensures
        match r {
            Ok(bytes) => escape_decode(s.spec_bytes(), Seq::<u8>::empty()) == Ok::<
                Seq<u8>,
                EscapeError,
            >(bytes@),
            Err(e) => escape_decode(s.spec_bytes(), Seq::<u8>::empty()) matches Err(why) && e.kind
                == ParseErrorKind::InvalidInputSyntax && e.ty_name@ == "bytea"@ && e.input@
                == s@ && (e.details matches Some(d) && d@ == escape_error_text(why)),
        },
{
    match parse_escaped_bytes(s.as_bytes()) {
        Ok(bytes) => Ok(bytes),
        Err(EscapeError::EndsWithEscape) => Err(
            ParseError::invalid_input_syntax("bytea", s).with_details("ends with escape character"),
        ),
        Err(EscapeError::InvalidEscape) => Err(
            ParseError::invalid_input_syntax("bytea", s).with_details("invalid escape sequence"),
        ),
    }
}

/// What is said of a text that is not read as bytes in hexadecimal digits.
pub open spec fn hex_error_text(e: ParseHexError) -> Seq<char> {
    match e {
        ParseHexError::InvalidHexDigit(c) => "invalid hexadecimal digit: \""@ + escaped(c) + "\""@,
        ParseHexError::OddLength => "invalid hexadecimal data: odd number of digits"@,
    }
}

impl ParseHexError {
    /// What is wrong, in words.
    pub fn message(&self) -> (text: String)
        ensures
            text@ == hex_error_text(*self),
    {
        match self {
            ParseHexError::InvalidHexDigit(c) => {
                let mut text = "invalid hexadecimal digit: \"".to_owned();
                let digit = char_escape_default(*c);
                text.append(digit.as_str());
                text.append("\"");
                text
            },
            ParseHexError::OddLength => "invalid hexadecimal data: odd number of digits".to_owned(),
        }
    }
}

/// Whether `bytes` begin with a backslash and an `x`.
pub open spec fn hex_prefixed(bytes: Seq<u8>) -> bool {
    bytes.len() >= 2 && bytes[0] == 92 && bytes[1] == 120
}

/// Reads bytes from `s`: from hexadecimal digits where `s` begins with a
/// backslash and an `x`, and in the old way of writing bytes otherwise.
pub fn parse_bytes(s: &str) -> (r: Result<Vec<u8>, ParseError>)
    ensures
        hex_prefixed(s.spec_bytes()) ==> match r {
            Ok(bytes) => hex_decode(s.spec_bytes().skip(2), Seq::<u8>::empty()) == Ok::<
                Seq<u8>,
                ParseHexError,
            >(bytes@),
            Err(e) => hex_decode(s.spec_bytes().skip(2), Seq::<u8>::empty()) matches Err(why)
                && e.kind == ParseErrorKind::InvalidInputSyntax && e.ty_name@ == "bytea"@
                && e.input@ == s@ && (e.details matches Some(d) && d@ == hex_error_text(why)),
        },
        !hex_prefixed(s.spec_bytes()) ==> match r {
            Ok(bytes) => escape_decode(s.spec_bytes(), Seq::<u8>::empty()) == Ok::<
                Seq<u8>,
                EscapeError,
            >(bytes@),
            Err(e) => escape_decode(s.spec_bytes(), Seq::<u8>::empty()) matches Err(why) && e.kind
                == ParseErrorKind::InvalidInputSyntax && e.ty_name@ == "bytea"@ && e.input@
                == s@ && (e.details matches Some(d) && d@ == escape_error_text(why)),
        },
{
    let bytes = s.as_bytes();
    if bytes.len() >= 2 && bytes[0] == 92 && bytes[1] == 120 {
        match parse_hex_bytes(bytes, 2) {
            Ok(out) => Ok(out),
            Err(e) => {
                let details = e.message();
                Err(ParseError::invalid_input_syntax("bytea", s).with_details(details.as_str()))
            },
        }
    } else {
        parse_bytes_traditional(s)
    }
}

/// The digits behind the point with which `nanos` nanoseconds are written
/// in microseconds: rounded to the nearest, without the zeros at the end,
/// and nothing at all below half a microsecond. `digits` of them are still
/// to be written of the number `micros`.
pub open spec fn micros_digits(micros: int, digits: nat) -> Seq<u8>
    decreases digits,
{
    if digits == 0 {
        Seq::<u8>::empty()
    } else {
        micros_digits(micros / 10, (digits - 1) as nat).push((48 + micros % 10) as u8)
    }
}

/// The number of microseconds that `nanos` nanoseconds round to.
pub open spec fn rounded_micros(nanos: u32) -> int {
    nanos / 1000 + if nanos % 1000 >= 500 {
        1int
    } else {
        0int
    }
}

/// How many zeros `micros` ends with, up to `most`.
pub open spec fn trailing_zeros(micros: int, most: nat) -> nat
    decreases most,
{
    if most == 0 || micros % 10 != 0 {
        0
    } else {
        1 + trailing_zeros(micros / 10, (most - 1) as nat)
    }
}

/// `micros` without its last `n` digits.
pub open spec fn shifted(micros: int, n: nat) -> int
    decreases n,
{
    if n == 0 {
        micros
    } else {
        shifted(micros / 10, (n - 1) as nat)
    }
}

/// The fraction of a second that `nanos` nanoseconds are, as text: a point
/// and the digits of the microseconds, six of them with zeros in front and
/// a seventh where there is a whole second, without the zeros at the end;
/// or nothing below half a microsecond.
pub open spec fn nanos_text(nanos: u32) -> Seq<u8> {
    if nanos < 500 {
        Seq::<u8>::empty()
    } else {
        let micros = rounded_micros(nanos);
        let zeros = trailing_zeros(micros, 6);
        let whole: nat = if micros >= 1_000_000 {
            1
        } else {
            0
        };
        seq![46u8] + micros_digits(shifted(micros, zeros), (6 - zeros) as nat + whole)
    }
}

/// Writes the fraction of a second that `nanos` nanoseconds are, in
/// microseconds.
pub fn format_nanos_to_micros(buf: &mut Vec<u8>, nanos: u32)
    ensures
        final(buf)@ == old(buf)@ + nanos_text(nanos),
{
    let text = nanos_to_micros(nanos);
    write_bytes(buf, text.as_slice());
}

fn nanos_to_micros(nanos: u32) -> (text: Vec<u8>)
    ensures
        text@ == nanos_text(nanos),
{
    let mut text: Vec<u8> = Vec::new();
    if nanos >= 500 {
        let mut micros: u32 = nanos / 1000;
        let rem = nanos % 1000;
        if rem >= 500 {
            micros = micros + 1;
        }
        let ghost rounded = micros as int;
        let whole_second = micros >= 1_000_000;
        // Strip the zeros at the end.
        let mut width: usize = 6;
        while width > 0 && micros % 10 == 0
            invariant
                width <= 6,
                micros == shifted(rounded, (6 - width) as nat),
                trailing_zeros(rounded, 6) == (6 - width) + trailing_zeros(
                    micros as int,
                    width as nat,
                ),
            decreases width,
        {
            proof {
                lemma_shifted_step(rounded, (6 - width) as nat);
            }
            width = width - 1;
            micros = micros / 10;
        }
        // A whole second, as there is in a leap second, is one digit more.
        let count: usize = if whole_second {
            width + 1
        } else {
            width
        };
        // The digits, from the last to the first, and then turned round.
        let mut digits: Vec<u8> = Vec::new();
        let mut rest = micros;
        let mut k: usize = 0;
        proof {
            lemma_micros_digits_len(micros as int, count as nat);
            let all = micros_digits(micros as int, count as nat);
            assert(all.take(count as int) =~= all);
        }
        while k < count
            invariant
                k <= count <= 7,
                digits@.len() == k,
                forall|j: int|
                    0 <= j < k ==> #[trigger] digits@[j] == micros_digits(
                        micros as int,
                        count as nat,
                    )[count - 1 - j],
                micros_digits(rest as int, (count - k) as nat) == micros_digits(
                    micros as int,
                    count as nat,
                ).take(count - k),
            decreases count - k,
        {
            proof {
                let all = micros_digits(micros as int, count as nat);
                let here = micros_digits(rest as int, (count - k) as nat);
                lemma_micros_digits_len(micros as int, count as nat);
                lemma_micros_digits_len(rest as int, (count - k) as nat);
                assert(here.last() == (48 + rest % 10) as u8);
                assert(here.drop_last() == micros_digits((rest / 10) as int, (count - k - 1) as nat));
                assert(here.drop_last() =~= all.take(count - k - 1));
                assert(here[count - k - 1] == all[count - k - 1]);
            }
            digits.push(48 + (rest % 10) as u8);
            rest = rest / 10;
            k = k + 1;
        }
        text.push(46);
        let mut j: usize = count;
        proof {
            lemma_micros_digits_len(micros as int, count as nat);
        }
        while j > 0
            invariant
                j <= count,
                digits@.len() == count,
                micros_digits(micros as int, count as nat).len() == count,
                forall|i: int|
                    0 <= i < count ==> #[trigger] digits@[i] == micros_digits(
                        micros as int,
                        count as nat,
                    )[count - 1 - i],
                text@ == seq![46u8] + micros_digits(micros as int, count as nat).take(count - j),
            decreases j,
        {
            j = j - 1;
            text.push(digits[j]);
            proof {
                let all = micros_digits(micros as int, count as nat);
                assert(all.take(count - j) =~= all.take(count - j - 1).push(all[count - j - 1]));
            }
        }
        proof {
            let all = micros_digits(micros as int, count as nat);
            assert(all.take(count as int) =~= all);
            lemma_trailing_zeros_end(micros as int, width as nat);
        }
    }
    text
}

proof fn lemma_shifted_step(micros: int, n: nat)
    ensures
        shifted(micros, n + 1) == shifted(micros, n) / 10,
    decreases n,
{
    assert(shifted(micros, n + 1) == shifted(micros / 10, n));
    if n > 0 {
        lemma_shifted_step(micros / 10, (n - 1) as nat);
        assert(shifted(micros, n) == shifted(micros / 10, (n - 1) as nat));
    }
}

proof fn lemma_micros_digits_len(micros: int, digits: nat)
    ensures
        micros_digits(micros, digits).len() == digits,
    decreases digits,
{
    if digits > 0 {
        lemma_micros_digits_len(micros / 10, (digits - 1) as nat);
    }
}

proof fn lemma_trailing_zeros_end(micros: int, most: nat)
    requires
        most == 0 || micros % 10 != 0,
    ensures
        trailing_zeros(micros, most) == 0,
{
}

/// Writes the bytes `bytes` to the end of `buf`.
pub fn write_bytes(buf: &mut Vec<u8>, bytes: &[u8])
    ensures
        final(buf)@ == old(buf)@ + bytes@,
{
    let mut i: usize = 0;
    assert(buf@ =~= old(buf)@ + bytes@.take(0));
    while i < bytes.len()
        invariant
            i <= bytes.len(),
            buf@ == old(buf)@ + bytes@.take(i as int),
        decreases bytes.len() - i,
    {
        buf.push(bytes[i]);
        assert(buf@ =~= old(buf)@ + bytes@.take(i + 1));
        i = i + 1;
    }
    assert(bytes@.take(bytes@.len() as int) =~= bytes@);
}

/// Writes the text `s` to the end of `buf`.
pub fn write_str(buf: &mut Vec<u8>, s: &str)
    ensures
        final(buf)@ == old(buf)@ + s.spec_bytes(),
{
    write_bytes(buf, s.as_bytes());
}

/// Writes the word `NULL` to the end of `buf`.
pub fn write_null_word(buf: &mut Vec<u8>)
    ensures
        final(buf)@ == old(buf)@ + null_word(),
{
    buf.push(78);
    buf.push(85);
    buf.push(76);
    buf.push(76);
    assert(buf@ =~= old(buf)@ + null_word());
}

/// Marks a place in a range where no value is written.
pub struct RangeElementWriter<'a> {
    pub buf: &'a mut Vec<u8>,
}

impl<'a> RangeElementWriter<'a> {
    /// Marks the end of a range as unbounded, for which nothing is written.
    pub fn write_null(self) -> (nestable: Nestable)
        ensures
            nestable == Nestable::Yes,
            final(self.buf)@ == old(self.buf)@,
    {
        Nestable::Yes
    }

    /// The buffer into which a value that is there can be written.
    pub fn nonnull_buffer(self) -> (buf: &'a mut Vec<u8>)
        ensures
            buf@ == old(self.buf)@,
            final(self.buf)@ == final(buf)@,
    {
        self.buf
    }
}

/// Writes one element of a list.
pub struct ListElementWriter<'a> {
    pub buf: &'a mut Vec<u8>,
}

impl<'a> ListElementWriter<'a> {
    /// Writes the element that is no value: `NULL`.
    pub fn write_null(self) -> (nestable: Nestable)
        ensures
            nestable == Nestable::Yes,
            final(self.buf)@ == old(self.buf)@ + null_word(),
    {
        write_null_word(self.buf);
        Nestable::Yes
    }

    /// The buffer into which an element that is a value can be written.
    pub fn nonnull_buffer(self) -> (buf: &'a mut Vec<u8>)
        ensures
            buf@ == old(self.buf)@,
            final(self.buf)@ == final(buf)@,
    {
        self.buf
    }
}

/// Writes one value of a map.
pub struct MapValueWriter<'a> {
    pub buf: &'a mut Vec<u8>,
}

impl<'a> MapValueWriter<'a> {
    /// Writes the value that is no value: `NULL`.
    pub fn write_null(self) -> (nestable: Nestable)
        ensures
            nestable == Nestable::Yes,
            final(self.buf)@ == old(self.buf)@ + null_word(),
    {
        write_null_word(self.buf);
        Nestable::Yes
    }

    /// The buffer into which a value can be written.
    pub fn nonnull_buffer(self) -> (buf: &'a mut Vec<u8>)
        ensures
            buf@ == old(self.buf)@,
            final(self.buf)@ == final(buf)@,
    {
        self.buf
    }
}

/// Writes one element of a record.
pub struct RecordElementWriter<'a> {
    pub buf: &'a mut Vec<u8>,
}

impl<'a> RecordElementWriter<'a> {
    /// Marks the element as no value, for which nothing is written.
    pub fn write_null(self) -> (nestable: Nestable)
        ensures
            nestable == Nestable::Yes,
            final(self.buf)@ == old(self.buf)@,
    {
        Nestable::Yes
    }

    /// The buffer into which an element that is a value can be written.
    pub fn nonnull_buffer(self) -> (buf: &'a mut Vec<u8>)
        ensures
            buf@ == old(self.buf)@,
            final(self.buf)@ == final(buf)@,
    {
        self.buf
    }
}

/// An ASCII white space.
pub open spec fn ascii_space(b: u8) -> bool {
    b == 32 || b == 9 || b == 10 || b == 12 || b == 13
}

/// How the elements of one kind of collection are escaped.
pub trait ElementEscaper {
    /// Whether the text `elem` of an element must be quoted.
    spec fn must_escape(elem: Seq<u8>) -> bool;

    /// The character that is put before `c` inside quotes.
    spec fn escape_of(c: u8) -> u8;

    /// Whether the text `elem` of an element must be quoted.
    fn needs_escaping(elem: &[u8]) -> (b: bool)
        ensures
            b == Self::must_escape(elem@),
    ;

    /// The character that is put before `c` inside quotes.
    fn escape_char(c: u8) -> (e: u8)
        ensures
            e == Self::escape_of(c),
    ;
}

/// Whether some byte of `elem` is one of the marks `marks` or a white
/// space.
pub open spec fn has_mark(elem: Seq<u8>, marks: Seq<u8>) -> bool {
    exists|i: int| 0 <= i < elem.len() && (marks.contains(#[trigger] elem[i]) || ascii_space(elem[i]))
}

fn find_mark(elem: &[u8], marks: &[u8]) -> (b: bool)
    ensures
        b == has_mark(elem@, marks@),
{
    let mut i: usize = 0;
    while i < elem.len()
        invariant
            i <= elem.len(),
            forall|k: int|
                0 <= k < i ==> !(marks@.contains(#[trigger] elem@[k]) || ascii_space(elem@[k])),
        decreases elem.len() - i,
    {
        let c = elem[i];
        if c == 32 || c == 9 || c == 10 || c == 12 || c == 13 {
            assert(ascii_space(elem@[i as int]));
            return true;
        }
        let mut m: usize = 0;
        while m < marks.len()
            invariant
                m <= marks.len(),
                i < elem@.len(),
                c == elem@[i as int],
                forall|k: int| 0 <= k < m ==> marks@[k] != c,
            decreases marks.len() - m,
        {
            if marks[m] == c {
                assert(marks@[m as int] == elem@[i as int]);
                assert(marks@.contains(elem@[i as int]));
                return true;
            }
            m = m + 1;
        }
        assert(!marks@.contains(elem@[i as int]));
        i = i + 1;
    }
    false
}

/// The bytes of the word `NULL`.
pub open spec fn null_word() -> Seq<u8> {
    seq![78u8, 85u8, 76u8, 76u8]
}

fn is_null_word(elem: &[u8]) -> (b: bool)
    ensures
        b == (elem@ == null_word()),
{
    let b = elem.len() == 4 && elem[0] == 78 && elem[1] == 85 && elem[2] == 76 && elem[3] == 76;
    proof {
        if b {
            assert(elem@ =~= null_word());
        }
    }
    b
}

/// The escaping of the elements of lists and arrays.
pub struct ListElementEscaper {}

impl ElementEscaper for ListElementEscaper {
    open spec fn must_escape(elem: Seq<u8>) -> bool {
        elem.len() == 0 || elem == null_word() || has_mark(elem, seq![123u8, 125u8, 44u8, 34u8, 92u8])
    }

    open spec fn escape_of(c: u8) -> u8 {
        92u8
    }

    fn needs_escaping(elem: &[u8]) -> (b: bool) {
        let marks: [u8; 5] = [123, 125, 44, 34, 92];
        assert(marks@ =~= seq![123u8, 125u8, 44u8, 34u8, 92u8]);
        elem.len() == 0 || is_null_word(elem) || find_mark(elem, marks.as_slice())
    }

    fn escape_char(c: u8) -> (e: u8) {
        92
    }
}

/// The escaping of the keys and values of maps.
pub struct MapElementEscaper {}

impl ElementEscaper for MapElementEscaper {
    open spec fn must_escape(elem: Seq<u8>) -> bool {
        elem.len() == 0 || elem == null_word() || has_mark(
            elem,
            seq![123u8, 125u8, 44u8, 34u8, 61u8, 62u8, 92u8],
        )
    }

    open spec fn escape_of(c: u8) -> u8 {
        92u8
    }

    fn needs_escaping(elem: &[u8]) -> (b: bool) {
        let marks: [u8; 7] = [123, 125, 44, 34, 61, 62, 92];
        assert(marks@ =~= seq![123u8, 125u8, 44u8, 34u8, 61u8, 62u8, 92u8]);
        elem.len() == 0 || is_null_word(elem) || find_mark(elem, marks.as_slice())
    }

    fn escape_char(c: u8) -> (e: u8) {
        92
    }
}

/// The escaping of the elements of records.
pub struct RecordElementEscaper {}

impl ElementEscaper for RecordElementEscaper {
    open spec fn must_escape(elem: Seq<u8>) -> bool {
        elem.len() == 0 || has_mark(elem, seq![40u8, 41u8, 44u8, 34u8, 92u8])
    }

    open spec fn escape_of(c: u8) -> u8 {
        if c == 34 {
            34u8
        } else {
            92u8
        }
    }

    fn needs_escaping(elem: &[u8]) -> (b: bool) {
        let marks: [u8; 5] = [40, 41, 44, 34, 92];
        assert(marks@ =~= seq![40u8, 41u8, 44u8, 34u8, 92u8]);
        elem.len() == 0 || find_mark(elem, marks.as_slice())
    }

    fn escape_char(c: u8) -> (e: u8) {
        if c == 34 {
            34
        } else {
            92
        }
    }
}

/// The hexadecimal digit of `n`, in lower case.
pub open spec fn hex_digit(n: u8) -> u8 {
    if n < 10 {
        (48 + n) as u8
    } else {
        (87 + n) as u8
    }
}

/// `bytes` in hexadecimal digits, two to a byte, in lower case.
pub open spec fn hex_text(bytes: Seq<u8>) -> Seq<u8>
    decreases bytes.len(),
{
    if bytes.len() == 0 {
        Seq::<u8>::empty()
    } else {
        hex_text(bytes.drop_last()) + seq![
            hex_digit(bytes.last() / 16),
            hex_digit(bytes.last() % 16),
        ]
    }
}

/// `hex::encode`, as the bytes of its text: the bytes in hexadecimal
/// digits, two to a byte, in lower case.
#[verifier::external_body]
fn hex_encode(bytes: &[u8]) -> (text: Vec<u8>)
    ensures
        text@ == hex_text(bytes@),
{
    hex::encode(bytes).into_bytes()
}

/// Writes `bytes` in hexadecimal digits behind a backslash and an `x`.
pub fn format_bytes(buf: &mut Vec<u8>, bytes: &[u8]) -> (nestable: Nestable)
    ensures
        nestable == Nestable::MayNeedEscaping,
        final(buf)@ == old(buf)@ + seq![92u8, 120u8] + hex_text(bytes@),
{
    buf.push(92);
    buf.push(120);
    assert(buf@ =~= old(buf)@ + seq![92u8, 120u8]);
    let digits = hex_encode(bytes);
    write_bytes(buf, digits.as_slice());
    Nestable::MayNeedEscaping
}

/// What the reading of `text` as a universally unique identifier gives:
/// its sixteen bytes, or what is said of the text.
pub uninterp spec fn uuid_of_text(text: Seq<char>) -> Result<Seq<u8>, Seq<char>>;

/// `uuid::Uuid::parse_str`, with the bytes of the identifier taken by
/// `as_bytes` and the error written out by its `Display`.
#[verifier::external_body]
fn uuid_parse(text: &str) -> (r: Result<[u8; 16], String>)
    ensures
        match r {
            Ok(bytes) => uuid_of_text(text@) == Ok::<Seq<u8>, Seq<char>>(bytes@),
            Err(why) => uuid_of_text(text@) == Err::<Seq<u8>, Seq<char>>(why@),
        },
{
    match uuid::Uuid::parse_str(text) {
        Ok(id) => Ok(*id.as_bytes()),
        Err(e) => Err(e.to_string()),
    }
}

/// The identifier with the bytes `bytes` as it is written: in hexadecimal
/// digits, in groups of four, two, two, two and six bytes with hyphens
/// between them.
pub open spec fn uuid_text(bytes: Seq<u8>) -> Seq<u8> {
    hex_text(bytes.subrange(0, 4)) + seq![45u8] + hex_text(bytes.subrange(4, 6)) + seq![45u8]
        + hex_text(bytes.subrange(6, 8)) + seq![45u8] + hex_text(bytes.subrange(8, 10)) + seq![
        45u8,
    ] + hex_text(bytes.subrange(10, 16))
}

/// The `Display` of `uuid::Uuid`, as the bytes of its text, on the
/// identifier that `uuid::Uuid::from_bytes` makes of the bytes: the
/// hyphenated form in lower case.
#[verifier::external_body]
fn uuid_display(bytes: &[u8; 16]) -> (text: Vec<u8>)
    ensures
        text@ == uuid_text(bytes@),
{
    uuid::Uuid::from_bytes(*bytes).to_string().into_bytes()
}

/// The identifier that `read` is, or the error that `s` is none, with what
/// was said of it.
pub fn uuid_of_reading(read: Result<[u8; 16], String>, s: &str) -> (r: Result<Uuid, ParseError>)
    ensures
        match r {
            Ok(id) => read matches Ok(bytes) && id.bytes == bytes,
            Err(e) => read matches Err(why) && e.kind == ParseErrorKind::InvalidInputSyntax
                && e.ty_name@ == "uuid"@ && e.input@ == s@ && (e.details matches Some(d) && d@
                == why@),
        },
{
    match read {
        Ok(bytes) => Ok(Uuid { bytes }),
        Err(why) => Err(ParseError::invalid_input_syntax("uuid", s).with_details(why.as_str())),
    }
}

/// Reads a universally unique identifier from `s`, which may have white
/// space around it.
pub fn parse_uuid(s: &str) -> (r: Result<Uuid, ParseError>)
    ensures
        match r {
            Ok(id) => uuid_of_text(trimmed(s@)) == Ok::<Seq<u8>, Seq<char>>(id.bytes@),
            Err(e) => uuid_of_text(trimmed(s@)) matches Err(why) && e.kind
                == ParseErrorKind::InvalidInputSyntax && e.ty_name@ == "uuid"@ && e.input@ == s@
                && (e.details matches Some(d) && d@ == why),
        },
{
    uuid_of_reading(uuid_parse(str_trim(s)), s)
}

/// What the reading of `s` as a value of the type `ty_name` comes to,
/// where the reader of such values gave `read` for it: the value, or the
/// error that `s` is not written as one, with the reader's reason as its
/// details.
pub fn reading_of<T>(ty_name: &str, s: &str, read: Result<T, String>) -> (r: Result<T, ParseError>)
    ensures
        match read {
            Ok(value) => r == Ok::<T, ParseError>(value),
            Err(why) => r matches Err(e) && e.kind == ParseErrorKind::InvalidInputSyntax
                && e.ty_name@ == ty_name@ && e.input@ == s@ && (e.details matches Some(d) && d@
                == why@),
        },
{
    match read {
        Ok(value) => Ok(value),
        Err(why) => Err(ParseError::invalid_input_syntax(ty_name, s).with_details(why.as_str())),
    }
}

/// The date that `s` stands for, where the reader of dates and times gave
/// `read` for it: a date, `None` for a date that is out of range, or the
/// reason why `s` is no date.
pub fn parse_date(s: &str, read: Result<Option<Date>, String>) -> (r: Result<Date, ParseError>)
    ensures
        match read {
            Ok(Some(date)) => r == Ok::<Date, ParseError>(date),
            Ok(None) => r matches Err(e) && e.kind == ParseErrorKind::OutOfRange && e.ty_name@
                == "date"@ && e.input@ == s@ && e.details is None,
            Err(why) => r matches Err(e) && e.kind == ParseErrorKind::InvalidInputSyntax
                && e.ty_name@ == "date"@ && e.input@ == s@ && (e.details matches Some(d) && d@
                == why@),
        },
{
    match read {
        Ok(Some(date)) => Ok(date),
        Ok(None) => Err(ParseError::out_of_range("date", s)),
        Err(why) => Err(ParseError::invalid_input_syntax("date", s).with_details(why.as_str())),
    }
}

/// The span of time that `s` stands for, where the reader of dates and
/// times gave `read` for it, with seconds for a number without a unit.
pub fn parse_interval(s: &str, read: Result<Interval, String>) -> (r: Result<Interval, ParseError>)
    ensures
        match read {
            Ok(value) => r == Ok::<Interval, ParseError>(value),
            Err(why) => r matches Err(e) && e.kind == ParseErrorKind::InvalidInputSyntax
                && e.ty_name@ == "interval"@ && e.input@ == s@ && (e.details matches Some(d)
                && d@ == why@),
        },
{
    parse_interval_w_disambiguator(s, read)
}

/// The span of time that `s` stands for, where the reader of dates and
/// times gave `read` for it, with the unit for a number without one and the
/// precision of a leading time as the caller chose them.
pub fn parse_interval_w_disambiguator(s: &str, read: Result<Interval, String>) -> (r: Result<
    Interval,
    ParseError,
>)
    ensures
        match read {
            Ok(value) => r == Ok::<Interval, ParseError>(value),
            Err(why) => r matches Err(e) && e.kind == ParseErrorKind::InvalidInputSyntax
                && e.ty_name@ == "interval"@ && e.input@ == s@ && (e.details matches Some(d)
                && d@ == why@),
        },
{
    reading_of("interval", s, read)
}

/// The document that `s` stands for, where the reader of such documents
/// gave `read` for `s` without the white space around it.
pub fn parse_jsonb<T>(s: &str, read: Result<T, String>) -> (r: Result<T, ParseError>)
    ensures
        match read {
            Ok(value) => r == Ok::<T, ParseError>(value),
            Err(why) => r matches Err(e) && e.kind == ParseErrorKind::InvalidInputSyntax
                && e.ty_name@ == "jsonb"@ && e.input@ == s@ && (e.details matches Some(d) && d@
                == why@),
        },
{
    reading_of("jsonb", s, read)
}

/// The grant that `s` stands for, where the reader of grants by role
/// identifier gave `read` for `s` without the white space around it.
pub fn parse_mz_acl_item<T>(s: &str, read: Result<T, String>) -> (r: Result<T, ParseError>)
    ensures
        match read {
            Ok(value) => r == Ok::<T, ParseError>(value),
            Err(why) => r matches Err(e) && e.kind == ParseErrorKind::InvalidInputSyntax
                && e.ty_name@ == "mz_aclitem"@ && e.input@ == s@ && (e.details matches Some(d)
                && d@ == why@),
        },
{
    reading_of("mz_aclitem", s, read)
}

/// The grant that `s` stands for, where the reader of grants by object
/// identifier gave `read` for `s` without the white space around it.
pub fn parse_acl_item<T>(s: &str, read: Result<T, String>) -> (r: Result<T, ParseError>)
    ensures
        match read {
            Ok(value) => r == Ok::<T, ParseError>(value),
            Err(why) => r matches Err(e) && e.kind == ParseErrorKind::InvalidInputSyntax
                && e.ty_name@ == "aclitem"@ && e.input@ == s@ && (e.details matches Some(d) && d@
                == why@),
        },
{
    reading_of("aclitem", s, read)
}

/// Writes the identifier `uuid` in its hyphenated form.
pub fn format_uuid(buf: &mut Vec<u8>, uuid: &Uuid) -> (nestable: Nestable)
    ensures
        nestable == Nestable::Yes,
        final(buf)@ == old(buf)@ + uuid_text(uuid.bytes@),
{
    let text = uuid_display(&uuid.bytes);
    write_bytes(buf, text.as_slice());
    Nestable::Yes
}

/// Writes the text `s` as it is.
pub fn format_string(buf: &mut Vec<u8>, s: &str) -> (nestable: Nestable)
    ensures
        nestable == Nestable::MayNeedEscaping,
        final(buf)@ == old(buf)@ + s.spec_bytes(),
{
    write_str(buf, s);
    Nestable::MayNeedEscaping
}

/// Writes the truth value `b`: `t` or `f`.
pub fn format_bool(buf: &mut Vec<u8>, b: bool) -> (nestable: Nestable)
    ensures
        nestable == Nestable::Yes,
        final(buf)@ == old(buf)@ + seq![
            if b {
                116u8
            } else {
                102u8
            },
        ],
{
    buf.push(if b {
        116
    } else {
        102
    });
    assert(buf@ =~= old(buf)@ + seq![
        if b {
            116u8
        } else {
            102u8
        },
    ]);
    Nestable::Yes
}

/// The class of a floating-point number.
#[derive(Debug, Clone, Copy, PartialEq, Eq)]
pub enum FloatClass {
    Nan,
    Infinite,
    Zero,
    Subnormal,
    Normal,
}

/// The number of bytes that the sign at the start of `text` takes.
pub open spec fn sign_len(text: Seq<u8>) -> int {
    if text.len() > 0 && (text[0] == 43 || text[0] == 45) {
        1
    } else {
        0
    }
}

/// The number of zeros that stand one after the other in `text` from the
/// place `from` on.
pub open spec fn zeros_from(text: Seq<u8>, from: int) -> int
    decreases text.len() - from,
{
    if 0 <= from < text.len() && text[from] == 48 {
        1 + zeros_from(text, from + 1)
    } else {
        0
    }
}

/// The digits of a number in `text` end at the place `at`: the text ends
/// there, or an exponent begins.
pub open spec fn number_ends(text: Seq<u8>, at: int) -> bool {
    at == text.len() || (0 <= at < text.len() && (text[at] == 101 || text[at] == 69))
}

/// `text` spells zero: behind a sign, if there is one, zeros with or
/// without a point and more zeros behind them, or a point and zeros; and
/// then the end or an exponent.
pub open spec fn spells_zero(text: Seq<u8>) -> bool {
    let s = sign_len(text);
    let z = zeros_from(text, s);
    if z > 0 {
        number_ends(text, s + z) || (s + z < text.len() && text[s + z] == 46 && number_ends(
            text,
            s + z + 1 + zeros_from(text, s + z + 1),
        ))
    } else {
        s < text.len() && text[s] == 46 && zeros_from(text, s + 1) > 0 && number_ends(
            text,
            s + 1 + zeros_from(text, s + 1),
        )
    }
}

/// `text` spells an infinity: behind a sign, if there is one, it begins
/// with `inf` in any case of letters.
pub open spec fn spells_infinity(text: Seq<u8>) -> bool {
    let s = sign_len(text);
    text.len() >= s + 3 && (text[s] == 105 || text[s] == 73) && (text[s + 1] == 110 || text[s
        + 1] == 78) && (text[s + 2] == 102 || text[s + 2] == 70)
}

/// The number of zeros that stand one after the other in `text` from the
/// place `from` on.
pub fn count_zeros(text: &[u8], from: usize) -> (n: usize)
    requires
        from <= text@.len(),
    ensures
        n == zeros_from(text@, from as int),
        from + n <= text@.len(),
{
    let mut at = from;
    while at < text.len() && text[at] == 48
        invariant
            from <= at <= text@.len(),
            zeros_from(text@, from as int) == (at - from) + zeros_from(text@, at as int),
        decreases text@.len() - at,
    {
        at = at + 1;
    }
    at - from
}

fn ends_number(text: &[u8], at: usize) -> (b: bool)
    requires
        at <= text@.len(),
    ensures
        b == number_ends(text@, at as int),
{
    at == text.len() || text[at] == 101 || text[at] == 69
}

fn sign_of(text: &[u8]) -> (s: usize)
    ensures
        s == sign_len(text@),
        s <= text@.len(),
{
    if text.len() > 0 && (text[0] == 43 || text[0] == 45) {
        1
    } else {
        0
    }
}

/// Whether `text` spells zero.
pub fn is_zero_text(text: &[u8]) -> (b: bool)
    ensures
        b == spells_zero(text@),
{
    let len = text.len();
    let s = sign_of(text);
    let z = count_zeros(text, s);
    assert(s + z <= len);
    if z > 0 {
        if ends_number(text, s + z) {
            true
        } else if text[s + z] == 46 {
            let more = count_zeros(text, s + z + 1);
            ends_number(text, s + z + 1 + more)
        } else {
            false
        }
    } else if s < text.len() && text[s] == 46 {
        let more = count_zeros(text, s + 1);
        more > 0 && ends_number(text, s + 1 + more)
    } else {
        false
    }
}

/// Whether `text` spells an infinity.
pub fn is_infinity_text(text: &[u8]) -> (b: bool)
    ensures
        b == spells_infinity(text@),
{
    let s = sign_of(text);
    text.len() - s >= 3 && (text[s] == 105 || text[s] == 73) && (text[s + 1] == 110 || text[s + 1]
        == 78) && (text[s + 2] == 102 || text[s + 2] == 70)
}

/// Judges a floating-point number of the class `class` that was read from
/// `text`: an infinity that `text` does not spell came of a number too
/// great, and a zero that `text` does not spell of a number too small, and
/// both are out of range.
pub fn judge_float(class: FloatClass, text: &[u8]) -> (r: Result<(), ParseErrorKind>)
    ensures
        r == if (class is Infinite && !spells_infinity(text@)) || (class is Zero && !spells_zero(
            text@,
        )) {
            Err::<(), ParseErrorKind>(ParseErrorKind::OutOfRange)
        } else {
            Ok::<(), ParseErrorKind>(())
        },
{
    match class {
        FloatClass::Infinite => if is_infinity_text(text) {
            Ok(())
        } else {
            Err(ParseErrorKind::OutOfRange)
        },
        FloatClass::Zero => if is_zero_text(text) {
            Ok(())
        } else {
            Err(ParseErrorKind::OutOfRange)
        },
        _ => Ok(()),
    }
}

/// `text` without a point and a zero at its end.
pub open spec fn without_point_zero(text: Seq<u8>) -> Seq<u8> {
    if text.len() >= 2 && text[text.len() - 2] == 46 && text[text.len() - 1] == 48 {
        text.take(text.len() - 2)
    } else {
        text
    }
}

/// `text` with a plus sign behind every `e` that no minus sign follows.
pub open spec fn with_exponent_signs(text: Seq<u8>) -> Seq<u8>
    decreases text.len(),
{
    if text.len() == 0 {
        Seq::<u8>::empty()
    } else if text[0] == 101 && !(text.len() > 1 && text[1] == 45) {
        seq![101u8, 43u8] + with_exponent_signs(text.drop_first())
    } else {
        seq![text[0]] + with_exponent_signs(text.drop_first())
    }
}

/// How a floating-point number is written: the infinities and what is no
/// number by their names, the negative zero with its sign, and every other
/// number as its shortest text `finite` says, but without a point and a
/// zero at the end and with a sign before every exponent.
pub open spec fn float_text(class: FloatClass, negative: bool, finite: Seq<u8>) -> Seq<u8> {
    match class {
        FloatClass::Infinite => if negative {
            seq![45u8, 73u8, 110u8, 102u8, 105u8, 110u8, 105u8, 116u8, 121u8]
        } else {
            seq![73u8, 110u8, 102u8, 105u8, 110u8, 105u8, 116u8, 121u8]
        },
        FloatClass::Nan => seq![78u8, 97u8, 78u8],
        FloatClass::Zero => if negative {
            seq![45u8, 48u8]
        } else {
            with_exponent_signs(without_point_zero(finite))
        },
        _ => with_exponent_signs(without_point_zero(finite)),
    }
}

fn write_finite(finite: &[u8]) -> (out: Vec<u8>)
    ensures
        out@ == with_exponent_signs(without_point_zero(finite@)),
{
    let n = finite.len();
    let end = if n >= 2 && finite[n - 2] == 46 && finite[n - 1] == 48 {
        n - 2
    } else {
        n
    };
    let ghost text = without_point_zero(finite@);
    assert(text =~= finite@.take(end as int));
    let mut out: Vec<u8> = Vec::new();
    let mut i: usize = 0;
    proof {
        assert(text.skip(0) =~= text);
    }
    while i < end
        invariant
            i <= end <= finite@.len(),
            text == finite@.take(end as int),
            out@ + with_exponent_signs(text.skip(i as int)) == with_exponent_signs(text),
        decreases end - i,
    {
        let ghost rest = text.skip(i as int);
        let ghost before = out@;
        proof {
            assert(rest.drop_first() =~= text.skip(i + 1));
            assert(rest[0] == finite@[i as int]);
            if i + 1 < end {
                assert(rest[1] == finite@[i + 1]);
            }
        }
        let c = finite[i];
        out.push(c);
        if c == 101 && !(i + 1 < end && finite[i + 1] == 45) {
            out.push(43);
            assert(out@ + with_exponent_signs(text.skip(i + 1)) =~= before + (seq![101u8, 43u8]
                + with_exponent_signs(rest.drop_first())));
        } else {
            assert(out@ + with_exponent_signs(text.skip(i + 1)) =~= before + (seq![rest[0]]
                + with_exponent_signs(rest.drop_first())));
        }
        i = i + 1;
    }
    proof {
        assert(text.skip(end as int) =~= Seq::<u8>::empty());
        assert(out@ + Seq::<u8>::empty() =~= out@);
    }
    out
}

/// The text of a floating-point number of the class `class`, with the sign
/// bit `negative`, whose shortest text is `finite` where it is finite.
pub fn format_float_text(class: FloatClass, negative: bool, finite: &[u8]) -> (out: Vec<u8>)
    ensures
        out@ == float_text(class, negative, finite@),
{
    match class {
        FloatClass::Infinite => {
            let mut out: Vec<u8> = Vec::new();
            if negative {
                out.push(45);
            }
            out.push(73);
            out.push(110);
            out.push(102);
            out.push(105);
            out.push(110);
            out.push(105);
            out.push(116);
            out.push(121);
            assert(out@ =~= float_text(class, negative, finite@));
            out
        },
        FloatClass::Nan => {
            let mut out: Vec<u8> = Vec::new();
            out.push(78);
            out.push(97);
            out.push(78);
            assert(out@ =~= float_text(class, negative, finite@));
            out
        },
        FloatClass::Zero => {
            if negative {
                let mut out: Vec<u8> = Vec::new();
                out.push(45);
                out.push(48);
                assert(out@ =~= float_text(class, negative, finite@));
                out
            } else {
                write_finite(finite)
            }
        },
        _ => write_finite(finite),
    }
}


} // verus!
