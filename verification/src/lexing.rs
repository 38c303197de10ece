//! Taking the text of a nested value apart into the texts of its elements.
//!
//! An element stands between quotes, or within braces where it is a nested
//! value itself, or by itself. Within quotes and by itself a backslash
//! takes the character behind it for what it is. An element by itself ends
//! before a separator; the blanks at its end do not belong to it, and the
//! word `NULL` without an escape in it stands for no value.
//!
//! The texts are bytes in UTF-8. Every character that means something here
//! is one byte, and no byte of a longer character is taken for one of them.

use crate::strconv::{ascii_space, write_bytes};
use vstd::prelude::*;
use vstd::slice::slice_subrange;

verus! {

/// Why the text of an element was not read.
#[derive(Debug, Clone, Copy, PartialEq, Eq, Structural)]
pub enum LexError {
    /// The text ended within quotes.
    UnterminatedQuoted,
    /// The text ended within braces.
    UnterminatedEmbedded,
    /// The text ended within an element, or behind a backslash.
    UnterminatedElement,
    /// A separator stands where an element must begin.
    MissingElement,
    /// The character at `at` must have a backslash before it.
    MustEscape { at: usize },
}

/// In what kind of value the elements stand, by which the characters
/// differ that mean something.
#[derive(Debug, Clone, Copy, PartialEq, Eq, Structural)]
pub enum Nesting {
    /// A list or an array.
    List,
    /// A map.
    Dict,
}

/// `c` means something in a value of the kind `kind`, so that it cannot
/// stand in an element by itself.
pub open spec fn special(kind: Nesting, c: u8) -> bool {
    c == 123 || c == 125 || c == 44 || c == 92 || c == 34 || (kind is Dict && (c == 61 || c == 62))
}

/// `c` ends an element that stands by itself in a value of the kind
/// `kind`.
pub open spec fn ends_element(kind: Nesting, c: u8) -> bool {
    c == 44 || c == 125 || (kind is Dict && c == 61)
}

/// Whether `c` means something in a value of the kind `kind`.
pub fn is_special(kind: Nesting, c: u8) -> (b: bool)
    ensures
        b == special(kind, c),
{
    c == 123 || c == 125 || c == 44 || c == 92 || c == 34 || (match kind {
        Nesting::Dict => c == 61 || c == 62,
        Nesting::List => false,
    })
}

/// Whether `c` ends an element that stands by itself.
pub fn is_end_of_literal(kind: Nesting, c: u8) -> (b: bool)
    ensures
        b == ends_element(kind, c),
{
    c == 44 || c == 125 || (match kind {
        Nesting::Dict => c == 61,
        Nesting::List => false,
    })
}

/// Whether `c` is a blank.
pub fn is_space(c: u8) -> (b: bool)
    ensures
        b == ascii_space(c),
{
    c == 32 || c == 9 || c == 10 || c == 12 || c == 13
}

/// The place of the first byte of `text` from `pos` on that is no blank.
pub open spec fn skip_space(text: Seq<u8>, pos: int) -> int
    decreases text.len() - pos,
{
    if 0 <= pos < text.len() && ascii_space(text[pos]) {
        skip_space(text, pos + 1)
    } else {
        pos
    }
}

/// The place of the first byte of `text` from `pos` on that is no blank.
pub fn skip_whitespace(text: &[u8], pos: usize) -> (next: usize)
    requires
        pos <= text@.len(),
    ensures
        next == skip_space(text@, pos as int),
        pos <= next <= text@.len(),
{
    let mut at = pos;
    while at < text.len() && is_space(text[at])
        invariant
            pos <= at <= text@.len(),
            skip_space(text@, at as int) == skip_space(text@, pos as int),
        decreases text@.len() - at,
    {
        at = at + 1;
    }
    at
}

/// The place behind the character of `text` that begins at `at`: behind
/// the bytes that follow there and belong to no other character.
pub open spec fn char_end(text: Seq<u8>, at: int) -> int
    decreases text.len() - at,
{
    if 0 <= at + 1 < text.len() && 128 <= text[at + 1] < 192 {
        char_end(text, at + 1)
    } else {
        at + 1
    }
}

/// The bytes of the character of `text` that begins at `at`.
pub open spec fn char_bytes(text: Seq<u8>, at: int) -> Seq<u8> {
    text.subrange(at, char_end(text, at))
}

/// The bytes of the character of `text` that begins at `at`.
pub fn char_at(text: &[u8], at: usize) -> (c: &[u8])
    requires
        at < text@.len(),
    ensures
        c@ == char_bytes(text@, at as int),
{
    let n = text.len();
    let mut end = at;
    while end + 1 < n && 128 <= text[end + 1] && text[end + 1] < 192
        invariant
            at <= end < n,
            n == text@.len(),
            char_end(text@, end as int) == char_end(text@, at as int),
        decreases text@.len() - end,
    {
        end = end + 1;
    }
    slice_subrange(text, at, end + 1)
}

/// The element within quotes that goes on at `i` with `acc` read of it:
/// its text without the quotes and the backslashes, and the place behind
/// the closing quote.
pub open spec fn quoted_from(text: Seq<u8>, i: int, acc: Seq<u8>) -> Result<
    (Seq<u8>, int),
    LexError,
>
    decreases text.len() - i,
{
    if i < 0 || i >= text.len() {
        Err(LexError::UnterminatedQuoted)
    } else if text[i] == 92 {
        if i + 1 >= text.len() {
            Err(LexError::UnterminatedQuoted)
        } else {
            quoted_from(text, i + 2, acc.push(text[i + 1]))
        }
    } else if text[i] == 34 {
        Ok((acc, i + 1))
    } else {
        quoted_from(text, i + 1, acc.push(text[i]))
    }
}

/// Reads the element within quotes that begins with the quote at `pos`.
pub fn lex_quoted_element(text: &[u8], pos: usize) -> (r: Result<(Vec<u8>, usize), LexError>)
    requires
        pos < text@.len(),
        text@[pos as int] == 34,
    ensures
        match r {
            Ok((elem, next)) => quoted_from(text@, pos + 1, Seq::<u8>::empty()) == Ok::<
                (Seq<u8>, int),
                LexError,
            >((elem@, next as int)) && pos < next <= text@.len(),
            Err(e) => quoted_from(text@, pos + 1, Seq::<u8>::empty()) == Err::<
                (Seq<u8>, int),
                LexError,
            >(e),
        },
{
    let mut acc: Vec<u8> = Vec::new();
    let n = text.len();
    let mut i = pos + 1;
    loop
        invariant
            pos < i <= n,
            n == text@.len(),
            quoted_from(text@, i as int, acc@) == quoted_from(
                text@,
                pos + 1,
                Seq::<u8>::empty(),
            ),
        decreases n - i,
    {
        if i >= n {
            return Err(LexError::UnterminatedQuoted);
        }
        let c = text[i];
        if c == 92 {
            if i + 1 >= n {
                return Err(LexError::UnterminatedQuoted);
            }
            acc.push(text[i + 1]);
            i = i + 2;
        } else if c == 34 {
            return Ok((acc, i + 1));
        } else {
            acc.push(c);
            i = i + 1;
        }
    }
}

/// The place behind the brace that closes the nested value in which the
/// place `i` lies `depth` braces deep, within quotes or not.
pub open spec fn embedded_end(text: Seq<u8>, i: int, depth: nat, in_quotes: bool) -> Option<int>
    decreases text.len() - i,
{
    if depth == 0 {
        Some(i)
    } else if i < 0 || i >= text.len() {
        None
    } else if text[i] == 92 {
        // What follows a backslash is passed over.
        embedded_end(
            text,
            if i + 1 < text.len() {
                i + 2
            } else {
                i + 1
            },
            depth,
            in_quotes,
        )
    } else if text[i] == 34 {
        embedded_end(text, i + 1, depth, !in_quotes)
    } else if text[i] == 123 && !in_quotes {
        embedded_end(text, i + 1, depth + 1, in_quotes)
    } else if text[i] == 125 && !in_quotes {
        embedded_end(text, i + 1, (depth - 1) as nat, in_quotes)
    } else {
        embedded_end(text, i + 1, depth, in_quotes)
    }
}

/// Reads the nested value that begins with the brace at `pos`, as it
/// stands, and gives the place behind it.
pub fn lex_embedded_element(text: &[u8], pos: usize) -> (r: Result<usize, LexError>)
    requires
        pos < text@.len(),
        text@[pos as int] == 123,
    ensures
        match r {
            Ok(next) => embedded_end(text@, pos + 1, 1, false) == Some(next as int) && pos < next
                <= text@.len(),
            Err(e) => embedded_end(text@, pos + 1, 1, false) is None && e
                == LexError::UnterminatedEmbedded,
        },
{
    let n = text.len();
    let mut i = pos + 1;
    let mut depth: usize = 1;
    let mut in_quotes = false;
    while depth > 0
        invariant
            pos < i <= n,
            n == text@.len(),
            depth <= i - pos,
            embedded_end(text@, i as int, depth as nat, in_quotes) == embedded_end(
                text@,
                pos + 1,
                1,
                false,
            ),
        decreases n - i,
    {
        if i >= n {
            return Err(LexError::UnterminatedEmbedded);
        }
        let c = text[i];
        if c == 92 {
            i = if i + 1 < n {
                i + 2
            } else {
                i + 1
            };
        } else {
            if c == 34 {
                in_quotes = !in_quotes;
            } else if c == 123 && !in_quotes {
                depth = depth + 1;
            } else if c == 125 && !in_quotes {
                depth = depth - 1;
            }
            i = i + 1;
        }
    }
    Ok(i)
}

/// The place of the first byte of `text` from `i` on that is a blank or
/// means something in a value of the kind `kind`.
pub open spec fn plain_end(kind: Nesting, text: Seq<u8>, i: int) -> int
    decreases text.len() - i,
{
    if 0 <= i < text.len() && !special(kind, text[i]) && !ascii_space(text[i]) {
        plain_end(kind, text, i + 1)
    } else {
        i
    }
}

/// `s` is the word `NULL`, in any case of letters.
pub open spec fn null_text(s: Seq<u8>) -> bool {
    s.len() == 4 && (s[0] == 78 || s[0] == 110) && (s[1] == 85 || s[1] == 117) && (s[2] == 76
        || s[2] == 108) && (s[3] == 76 || s[3] == 108)
}

/// Whether `s` is the word `NULL`, in any case of letters.
pub fn is_null_text(s: &[u8]) -> (b: bool)
    ensures
        b == null_text(s@),
{
    s.len() == 4 && (s[0] == 78 || s[0] == 110) && (s[1] == 85 || s[1] == 117) && (s[2] == 76
        || s[2] == 108) && (s[3] == 76 || s[3] == 108)
}

/// The element by itself that goes on at `i`, with `acc` read of it, of
/// which the first `kept` bytes stay when it ends here, and with `escaped`
/// saying whether a backslash was met: its text without the backslashes and
/// without the blanks at its end, whether a backslash was met, and the place
/// of the separator that ends it.
pub open spec fn unquoted_from(
    kind: Nesting,
    text: Seq<u8>,
    i: int,
    acc: Seq<u8>,
    kept: int,
    escaped: bool,
) -> Result<(Seq<u8>, bool, int), LexError>
    decreases text.len() - i,
{
    if i < 0 || i >= text.len() {
        Err(LexError::UnterminatedElement)
    } else if text[i] == 92 {
        if i + 1 >= text.len() {
            Err(LexError::UnterminatedElement)
        } else {
            unquoted_from(kind, text, i + 2, acc.push(text[i + 1]), (acc.len() + 1) as int, true)
        }
    } else if ends_element(kind, text[i]) {
        if acc.len() == 0 {
            Err(LexError::MissingElement)
        } else {
            Ok((acc.take(kept), escaped, i))
        }
    } else if special(kind, text[i]) {
        Err(LexError::MustEscape { at: i as usize })
    } else {
        unquoted_from(
            kind,
            text,
            i + 1,
            acc.push(text[i]),
            if ascii_space(text[i]) {
                kept
            } else {
                (acc.len() + 1) as int
            },
            escaped,
        )
    }
}

/// The element by itself that begins at `pos`: its text, or none where it
/// is the word `NULL` without a backslash, and the place of the separator
/// that ends it.
pub open spec fn unquoted_at(kind: Nesting, text: Seq<u8>, pos: int) -> Result<
    (Option<Seq<u8>>, int),
    LexError,
> {
    let plain = plain_end(kind, text, pos);
    let s = text.subrange(pos, plain);
    if plain < text.len() && (text[plain] == 44 || text[plain] == 125) && s.len() > 0 {
        Ok(
            (
                if null_text(s) {
                    None
                } else {
                    Some(s)
                },
                plain,
            ),
        )
    } else {
        match unquoted_from(kind, text, plain, s, s.len() as int, false) {
            Err(e) => Err(e),
            Ok((elem, escaped, next)) => Ok(
                (
                    if null_text(elem) && !escaped {
                        None
                    } else {
                        Some(elem)
                    },
                    next,
                ),
            ),
        }
    }
}

/// An element by itself that is read takes up at least one byte.
pub proof fn lemma_unquoted_from_advances(
    kind: Nesting,
    text: Seq<u8>,
    i: int,
    acc: Seq<u8>,
    kept: int,
    escaped: bool,
)
    requires
        0 <= i,
    ensures
        unquoted_from(kind, text, i, acc, kept, escaped) matches Ok((_, _, next)) ==> i <= next
            < text.len() && (acc.len() == 0 ==> i < next),
    decreases text.len() - i,
{
    if i < text.len() {
        if text[i] == 92 {
            if i + 1 < text.len() {
                lemma_unquoted_from_advances(
                    kind,
                    text,
                    i + 2,
                    acc.push(text[i + 1]),
                    (acc.len() + 1) as int,
                    true,
                );
            }
        } else if !ends_element(kind, text[i]) && !special(kind, text[i]) {
            lemma_unquoted_from_advances(
                kind,
                text,
                i + 1,
                acc.push(text[i]),
                if ascii_space(text[i]) {
                    kept
                } else {
                    (acc.len() + 1) as int
                },
                escaped,
            );
        }
    }
}

/// The bytes of an element that stand by themselves end within the text.
pub proof fn lemma_plain_end(kind: Nesting, text: Seq<u8>, i: int)
    requires
        0 <= i <= text.len(),
    ensures
        i <= plain_end(kind, text, i) <= text.len(),
    decreases text.len() - i,
{
    if i < text.len() && !special(kind, text[i]) && !ascii_space(text[i]) {
        lemma_plain_end(kind, text, i + 1);
    }
}

/// Reads the element by itself that begins at `pos`, where no blank
/// stands.
pub fn lex_unquoted_element(kind: Nesting, text: &[u8], pos: usize) -> (r: Result<
    (Option<Vec<u8>>, usize),
    LexError,
>)
    requires
        pos < text@.len(),
        !ascii_space(text@[pos as int]),
    ensures
        match r {
            Ok((elem, next)) => unquoted_at(kind, text@, pos as int) matches Ok((e, n)) && n == next
                && pos <= next < text@.len() && match elem {
                Some(bytes) => e == Some(bytes@),
                None => e is None,
            },
            Err(e) => unquoted_at(kind, text@, pos as int) == Err::<
                (Option<Seq<u8>>, int),
                LexError,
            >(e),
        },
{
    let n = text.len();
    let mut plain = pos;
    while plain < n && !is_special(kind, text[plain]) && !is_space(text[plain])
        invariant
            pos <= plain <= n,
            n == text@.len(),
            plain_end(kind, text@, plain as int) == plain_end(kind, text@, pos as int),
        decreases n - plain,
    {
        plain = plain + 1;
    }
    let head = slice_subrange(text, pos, plain);
    if plain < n && (text[plain] == 44 || text[plain] == 125) && plain > pos {
        let elem = if is_null_text(head) {
            None
        } else {
            let mut copy: Vec<u8> = Vec::new();
            write_bytes(&mut copy, head);
            assert(copy@ =~= head@);
            Some(copy)
        };
        return Ok((elem, plain));
    }
    let mut acc: Vec<u8> = Vec::new();
    write_bytes(&mut acc, head);
    assert(acc@ =~= head@);
    let mut kept: usize = acc.len();
    let mut escaped = false;
    let mut i = plain;
    let ghost start = acc@;
    loop
        invariant
            pos <= plain <= i <= n,
            n == text@.len(),
            plain == plain_end(kind, text@, pos as int),
            start == text@.subrange(pos as int, plain as int),
            !(plain < n && (text@[plain as int] == 44 || text@[plain as int] == 125)
                && start.len() > 0),
            kept <= acc@.len(),
            acc@.len() <= i - pos,
            unquoted_from(kind, text@, i as int, acc@, kept as int, escaped) == unquoted_from(
                kind,
                text@,
                plain as int,
                start,
                start.len() as int,
                false,
            ),
        decreases n - i,
    {
        if i >= n {
            return Err(LexError::UnterminatedElement);
        }
        let c = text[i];
        if c == 92 {
            if i + 1 >= n {
                return Err(LexError::UnterminatedElement);
            }
            acc.push(text[i + 1]);
            kept = acc.len();
            escaped = true;
            i = i + 2;
        } else if is_end_of_literal(kind, c) {
            if acc.len() == 0 {
                return Err(LexError::MissingElement);
            }
            let ghost whole = acc@;
            acc.truncate(kept);
            assert(acc@ =~= whole.take(kept as int));
            let is_null = is_null_text(acc.as_slice()) && !escaped;
            return Ok(
                (
                    if is_null {
                        None
                    } else {
                        Some(acc)
                    },
                    i,
                ),
            );
        } else if is_special(kind, c) {
            return Err(LexError::MustEscape { at: i });
        } else {
            acc.push(c);
            if !is_space(c) {
                kept = acc.len();
            }
            i = i + 1;
        }
    }
}

} // verus!
