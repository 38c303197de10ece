//! Reading the texts of lists, maps, ranges and arrays.
//!
//! The text of a nested value is read one element at a time: what is read
//! is the text of the element, and what that text means is for the reader
//! of the elements to say. So a fault in an element is met before a fault
//! in the text behind it.

use crate::lexing::{
    char_at, char_bytes, embedded_end, lex_embedded_element, lex_quoted_element,
    lex_unquoted_element, quoted_from, skip_space, skip_whitespace, unquoted_at, LexError,
    Nesting,
};
use crate::strconv::{ascii_space, write_bytes, write_str};
use vstd::prelude::*;
use vstd::slice::slice_subrange;
use vstd::string::StringSliceAdditionalSpecFns;

verus! {

/// Why the text of a nested value was not read.
#[derive(Debug, Clone, Copy, PartialEq, Eq, Structural)]
pub enum NestedError {
    /// An element was not read.
    Lex(LexError),
    /// The text does not begin with a brace; `found` says whether it
    /// begins at all.
    ExpectedOpen { found: bool },
    /// In a list, the character at `at` stands where a comma or the closing
    /// brace must stand.
    ExpectedSeparator { at: usize },
    /// In a map, the character at `at` stands where a comma or the closing
    /// brace must stand.
    ExpectedSeparatorOrEnd { at: usize },
    /// The text ended where more must follow.
    UnexpectedEnd,
    /// An element of a list begins with a brace, and the elements are no
    /// lists.
    UnescapedBrace,
    /// A value of a map begins with a brace, and the values are no maps.
    UnescapedValueBrace,
    /// The character at `at` stands behind the closing brace.
    Trailing { at: usize },
    /// A key of a map is the word `NULL`.
    ExpectedKey,
    /// No arrow stands behind a key of a map.
    ExpectedArrow,
    /// Something stands behind the word `empty` of a range.
    JunkAfterEmpty,
    /// A range does not begin or end with a bracket or a parenthesis.
    MissingBracket,
    /// A range ended where one of its ends must stand.
    RangeEnded,
    /// No comma stands behind the lower end of a range.
    MissingComma,
    /// Something stands behind the closing bracket of a range.
    JunkAfterBracket,
}

/// What is said of a text that was not read, the text being `text`.
pub open spec fn nested_error_text(e: NestedError, text: Seq<u8>) -> Seq<u8> {
    match e {
        NestedError::Lex(LexError::UnterminatedQuoted) => "unterminated quoted string".spec_bytes(),
        NestedError::Lex(LexError::UnterminatedEmbedded) =>
            "unterminated embedded element".spec_bytes(),
        NestedError::Lex(LexError::UnterminatedElement) => "unterminated element".spec_bytes(),
        NestedError::Lex(LexError::MissingElement) =>
            "malformed literal; missing element".spec_bytes(),
        NestedError::Lex(LexError::MustEscape { at }) =>
            "malformed literal; must escape special character '".spec_bytes() + char_bytes(
                text,
                at as int,
            ) + "'".spec_bytes(),
        NestedError::ExpectedOpen { found } => "expected '{', found ".spec_bytes() + if found {
            char_bytes(text, 0)
        } else {
            "empty string".spec_bytes()
        },
        NestedError::ExpectedSeparator { at } => "expected ',' or '}', got '".spec_bytes()
            + char_bytes(text, at as int) + "'".spec_bytes(),
        NestedError::ExpectedSeparatorOrEnd { at } =>
            "expected ',' or end of input, got '".spec_bytes() + char_bytes(text, at as int)
                + "'".spec_bytes(),
        NestedError::UnexpectedEnd => "unexpected end of input".spec_bytes(),
        NestedError::UnescapedBrace =>
            "unescaped '{' at beginning of element; perhaps you want a nested list, e.g. '{a}'::text list list".spec_bytes(),
        NestedError::UnescapedValueBrace =>
            "unescaped '{' at beginning of value; perhaps you want a nested map, e.g. '{a=>{a=>1}}'::map[text=>map[text=>int]]".spec_bytes(),
        NestedError::Trailing { at } => "malformed array literal; contains '".spec_bytes()
            + char_bytes(text, at as int) + "' after terminal '}'".spec_bytes(),
        NestedError::ExpectedKey => "expected key".spec_bytes(),
        NestedError::ExpectedArrow => "expected =>".spec_bytes(),
        NestedError::JunkAfterEmpty => "Junk after \"empty\" key word.".spec_bytes(),
        NestedError::MissingBracket => "Missing left parenthesis or bracket.".spec_bytes(),
        NestedError::RangeEnded => "Unexpected end of input.".spec_bytes(),
        NestedError::MissingComma => "Missing comma after lower bound.".spec_bytes(),
        NestedError::JunkAfterBracket => "Junk after right parenthesis or bracket.".spec_bytes(),
    }
}

/// `e` names only places within `text`.
pub open spec fn error_within(e: NestedError, text: Seq<u8>) -> bool {
    match e {
        NestedError::Lex(LexError::MustEscape { at }) => at < text.len(),
        NestedError::ExpectedOpen { found } => found ==> text.len() > 0,
        NestedError::ExpectedSeparator { at } => at < text.len(),
        NestedError::ExpectedSeparatorOrEnd { at } => at < text.len(),
        NestedError::Trailing { at } => at < text.len(),
        _ => true,
    }
}

fn write_around(out: &mut Vec<u8>, before: &str, text: &[u8], at: usize, after: &str)
    requires
        at < text@.len(),
    ensures
        final(out)@ == old(out)@ + before.spec_bytes() + char_bytes(text@, at as int)
            + after.spec_bytes(),
{
    write_str(out, before);
    write_bytes(out, char_at(text, at));
    write_str(out, after);
}

impl NestedError {
    /// What is wrong with `text`, in words.
    pub fn message(&self, text: &[u8]) -> (out: Vec<u8>)
        requires
            error_within(*self, text@),
        ensures
            out@ == nested_error_text(*self, text@),
    {
        let mut out: Vec<u8> = Vec::new();
        match self {
            NestedError::Lex(LexError::UnterminatedQuoted) => write_str(
                &mut out,
                "unterminated quoted string",
            ),
            NestedError::Lex(LexError::UnterminatedEmbedded) => write_str(
                &mut out,
                "unterminated embedded element",
            ),
            NestedError::Lex(LexError::UnterminatedElement) => write_str(
                &mut out,
                "unterminated element",
            ),
            NestedError::Lex(LexError::MissingElement) => write_str(
                &mut out,
                "malformed literal; missing element",
            ),
            NestedError::Lex(LexError::MustEscape { at }) => write_around(
                &mut out,
                "malformed literal; must escape special character '",
                text,
                *at,
                "'",
            ),
            NestedError::ExpectedOpen { found } => {
                write_str(&mut out, "expected '{', found ");
                if *found {
                    write_bytes(&mut out, char_at(text, 0));
                } else {
                    write_str(&mut out, "empty string");
                }
            },
            NestedError::ExpectedSeparator { at } => write_around(
                &mut out,
                "expected ',' or '}', got '",
                text,
                *at,
                "'",
            ),
            NestedError::ExpectedSeparatorOrEnd { at } => write_around(
                &mut out,
                "expected ',' or end of input, got '",
                text,
                *at,
                "'",
            ),
            NestedError::UnexpectedEnd => write_str(&mut out, "unexpected end of input"),
            NestedError::UnescapedBrace => write_str(
                &mut out,
                "unescaped '{' at beginning of element; perhaps you want a nested list, e.g. '{a}'::text list list",
            ),
            NestedError::UnescapedValueBrace => write_str(
                &mut out,
                "unescaped '{' at beginning of value; perhaps you want a nested map, e.g. '{a=>{a=>1}}'::map[text=>map[text=>int]]",
            ),
            NestedError::Trailing { at } => write_around(
                &mut out,
                "malformed array literal; contains '",
                text,
                *at,
                "' after terminal '}'",
            ),
            NestedError::ExpectedKey => write_str(&mut out, "expected key"),
            NestedError::ExpectedArrow => write_str(&mut out, "expected =>"),
            NestedError::JunkAfterEmpty => write_str(&mut out, "Junk after \"empty\" key word."),
            NestedError::MissingBracket => write_str(
                &mut out,
                "Missing left parenthesis or bracket.",
            ),
            NestedError::RangeEnded => write_str(&mut out, "Unexpected end of input."),
            NestedError::MissingComma => write_str(&mut out, "Missing comma after lower bound."),
            NestedError::JunkAfterBracket => write_str(
                &mut out,
                "Junk after right parenthesis or bracket.",
            ),
        }
        assert(out@ =~= nested_error_text(*self, text@));
        out
    }
}

/// The text of an element as it was read: none where there is no value.
pub type RawElement = Option<Vec<u8>>;

/// What a `RawElement` holds.
pub open spec fn raw_view(e: RawElement) -> Option<Seq<u8>> {
    match e {
        Some(bytes) => Some(bytes@),
        None => None,
    }
}

/// The element that begins at `p`, which is no blank: within quotes,
/// within braces where `nested` allows it, or by itself.
pub open spec fn element_at(kind: Nesting, text: Seq<u8>, p: int, nested: bool) -> Result<
    (Option<Seq<u8>>, int),
    NestedError,
> {
    if p < 0 || p >= text.len() {
        Err(NestedError::UnexpectedEnd)
    } else if text[p] == 34 {
        match quoted_from(text, p + 1, Seq::<u8>::empty()) {
            Ok((s, n)) => Ok((Some(s), n)),
            Err(e) => Err(NestedError::Lex(e)),
        }
    } else if text[p] == 123 {
        if !nested {
            Err(
                if kind is List {
                    NestedError::UnescapedBrace
                } else {
                    NestedError::UnescapedValueBrace
                },
            )
        } else {
            match embedded_end(text, p + 1, 1, false) {
                Some(n) => Ok((Some(text.subrange(p, n)), n)),
                None => Err(NestedError::Lex(LexError::UnterminatedEmbedded)),
            }
        }
    } else {
        match unquoted_at(kind, text, p) {
            Ok((e, n)) => Ok((e, n)),
            Err(e) => Err(NestedError::Lex(e)),
        }
    }
}

fn copy_range(text: &[u8], from: usize, to: usize) -> (copy: Vec<u8>)
    requires
        from <= to <= text@.len(),
    ensures
        copy@ == text@.subrange(from as int, to as int),
{
    let mut copy: Vec<u8> = Vec::new();
    write_bytes(&mut copy, slice_subrange(text, from, to));
    assert(copy@ =~= text@.subrange(from as int, to as int));
    copy
}

/// Reads the element that begins at `p`, where no blank stands.
pub fn lex_element(kind: Nesting, text: &[u8], p: usize, nested: bool) -> (r: Result<
    (RawElement, usize),
    NestedError,
>)
    requires
        p <= text@.len(),
        p < text@.len() ==> !ascii_space(text@[p as int]),
    ensures
        match r {
            Ok((elem, next)) => element_at(kind, text@, p as int, nested) == Ok::<
                (Option<Seq<u8>>, int),
                NestedError,
            >((raw_view(elem), next as int)) && p <= next <= text@.len(),
            Err(e) => element_at(kind, text@, p as int, nested) == Err::<
                (Option<Seq<u8>>, int),
                NestedError,
            >(e) && error_within(e, text@),
        },
{
    if p >= text.len() {
        return Err(NestedError::UnexpectedEnd);
    }
    let c = text[p];
    if c == 34 {
        match lex_quoted_element(text, p) {
            Ok((s, next)) => Ok((Some(s), next)),
            Err(e) => {
                proof {
                    lemma_quoted_error(text@, p + 1, Seq::<u8>::empty());
                }
                Err(NestedError::Lex(e))
            },
        }
    } else if c == 123 {
        if !nested {
            Err(
                match kind {
                    Nesting::List => NestedError::UnescapedBrace,
                    Nesting::Dict => NestedError::UnescapedValueBrace,
                },
            )
        } else {
            match lex_embedded_element(text, p) {
                Ok(next) => Ok((Some(copy_range(text, p, next)), next)),
                Err(e) => Err(NestedError::Lex(e)),
            }
        }
    } else {
        match lex_unquoted_element(kind, text, p) {
            Ok((elem, next)) => Ok((elem, next)),
            Err(e) => {
                proof {
                    crate::lexing::lemma_plain_end(kind, text@, p as int);
                    let plain = crate::lexing::plain_end(kind, text@, p as int);
                    let s = text@.subrange(p as int, plain);
                    lemma_unquoted_error(kind, text@, plain, s, s.len() as int, false);
                }
                Err(NestedError::Lex(e))
            },
        }
    }
}

/// An element within quotes that is not read has no character to blame.
pub proof fn lemma_quoted_error(text: Seq<u8>, i: int, acc: Seq<u8>)
    ensures
        quoted_from(text, i, acc) matches Err(e) ==> e == LexError::UnterminatedQuoted,
    decreases text.len() - i,
{
    if 0 <= i < text.len() {
        if text[i] == 92 {
            if i + 1 < text.len() {
                lemma_quoted_error(text, i + 2, acc.push(text[i + 1]));
            }
        } else if text[i] != 34 {
            lemma_quoted_error(text, i + 1, acc.push(text[i]));
        }
    }
}

/// The character that an element by itself is not read for lies within
/// the text.
pub proof fn lemma_unquoted_error(
    kind: Nesting,
    text: Seq<u8>,
    i: int,
    acc: Seq<u8>,
    kept: int,
    escaped: bool,
)
    requires
        0 <= i,
    ensures
        crate::lexing::unquoted_from(kind, text, i, acc, kept, escaped) matches Err(
            LexError::MustEscape { at },
        ) ==> at < text.len(),
    decreases text.len() - i,
{
    if i < text.len() {
        if text[i] == 92 {
            if i + 1 < text.len() {
                lemma_unquoted_error(
                    kind,
                    text,
                    i + 2,
                    acc.push(text[i + 1]),
                    (acc.len() + 1) as int,
                    true,
                );
            }
        } else if !crate::lexing::ends_element(kind, text[i]) && !crate::lexing::special(
            kind,
            text[i],
        ) {
            lemma_unquoted_error(
                kind,
                text,
                i + 1,
                acc.push(text[i]),
                if ascii_space(text[i]) {
                    kept
                } else {
                    (acc.len() + 1) as int
                },
                escaped,
            );
        }
    }
}

/// One step in the reading of a list: the end of the list, or an element.
#[derive(Debug, Clone, PartialEq, Eq)]
pub enum ListStep {
    Done,
    Element(RawElement),
}

/// What a `ListStep` holds.
pub enum ListStepView {
    Done,
    Element(Option<Seq<u8>>),
}

impl View for ListStep {
    type V = ListStepView;

    open spec fn view(&self) -> ListStepView {
        match self {
            ListStep::Done => ListStepView::Done,
            ListStep::Element(e) => ListStepView::Element(raw_view(*e)),
        }
    }
}

/// What is read of a list from `pos` on, `first` saying that no element
/// was read yet: behind blanks the closing brace, behind which only blanks
/// may follow; or, behind a comma unless it is the first, an element.
pub open spec fn list_step(text: Seq<u8>, pos: int, first: bool, nested: bool) -> Result<
    (ListStepView, int),
    NestedError,
> {
    let here = skip_space(text, pos);
    if here < text.len() && text[here] == 125 {
        let p = skip_space(text, here + 1);
        if p < text.len() {
            Err(NestedError::Trailing { at: p as usize })
        } else {
            Ok((ListStepView::Done, p))
        }
    } else if !first && here >= text.len() {
        Err(NestedError::UnexpectedEnd)
    } else if !first && text[here] != 44 {
        Err(NestedError::ExpectedSeparator { at: here as usize })
    } else {
        // Before the first element nothing was taken, and where the text
        // has ended the reading goes one back.
        let from = if !first {
            here + 1
        } else if here < text.len() {
            here
        } else {
            here - 1
        };
        match element_at(Nesting::List, text, skip_space(text, from), nested) {
            Ok((e, n)) => Ok((ListStepView::Element(e), n)),
            Err(e) => Err(e),
        }
    }
}

/// Where the reading of a list stands.
#[derive(Debug, Clone, Copy, PartialEq, Eq, Structural)]
pub struct ListLexer {
    /// The place in the text.
    pub pos: usize,
    /// No element was read yet.
    pub first: bool,
}

/// Begins to read the list `text`, which must begin with a brace.
pub fn open_list(text: &[u8]) -> (r: Result<ListLexer, NestedError>)
    ensures
        match r {
            Ok(lexer) => text@.len() > 0 && text@[0] == 123 && lexer == (ListLexer {
                pos: 1,
                first: true,
            }),
            Err(e) => !(text@.len() > 0 && text@[0] == 123) && e == (NestedError::ExpectedOpen {
                found: text@.len() > 0,
            }),
        },
{
    if text.len() > 0 && text[0] == 123 {
        Ok(ListLexer { pos: 1, first: true })
    } else {
        Err(NestedError::ExpectedOpen { found: text.len() > 0 })
    }
}

impl ListLexer {
    /// Reads on by one step: to the end of the list, or by one element.
    /// `nested` says that the elements are lists themselves.
    pub fn step(&mut self, text: &[u8], nested: bool) -> (r: Result<ListStep, NestedError>)
        requires
            1 <= old(self).pos <= text@.len(),
        ensures
            match r {
                Ok(step) => list_step(text@, old(self).pos as int, old(self).first, nested) == Ok::<
                    (ListStepView, int),
                    NestedError,
                >((step@, final(self).pos as int)) && final(self).pos <= text@.len() && (step
                    is Element ==> !final(self).first && 1 <= final(self).pos),
                Err(e) => list_step(text@, old(self).pos as int, old(self).first, nested) == Err::<
                    (ListStepView, int),
                    NestedError,
                >(e) && error_within(e, text@),
            },
    {
        let n = text.len();
        let here = skip_whitespace(text, self.pos);
        if here < n && text[here] == 125 {
            let p = skip_whitespace(text, here + 1);
            if p < n {
                return Err(NestedError::Trailing { at: p });
            }
            self.pos = p;
            return Ok(ListStep::Done);
        }
        let from = if !self.first {
            if here >= n {
                return Err(NestedError::UnexpectedEnd);
            }
            if text[here] != 44 {
                return Err(NestedError::ExpectedSeparator { at: here });
            }
            here + 1
        } else if here < n {
            here
        } else {
            here - 1
        };
        let start = skip_whitespace(text, from);
        proof {
            lemma_skip_space_stops(text@, from as int);
        }
        match lex_element(Nesting::List, text, start, nested) {
            Ok((elem, next)) => {
                proof {
                    lemma_element_advances(Nesting::List, text@, start as int, nested);
                }
                self.pos = next;
                self.first = false;
                Ok(ListStep::Element(elem))
            },
            Err(e) => Err(e),
        }
    }
}

/// An element that is read takes up at least one byte.
pub proof fn lemma_element_advances(kind: Nesting, text: Seq<u8>, p: int, nested: bool)
    requires
        0 <= p,
    ensures
        element_at(kind, text, p, nested) matches Ok((_, n)) ==> p < n <= text.len(),
{
    if p < text.len() {
        if text[p] == 34 {
            lemma_quoted_advances(text, p + 1, Seq::<u8>::empty());
        } else if text[p] == 123 {
            lemma_embedded_advances(text, p + 1, 1, false);
        } else {
            crate::lexing::lemma_plain_end(kind, text, p);
            let plain = crate::lexing::plain_end(kind, text, p);
            let s = text.subrange(p, plain);
            crate::lexing::lemma_unquoted_from_advances(kind, text, plain, s, s.len() as int, false);
        }
    }
}

/// An element within quotes ends behind where it goes on.
pub proof fn lemma_quoted_advances(text: Seq<u8>, i: int, acc: Seq<u8>)
    requires
        0 <= i,
    ensures
        quoted_from(text, i, acc) matches Ok((_, n)) ==> i < n <= text.len(),
    decreases text.len() - i,
{
    if i < text.len() {
        if text[i] == 92 {
            if i + 1 < text.len() {
                lemma_quoted_advances(text, i + 2, acc.push(text[i + 1]));
            }
        } else if text[i] != 34 {
            lemma_quoted_advances(text, i + 1, acc.push(text[i]));
        }
    }
}

/// A nested value ends at or behind where it goes on.
pub proof fn lemma_embedded_advances(text: Seq<u8>, i: int, depth: nat, in_quotes: bool)
    requires
        0 <= i <= text.len(),
    ensures
        embedded_end(text, i, depth, in_quotes) matches Some(n) ==> i <= n <= text.len(),
    decreases text.len() - i,
{
    if depth > 0 && i < text.len() {
        if text[i] == 92 {
            lemma_embedded_advances(
                text,
                if i + 1 < text.len() {
                    i + 2
                } else {
                    i + 1
                },
                depth,
                in_quotes,
            );
        } else if text[i] == 34 {
            lemma_embedded_advances(text, i + 1, depth, !in_quotes);
        } else if text[i] == 123 && !in_quotes {
            lemma_embedded_advances(text, i + 1, depth + 1, in_quotes);
        } else if text[i] == 125 && !in_quotes {
            lemma_embedded_advances(text, i + 1, (depth - 1) as nat, in_quotes);
        } else {
            lemma_embedded_advances(text, i + 1, depth, in_quotes);
        }
    }
}

/// The elements of a list that are read from `pos` on behind the elements
/// `acc`.
pub open spec fn list_from(
    text: Seq<u8>,
    pos: int,
    first: bool,
    nested: bool,
    acc: Seq<Option<Seq<u8>>>,
) -> Result<Seq<Option<Seq<u8>>>, NestedError>
    decreases text.len() - pos,
{
    match list_step(text, pos, first, nested) {
        Err(e) => Err(e),
        Ok((ListStepView::Done, _)) => Ok(acc),
        Ok((ListStepView::Element(e), next)) => if pos < next <= text.len() {
            list_from(text, next, false, nested, acc.push(e))
        } else {
            // An element takes up at least one byte.
            Ok(acc)
        },
    }
}

/// The elements of the list `text`: between braces, with commas between
/// them and blanks around them.
pub open spec fn list_elements(text: Seq<u8>, nested: bool) -> Result<
    Seq<Option<Seq<u8>>>,
    NestedError,
> {
    if !(text.len() > 0 && text[0] == 123) {
        Err(NestedError::ExpectedOpen { found: text.len() > 0 })
    } else {
        match list_step(text, 1, true, nested) {
            Err(e) => Err(e),
            Ok((ListStepView::Done, _)) => Ok(Seq::<Option<Seq<u8>>>::empty()),
            Ok((ListStepView::Element(e), next)) => list_from(text, next, false, nested, seq![e]),
        }
    }
}

/// What raw elements hold, in order.
pub open spec fn raw_views(elems: Seq<RawElement>) -> Seq<Option<Seq<u8>>> {
    elems.map_values(|e: RawElement| raw_view(e))
}

/// After the first element a step of a list goes on behind where it began.
pub proof fn lemma_list_step_advances(text: Seq<u8>, pos: int, nested: bool)
    requires
        0 <= pos <= text.len(),
    ensures
        list_step(text, pos, false, nested) matches Ok((ListStepView::Element(_), next)) ==> pos
            < next <= text.len(),
{
    lemma_skip_space(text, pos);
    let here = skip_space(text, pos);
    if here < text.len() && text[here] == 44 {
        lemma_skip_space(text, here + 1);
        lemma_element_advances(Nesting::List, text, skip_space(text, here + 1), nested);
    }
}

/// Blanks are passed over forwards, and within the text.
pub proof fn lemma_skip_space(text: Seq<u8>, pos: int)
    requires
        0 <= pos <= text.len(),
    ensures
        pos <= skip_space(text, pos) <= text.len(),
    decreases text.len() - pos,
{
    if pos < text.len() && ascii_space(text[pos]) {
        lemma_skip_space(text, pos + 1);
    }
}

/// Reads the elements of the list `text`. `nested` says that the elements
/// are lists themselves.
pub fn parse_list(text: &[u8], nested: bool) -> (r: Result<Vec<RawElement>, NestedError>)
    ensures
        match r {
            Ok(elems) => list_elements(text@, nested) == Ok::<Seq<Option<Seq<u8>>>, NestedError>(
                raw_views(elems@),
            ),
            Err(e) => list_elements(text@, nested) == Err::<Seq<Option<Seq<u8>>>, NestedError>(e)
                && error_within(e, text@),
        },
{
    let mut lexer = match open_list(text) {
        Ok(lexer) => lexer,
        Err(e) => {
            return Err(e);
        },
    };
    let mut elems: Vec<RawElement> = Vec::new();
    match lexer.step(text, nested) {
        Err(e) => {
            return Err(e);
        },
        Ok(ListStep::Done) => {
            assert(raw_views(elems@) =~= Seq::<Option<Seq<u8>>>::empty());
            return Ok(elems);
        },
        Ok(ListStep::Element(e)) => {
            elems.push(e);
            assert(raw_views(elems@) =~= seq![raw_view(e)]);
        },
    }
    loop
        invariant
            1 <= lexer.pos <= text@.len(),
            !lexer.first,
            list_from(text@, lexer.pos as int, false, nested, raw_views(elems@)) == list_elements(
                text@,
                nested,
            ),
        decreases text@.len() - lexer.pos,
    {
        let ghost held = elems@;
        proof {
            lemma_list_step_advances(text@, lexer.pos as int, nested);
        }
        match lexer.step(text, nested) {
            Err(e) => {
                return Err(e);
            },
            Ok(ListStep::Done) => {
                return Ok(elems);
            },
            Ok(ListStep::Element(e)) => {
                elems.push(e);
                assert(raw_views(elems@) =~= raw_views(held).push(raw_view(e)));
            },
        }
    }
}

/// The place of the first blank of `text` from `pos` on.
pub open spec fn word_end(text: Seq<u8>, pos: int) -> int
    decreases text.len() - pos,
{
    if 0 <= pos < text.len() && !ascii_space(text[pos]) {
        word_end(text, pos + 1)
    } else {
        pos
    }
}

/// The words of `text` from `pos` on behind the words `acc`: what stands
/// between blanks.
pub open spec fn words_from(text: Seq<u8>, pos: int, acc: Seq<Seq<u8>>) -> Seq<Seq<u8>>
    decreases text.len() - pos,
{
    let p = skip_space(text, pos);
    if pos < 0 || p >= text.len() {
        acc
    } else {
        let end = word_end(text, p);
        if pos <= p < end <= text.len() {
            words_from(text, end, acc.push(text.subrange(p, end)))
        } else {
            acc
        }
    }
}

/// What byte strings hold, in order.
pub open spec fn byte_views(words: Seq<Vec<u8>>) -> Seq<Seq<u8>> {
    words.map_values(|w: Vec<u8>| w@)
}

/// Reads the elements of a vector of the old kind: the words of `text`.
pub fn parse_legacy_vector(text: &[u8]) -> (words: Vec<Vec<u8>>)
    ensures
        byte_views(words@) == words_from(text@, 0, Seq::<Seq<u8>>::empty()),
{
    let n = text.len();
    let mut words: Vec<Vec<u8>> = Vec::new();
    let mut pos: usize = 0;
    assert(byte_views(words@) =~= Seq::<Seq<u8>>::empty());
    loop
        invariant
            pos <= n,
            n == text@.len(),
            words_from(text@, pos as int, byte_views(words@)) == words_from(
                text@,
                0,
                Seq::<Seq<u8>>::empty(),
            ),
        decreases n - pos,
    {
        let p = skip_whitespace(text, pos);
        if p >= n {
            return words;
        }
        let mut end = p;
        while end < n && !crate::lexing::is_space(text[end])
            invariant
                p <= end <= n,
                n == text@.len(),
                word_end(text@, end as int) == word_end(text@, p as int),
            decreases n - end,
        {
            end = end + 1;
        }
        proof {
            // The word begins with what is no blank.
            assert(!ascii_space(text@[p as int])) by {
                lemma_skip_space_stops(text@, pos as int);
            }
            assert(p < end);
        }
        let ghost held = words@;
        words.push(copy_range(text, p, end));
        assert(byte_views(words@) =~= byte_views(held).push(
            text@.subrange(p as int, end as int),
        ));
        pos = end;
    }
}

/// Where the passing over of blanks stops within the text, no blank
/// stands.
pub proof fn lemma_skip_space_stops(text: Seq<u8>, pos: int)
    requires
        0 <= pos <= text.len(),
    ensures
        skip_space(text, pos) < text.len() ==> !ascii_space(text[skip_space(text, pos)]),
    decreases text.len() - pos,
{
    if pos < text.len() && ascii_space(text[pos]) {
        lemma_skip_space_stops(text, pos + 1);
    }
}

/// One step in the reading of a map: the end of the map, or a key with
/// its value.
#[derive(Debug, Clone, PartialEq, Eq)]
pub enum MapStep {
    Done,
    Entry { key: Vec<u8>, value: RawElement },
}

/// What a `MapStep` holds.
pub enum MapStepView {
    Done,
    Entry { key: Seq<u8>, value: Option<Seq<u8>> },
}

impl View for MapStep {
    type V = MapStepView;

    open spec fn view(&self) -> MapStepView {
        match self {
            MapStep::Done => MapStepView::Done,
            MapStep::Entry { key, value } => MapStepView::Entry {
                key: key@,
                value: raw_view(*value),
            },
        }
    }
}

/// The key of a map that begins at `p`: within quotes or by itself, and
/// not the word `NULL`.
pub open spec fn key_at(text: Seq<u8>, p: int) -> Result<(Seq<u8>, int), NestedError> {
    if p < 0 || p >= text.len() {
        Err(NestedError::UnexpectedEnd)
    } else if text[p] == 34 {
        match quoted_from(text, p + 1, Seq::<u8>::empty()) {
            Ok((s, n)) => Ok((s, n)),
            Err(e) => Err(NestedError::Lex(e)),
        }
    } else {
        match unquoted_at(Nesting::Dict, text, p) {
            Ok((Some(s), n)) => Ok((s, n)),
            Ok((None, _)) => Err(NestedError::ExpectedKey),
            Err(e) => Err(NestedError::Lex(e)),
        }
    }
}

/// What is read of a map from `pos` on, `first` saying that no entry was
/// read yet: behind blanks the closing brace; or, behind a comma unless it
/// is the first, a key, an arrow and a value.
pub open spec fn map_step(text: Seq<u8>, pos: int, first: bool, nested: bool) -> Result<
    (MapStepView, int),
    NestedError,
> {
    let here = skip_space(text, pos);
    if here < text.len() && text[here] == 125 {
        Ok((MapStepView::Done, here + 1))
    } else if !first && here >= text.len() {
        Err(NestedError::UnexpectedEnd)
    } else if !first && text[here] != 44 {
        Err(NestedError::ExpectedSeparatorOrEnd { at: here as usize })
    } else {
        let from = if !first {
            here + 1
        } else if here < text.len() {
            here
        } else {
            here - 1
        };
        match key_at(text, skip_space(text, from)) {
            Err(e) => Err(e),
            Ok((key, after_key)) => {
                let arrow = skip_space(text, after_key);
                if !(arrow + 1 < text.len() && text[arrow] == 61 && text[arrow + 1] == 62) {
                    Err(NestedError::ExpectedArrow)
                } else {
                    match element_at(Nesting::Dict, text, skip_space(text, arrow + 2), nested) {
                        Err(e) => Err(e),
                        Ok((value, next)) => Ok((MapStepView::Entry { key, value }, next)),
                    }
                }
            },
        }
    }
}

/// Where the reading of a map stands.
#[derive(Debug, Clone, Copy, PartialEq, Eq, Structural)]
pub struct MapLexer {
    /// The place in the text.
    pub pos: usize,
    /// No entry was read yet.
    pub first: bool,
}

/// Begins to read the map `text`, which must begin with a brace.
pub fn open_map(text: &[u8]) -> (r: Result<MapLexer, NestedError>)
    ensures
        match r {
            Ok(lexer) => text@.len() > 0 && text@[0] == 123 && lexer == (MapLexer {
                pos: 1,
                first: true,
            }),
            Err(e) => !(text@.len() > 0 && text@[0] == 123) && e == (NestedError::ExpectedOpen {
                found: text@.len() > 0,
            }),
        },
{
    if text.len() > 0 && text[0] == 123 {
        Ok(MapLexer { pos: 1, first: true })
    } else {
        Err(NestedError::ExpectedOpen { found: text.len() > 0 })
    }
}

fn lex_key(text: &[u8], p: usize) -> (r: Result<(Vec<u8>, usize), NestedError>)
    requires
        p <= text@.len(),
        p < text@.len() ==> !ascii_space(text@[p as int]),
    ensures
        match r {
            Ok((key, next)) => key_at(text@, p as int) == Ok::<(Seq<u8>, int), NestedError>(
                (key@, next as int),
            ) && p < next <= text@.len(),
            Err(e) => key_at(text@, p as int) == Err::<(Seq<u8>, int), NestedError>(e)
                && error_within(e, text@),
        },
{
    if p >= text.len() {
        return Err(NestedError::UnexpectedEnd);
    }
    if text[p] == 34 {
        match lex_quoted_element(text, p) {
            Ok((s, next)) => Ok((s, next)),
            Err(e) => {
                proof {
                    lemma_quoted_error(text@, p + 1, Seq::<u8>::empty());
                }
                Err(NestedError::Lex(e))
            },
        }
    } else {
        proof {
            crate::lexing::lemma_plain_end(Nesting::Dict, text@, p as int);
            let plain = crate::lexing::plain_end(Nesting::Dict, text@, p as int);
            let s = text@.subrange(p as int, plain);
            lemma_unquoted_error(Nesting::Dict, text@, plain, s, s.len() as int, false);
            crate::lexing::lemma_unquoted_from_advances(
                Nesting::Dict,
                text@,
                plain,
                s,
                s.len() as int,
                false,
            );
        }
        match lex_unquoted_element(Nesting::Dict, text, p) {
            Ok((Some(s), next)) => Ok((s, next)),
            Ok((None, _)) => Err(NestedError::ExpectedKey),
            Err(e) => Err(NestedError::Lex(e)),
        }
    }
}

impl MapLexer {
    /// Reads on by one step: to the end of the map, or by one entry.
    /// `nested` says that the values are maps themselves.
    pub fn step(&mut self, text: &[u8], nested: bool) -> (r: Result<MapStep, NestedError>)
        requires
            1 <= old(self).pos <= text@.len(),
        ensures
            match r {
                Ok(step) => map_step(text@, old(self).pos as int, old(self).first, nested) == Ok::<
                    (MapStepView, int),
                    NestedError,
                >((step@, final(self).pos as int)) && 1 <= final(self).pos <= text@.len() && (step
                    is Entry ==> !final(self).first),
                Err(e) => map_step(text@, old(self).pos as int, old(self).first, nested) == Err::<
                    (MapStepView, int),
                    NestedError,
                >(e) && error_within(e, text@),
            },
    {
        let n = text.len();
        let here = skip_whitespace(text, self.pos);
        if here < n && text[here] == 125 {
            self.pos = here + 1;
            return Ok(MapStep::Done);
        }
        let from = if !self.first {
            if here >= n {
                return Err(NestedError::UnexpectedEnd);
            }
            if text[here] != 44 {
                return Err(NestedError::ExpectedSeparatorOrEnd { at: here });
            }
            here + 1
        } else if here < n {
            here
        } else {
            here - 1
        };
        let start = skip_whitespace(text, from);
        proof {
            lemma_skip_space_stops(text@, from as int);
        }
        let (key, after_key) = match lex_key(text, start) {
            Ok(read) => read,
            Err(e) => {
                return Err(e);
            },
        };
        let arrow = skip_whitespace(text, after_key);
        if !(arrow < n && n - arrow > 1 && text[arrow] == 61 && text[arrow + 1] == 62) {
            return Err(NestedError::ExpectedArrow);
        }
        let value_at = skip_whitespace(text, arrow + 2);
        proof {
            lemma_skip_space_stops(text@, arrow + 2);
        }
        match lex_element(Nesting::Dict, text, value_at, nested) {
            Ok((value, next)) => {
                self.pos = next;
                self.first = false;
                Ok(MapStep::Entry { key, value })
            },
            Err(e) => Err(e),
        }
    }
}

/// The entries of a map that are read from `pos` on behind the entries
/// `acc`.
pub open spec fn map_from(
    text: Seq<u8>,
    pos: int,
    first: bool,
    nested: bool,
    acc: Seq<(Seq<u8>, Option<Seq<u8>>)>,
) -> Result<Seq<(Seq<u8>, Option<Seq<u8>>)>, NestedError>
    decreases text.len() - pos,
{
    match map_step(text, pos, first, nested) {
        Err(e) => Err(e),
        Ok((MapStepView::Done, _)) => Ok(acc),
        Ok((MapStepView::Entry { key, value }, next)) => if pos < next <= text.len() {
            map_from(text, next, false, nested, acc.push((key, value)))
        } else {
            // An entry takes up at least one byte.
            Ok(acc)
        },
    }
}

/// The entries of the map `text`, in the order of the text: between
/// braces, every key with an arrow and its value, with commas between them.
/// What stands behind the closing brace is not looked at.
pub open spec fn map_entries(text: Seq<u8>, nested: bool) -> Result<
    Seq<(Seq<u8>, Option<Seq<u8>>)>,
    NestedError,
> {
    if !(text.len() > 0 && text[0] == 123) {
        Err(NestedError::ExpectedOpen { found: text.len() > 0 })
    } else {
        match map_step(text, 1, true, nested) {
            Err(e) => Err(e),
            Ok((MapStepView::Done, _)) => Ok(Seq::<(Seq<u8>, Option<Seq<u8>>)>::empty()),
            Ok((MapStepView::Entry { key, value }, next)) => map_from(
                text,
                next,
                false,
                nested,
                seq![(key, value)],
            ),
        }
    }
}

/// What the entries of a map hold, in order.
pub open spec fn raw_entry_views(entries: Seq<(Vec<u8>, RawElement)>) -> Seq<
    (Seq<u8>, Option<Seq<u8>>),
> {
    entries.map_values(|e: (Vec<u8>, RawElement)| (e.0@, raw_view(e.1)))
}

/// After the first entry a step of a map goes on behind where it began.
pub proof fn lemma_map_step_advances(text: Seq<u8>, pos: int, nested: bool)
    requires
        0 <= pos <= text.len(),
    ensures
        map_step(text, pos, false, nested) matches Ok((MapStepView::Entry { .. }, next)) ==> pos
            < next <= text.len(),
{
    lemma_skip_space(text, pos);
    let here = skip_space(text, pos);
    if here < text.len() && text[here] == 44 {
        lemma_skip_space(text, here + 1);
        let start = skip_space(text, here + 1);
        if let Ok((key, after_key)) = key_at(text, start) {
            lemma_key_advances(text, start);
            lemma_skip_space(text, after_key);
            let arrow = skip_space(text, after_key);
            if arrow + 1 < text.len() {
                lemma_skip_space(text, arrow + 2);
                lemma_element_advances(Nesting::Dict, text, skip_space(text, arrow + 2), nested);
            }
        }
    }
}

/// A key that is read takes up at least one byte.
pub proof fn lemma_key_advances(text: Seq<u8>, p: int)
    requires
        0 <= p,
    ensures
        key_at(text, p) matches Ok((_, n)) ==> p < n <= text.len(),
{
    if p < text.len() {
        if text[p] == 34 {
            lemma_quoted_advances(text, p + 1, Seq::<u8>::empty());
        } else {
            crate::lexing::lemma_plain_end(Nesting::Dict, text, p);
            let plain = crate::lexing::plain_end(Nesting::Dict, text, p);
            let s = text.subrange(p, plain);
            crate::lexing::lemma_unquoted_from_advances(
                Nesting::Dict,
                text,
                plain,
                s,
                s.len() as int,
                false,
            );
        }
    }
}

/// Reads the entries of the map `text`, in the order of the text. `nested`
/// says that the values are maps themselves.
pub fn parse_map(text: &[u8], nested: bool) -> (r: Result<Vec<(Vec<u8>, RawElement)>, NestedError>)
    ensures
        match r {
            Ok(entries) => map_entries(text@, nested) == Ok::<
                Seq<(Seq<u8>, Option<Seq<u8>>)>,
                NestedError,
            >(raw_entry_views(entries@)),
            Err(e) => map_entries(text@, nested) == Err::<
                Seq<(Seq<u8>, Option<Seq<u8>>)>,
                NestedError,
            >(e) && error_within(e, text@),
        },
{
    let mut lexer = match open_map(text) {
        Ok(lexer) => lexer,
        Err(e) => {
            return Err(e);
        },
    };
    let mut entries: Vec<(Vec<u8>, RawElement)> = Vec::new();
    match lexer.step(text, nested) {
        Err(e) => {
            return Err(e);
        },
        Ok(MapStep::Done) => {
            assert(raw_entry_views(entries@) =~= Seq::<(Seq<u8>, Option<Seq<u8>>)>::empty());
            return Ok(entries);
        },
        Ok(MapStep::Entry { key, value }) => {
            entries.push((key, value));
            assert(raw_entry_views(entries@) =~= seq![(key@, raw_view(value))]);
        },
    }
    loop
        invariant
            1 <= lexer.pos <= text@.len(),
            !lexer.first,
            map_from(text@, lexer.pos as int, false, nested, raw_entry_views(entries@))
                == map_entries(text@, nested),
        decreases text@.len() - lexer.pos,
    {
        let ghost held = entries@;
        proof {
            lemma_map_step_advances(text@, lexer.pos as int, nested);
        }
        match lexer.step(text, nested) {
            Err(e) => {
                return Err(e);
            },
            Ok(MapStep::Done) => {
                return Ok(entries);
            },
            Ok(MapStep::Entry { key, value }) => {
                entries.push((key, value));
                assert(raw_entry_views(entries@) =~= raw_entry_views(held).push(
                    (key@, raw_view(value)),
                ));
            },
        }
    }
}

/// The word `empty` stands in `text` at `p`.
pub open spec fn empty_word_at(text: Seq<u8>, p: int) -> bool {
    0 <= p && p + 5 <= text.len() && text[p] == 101 && text[p + 1] == 109 && text[p + 2] == 112
        && text[p + 3] == 116 && text[p + 4] == 121
}

/// The place of the first comma of `text` from `pos` on.
pub open spec fn comma_from(text: Seq<u8>, pos: int) -> int
    decreases text.len() - pos,
{
    if 0 <= pos < text.len() && text[pos] != 44 {
        comma_from(text, pos + 1)
    } else {
        pos
    }
}

/// The place of the first closing bracket or parenthesis of `text` from
/// `pos` on.
pub open spec fn bracket_from(text: Seq<u8>, pos: int) -> int
    decreases text.len() - pos,
{
    if 0 <= pos < text.len() && text[pos] != 41 && text[pos] != 93 {
        bracket_from(text, pos + 1)
    } else {
        pos
    }
}

/// The lower end of a range as it was read: whether it belongs to the
/// range, from where to where its text stands where it has a bound, and the
/// place behind it.
#[derive(Debug, Clone, Copy, PartialEq, Eq)]
pub struct RangeLower {
    pub inclusive: bool,
    pub bound: Option<(usize, usize)>,
    pub next: usize,
}

/// The beginning of the range `text`: the word `empty` alone, for which
/// there is no lower end; or a bracket, with which the lower end belongs to
/// the range, or a parenthesis, and then the text of the lower end up to
/// the comma, or nothing before the comma.
pub open spec fn range_lower(text: Seq<u8>) -> Result<Option<RangeLower>, NestedError> {
    let begin = skip_space(text, 0);
    if empty_word_at(text, begin) {
        if skip_space(text, begin + 5) >= text.len() {
            Ok(None)
        } else {
            Err(NestedError::JunkAfterEmpty)
        }
    } else if begin >= text.len() || (text[begin] != 91 && text[begin] != 40) {
        Err(NestedError::MissingBracket)
    } else if begin + 1 >= text.len() {
        Err(NestedError::RangeEnded)
    } else if text[begin + 1] == 44 {
        Ok(
            Some(
                RangeLower {
                    inclusive: text[begin] == 91,
                    bound: None,
                    next: (begin + 1) as usize,
                },
            ),
        )
    } else {
        Ok(
            Some(
                RangeLower {
                    inclusive: text[begin] == 91,
                    bound: Some(((begin + 1) as usize, comma_from(text, begin + 1) as usize)),
                    next: comma_from(text, begin + 1) as usize,
                },
            ),
        )
    }
}

/// The upper end of a range behind its lower end at `pos`: behind the
/// comma the text up to the closing bracket or parenthesis, or nothing
/// before it; with the place of that bracket.
pub open spec fn range_upper(text: Seq<u8>, pos: int) -> Result<
    (Option<(usize, usize)>, usize),
    NestedError,
> {
    let p = skip_space(text, pos);
    if !(p < text.len() && text[p] == 44) {
        Err(NestedError::MissingComma)
    } else if p + 1 >= text.len() {
        Err(NestedError::RangeEnded)
    } else if text[p + 1] == 93 || text[p + 1] == 41 {
        Ok((None, (p + 1) as usize))
    } else {
        Ok(
            (
                Some(((p + 1) as usize, bracket_from(text, p + 1) as usize)),
                bracket_from(text, p + 1) as usize,
            ),
        )
    }
}

/// The end of a range at `pos`: a bracket, with which the upper end
/// belongs to the range, or a parenthesis, and nothing but blanks behind it.
pub open spec fn range_close(text: Seq<u8>, pos: int) -> Result<bool, NestedError> {
    if pos < 0 || pos >= text.len() || (text[pos] != 93 && text[pos] != 41) {
        Err(NestedError::MissingBracket)
    } else if skip_space(text, pos + 1) < text.len() {
        Err(NestedError::JunkAfterBracket)
    } else {
        Ok(text[pos] == 93)
    }
}

/// Reads the beginning of the range `text`, up to its lower end.
pub fn read_range_lower(text: &[u8]) -> (r: Result<Option<RangeLower>, NestedError>)
    ensures
        r == range_lower(text@),
        r matches Ok(Some(lower)) ==> lower.next <= text@.len() && (lower.bound matches Some(
            (from, to),
        ) ==> from < to <= text@.len()),
{
    let n = text.len();
    let begin = skip_whitespace(text, 0);
    if n - begin >= 5 && text[begin] == 101 && text[begin + 1] == 109 && text[begin + 2] == 112 && text[begin
        + 3] == 116 && text[begin + 4] == 121 {
        let p = skip_whitespace(text, begin + 5);
        return if p >= n {
            Ok(None)
        } else {
            Err(NestedError::JunkAfterEmpty)
        };
    }
    if begin >= n || (text[begin] != 91 && text[begin] != 40) {
        return Err(NestedError::MissingBracket);
    }
    let inclusive = text[begin] == 91;
    let here = begin + 1;
    if here >= n {
        return Err(NestedError::RangeEnded);
    }
    if text[here] == 44 {
        return Ok(Some(RangeLower { inclusive, bound: None, next: here }));
    }
    let mut end = here;
    while end < n && text[end] != 44
        invariant
            here <= end <= n,
            n == text@.len(),
            comma_from(text@, end as int) == comma_from(text@, here as int),
        decreases n - end,
    {
        end = end + 1;
    }
    // Without a comma the text of the lower end goes on to the end.
    Ok(Some(RangeLower { inclusive, bound: Some((here, end)), next: end }))
}

/// Reads the upper end of a range behind its lower end at `pos`.
pub fn read_range_upper(text: &[u8], pos: usize) -> (r: Result<
    (Option<(usize, usize)>, usize),
    NestedError,
>)
    requires
        pos <= text@.len(),
    ensures
        r == range_upper(text@, pos as int),
        r matches Ok((bound, next)) ==> next <= text@.len() && (bound matches Some((from, to))
            ==> from < to <= text@.len()),
{
    let n = text.len();
    let p = skip_whitespace(text, pos);
    if !(p < n && text[p] == 44) {
        return Err(NestedError::MissingComma);
    }
    let q = p + 1;
    if q >= n {
        return Err(NestedError::RangeEnded);
    }
    if text[q] == 93 || text[q] == 41 {
        return Ok((None, q));
    }
    let mut end = q;
    while end < n && text[end] != 41 && text[end] != 93
        invariant
            q <= end <= n,
            n == text@.len(),
            bracket_from(text@, end as int) == bracket_from(text@, q as int),
        decreases n - end,
    {
        end = end + 1;
    }
    Ok((Some((q, end)), end))
}

/// Reads the end of a range at `pos`, and says whether the upper end
/// belongs to the range.
pub fn read_range_close(text: &[u8], pos: usize) -> (r: Result<bool, NestedError>)
    requires
        pos <= text@.len(),
    ensures
        r == range_close(text@, pos as int),
{
    let n = text.len();
    if pos >= n || (text[pos] != 93 && text[pos] != 41) {
        return Err(NestedError::MissingBracket);
    }
    let p = skip_whitespace(text, pos + 1);
    if p < n {
        Err(NestedError::JunkAfterBracket)
    } else {
        Ok(text[pos] == 93)
    }
}

/// The two ends of a range as they were read: whether each belongs to the
/// range, and from where to where its text stands where it has a bound.
#[derive(Debug, Clone, Copy, PartialEq, Eq)]
pub struct RangeSpans {
    pub lower_inclusive: bool,
    pub lower: Option<(usize, usize)>,
    pub upper_inclusive: bool,
    pub upper: Option<(usize, usize)>,
}

/// The range `text`: no ends for the word `empty`, or both ends.
pub open spec fn range_spans(text: Seq<u8>) -> Result<Option<RangeSpans>, NestedError> {
    match range_lower(text) {
        Err(e) => Err(e),
        Ok(None) => Ok(None),
        Ok(Some(lower)) => match range_upper(text, lower.next as int) {
            Err(e) => Err(e),
            Ok((upper, at)) => match range_close(text, at as int) {
                Err(e) => Err(e),
                Ok(upper_inclusive) => Ok(
                    Some(
                        RangeSpans {
                            lower_inclusive: lower.inclusive,
                            lower: lower.bound,
                            upper_inclusive,
                            upper,
                        },
                    ),
                ),
            },
        },
    }
}

/// Reads the range `text`.
pub fn parse_range(text: &[u8]) -> (r: Result<Option<RangeSpans>, NestedError>)
    ensures
        r == range_spans(text@),
        r matches Ok(Some(spans)) ==> (spans.lower matches Some((from, to)) ==> from < to
            <= text@.len()) && (spans.upper matches Some((from, to)) ==> from < to <= text@.len()),
{
    let lower = match read_range_lower(text) {
        Err(e) => {
            return Err(e);
        },
        Ok(None) => {
            return Ok(None);
        },
        Ok(Some(lower)) => lower,
    };
    let (upper, at) = match read_range_upper(text, lower.next) {
        Err(e) => {
            return Err(e);
        },
        Ok(read) => read,
    };
    match read_range_close(text, at) {
        Err(e) => Err(e),
        Ok(upper_inclusive) => Ok(
            Some(
                RangeSpans {
                    lower_inclusive: lower.inclusive,
                    lower: lower.bound,
                    upper_inclusive,
                    upper,
                },
            ),
        ),
    }
}

} // verus!
