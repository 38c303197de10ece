//! Reading the text of an array.
//!
//! The braces of an array say how many dimensions it has and how long each
//! is: every pair of braces is entered and left again, and what stands in
//! it is counted. All pairs of braces of one depth must hold equally many,
//! and the elements stand in the innermost.

use crate::datum::ArrayDimension;
use crate::lexing::{
    lex_quoted_element, lex_unquoted_element, quoted_from, skip_space, skip_whitespace,
    unquoted_at, LexError, Nesting,
};
use crate::parsing::{
    lemma_quoted_advances, lemma_skip_space, raw_view, raw_views, RawElement,
};
use vstd::prelude::*;
use vstd::string::StringSliceAdditionalSpecFns;

verus! {

/// Why the text of an array was not read.
#[derive(Debug, Clone, Copy, PartialEq, Eq, Structural)]
pub enum ArrayParsingError {
    /// The text does not begin with a brace.
    OpeningBraceMissing,
    /// The text begins with the bounds of the dimensions.
    DimsUnsupported,
    /// An element was not read.
    Generic(LexError),
    /// The brace or comma at `at` stands where none may stand.
    UnexpectedChar { at: usize },
    /// The pairs of braces of one depth do not hold equally many, or go
    /// deeper than the first.
    NonRectilinearDims,
    /// An element stands where none may stand.
    UnexpectedElement,
    /// Something stands behind the last closing brace.
    Junk,
    /// The text ended before the last closing brace.
    EarlyTerm,
}

/// What is known of one dimension while an array is read.
#[derive(Debug, Clone, Copy, PartialEq, Eq, Structural)]
pub struct Dimension {
    /// How many a pair of braces of this depth holds, once the first was
    /// left.
    pub length: Option<usize>,
    /// Something stands in the pair of braces that was entered last whose
    /// comma or closing brace is yet to come.
    pub staged_element: bool,
    /// How many stand in the pair of braces that was entered last, with
    /// their comma or closing brace.
    pub committed_element_count: usize,
}

/// The state of the reading of an array.
#[derive(Debug)]
pub struct ArrayBuilder {
    /// The place of the brace or comma that is acted on.
    pub current_command_char: usize,
    pub dimensions: Vec<Dimension>,
    /// The depth at which the reading stands.
    pub current_dim: usize,
    /// The last closing brace was read.
    pub sealed: bool,
    pub elements: Vec<RawElement>,
}

/// What an `ArrayBuilder` holds.
pub struct BuilderView {
    pub command: usize,
    pub dimensions: Seq<Dimension>,
    pub current_dim: int,
    pub sealed: bool,
    pub elements: Seq<Option<Seq<u8>>>,
}

impl View for ArrayBuilder {
    type V = BuilderView;

    open spec fn view(&self) -> BuilderView {
        BuilderView {
            command: self.current_command_char,
            dimensions: self.dimensions@,
            current_dim: self.current_dim as int,
            sealed: self.sealed,
            elements: raw_views(self.elements@),
        }
    }
}

impl BuilderView {
    /// The reading stands at a depth that there is, all deeper dimensions
    /// have their lengths, and when the last brace was read all have.
    pub open spec fn wf(self) -> bool {
        &&& 0 <= self.current_dim < self.dimensions.len()
        &&& forall|j: int|
            self.current_dim < j < self.dimensions.len() ==> (
            #[trigger] self.dimensions[j]).length is Some
        &&& self.sealed ==> forall|j: int|
            0 <= j < self.dimensions.len() ==> (#[trigger] self.dimensions[j]).length is Some
    }

    /// The dimension at which the reading stands.
    pub open spec fn here(self) -> Dimension {
        self.dimensions[self.current_dim]
    }

    /// This state with `d` for the dimension at which the reading stands.
    pub open spec fn with_here(self, d: Dimension) -> BuilderView {
        BuilderView { dimensions: self.dimensions.update(self.current_dim, d), ..self }
    }

    /// Something now stands at this depth whose comma or closing brace is
    /// yet to come; which cannot be while that is so of something else.
    pub open spec fn stage_element(self) -> Result<BuilderView, ArrayParsingError> {
        if self.here().staged_element {
            Err(ArrayParsingError::UnexpectedElement)
        } else {
            Ok(self.with_here(Dimension { staged_element: true, ..self.here() }))
        }
    }

    /// The comma or closing brace has come of what stands at this depth.
    /// Where nothing stands there, a comma cannot be, and a closing brace
    /// only if nothing stood in the pair of braces before.
    pub open spec fn commit_element(self, require_staged: bool) -> Result<
        BuilderView,
        ArrayParsingError,
    > {
        if !self.here().staged_element {
            if require_staged || self.here().committed_element_count > 0 {
                Err(ArrayParsingError::UnexpectedChar { at: self.command })
            } else {
                Ok(self)
            }
        } else {
            Ok(
                self.with_here(
                    Dimension {
                        staged_element: false,
                        committed_element_count: (self.here().committed_element_count
                            + 1) as usize,
                        ..self.here()
                    },
                ),
            )
        }
    }

    /// A pair of braces is entered: which cannot be behind something whose
    /// comma is yet to come, nor deeper than the first pairs went.
    pub open spec fn enter_dim(self) -> Result<BuilderView, ArrayParsingError> {
        if self.here().staged_element {
            Err(ArrayParsingError::UnexpectedChar { at: self.command })
        } else if self.current_dim + 1 >= self.dimensions.len() {
            Err(ArrayParsingError::NonRectilinearDims)
        } else {
            Ok(BuilderView { current_dim: self.current_dim + 1, ..self })
        }
    }

    /// An element is read: which can only be at the innermost depth.
    pub open spec fn insert_element(self, s: Option<Seq<u8>>) -> Result<
        BuilderView,
        ArrayParsingError,
    > {
        if self.current_dim != self.dimensions.len() - 1 {
            Err(ArrayParsingError::UnexpectedElement)
        } else {
            match self.stage_element() {
                Err(e) => Err(e),
                Ok(staged) => Ok(BuilderView { elements: staged.elements.push(s), ..staged }),
            }
        }
    }

    /// A pair of braces is left: it must hold as many as the pairs of its
    /// depth before it. With the outermost the array is at its end; any
    /// other is something that stands in the pair around it.
    pub open spec fn exit_dim(self) -> Result<BuilderView, ArrayParsingError> {
        match self.commit_element(false) {
            Err(e) => Err(e),
            Ok(b) => {
                let d = b.here();
                if d.length matches Some(l) && l != d.committed_element_count {
                    Err(ArrayParsingError::NonRectilinearDims)
                } else {
                    let left = b.with_here(
                        Dimension {
                            length: Some(d.committed_element_count),
                            committed_element_count: 0,
                            ..d
                        },
                    );
                    if b.current_dim == 0 {
                        Ok(BuilderView { sealed: true, ..left })
                    } else {
                        (BuilderView { current_dim: b.current_dim - 1, ..left }).stage_element()
                    }
                }
            },
        }
    }
}

impl ArrayBuilder {
    /// What the builder holds is in order.
    pub open spec fn wf(&self) -> bool {
        self@.wf()
    }

    /// Marks that something stands at this depth whose comma or closing
    /// brace is yet to come.
    pub fn stage_element(&mut self) -> (r: Result<(), ArrayParsingError>)
        requires
            old(self).wf(),
        ensures
            match r {
                Ok(()) => old(self)@.stage_element() == Ok::<BuilderView, ArrayParsingError>(
                    final(self)@,
                ),
                Err(e) => old(self)@.stage_element() == Err::<BuilderView, ArrayParsingError>(e),
            },
    {
        let mut d = self.dimensions[self.current_dim];
        if d.staged_element {
            return Err(ArrayParsingError::UnexpectedElement);
        }
        d.staged_element = true;
        self.dimensions.set(self.current_dim, d);
        Ok(())
    }

    /// Takes the comma or closing brace of what stands at this depth.
    pub fn commit_element(&mut self, require_staged: bool) -> (r: Result<(), ArrayParsingError>)
        requires
            old(self).wf(),
            old(self)@.here().committed_element_count < usize::MAX,
        ensures
            match r {
                Ok(()) => old(self)@.commit_element(require_staged) == Ok::<
                    BuilderView,
                    ArrayParsingError,
                >(final(self)@),
                Err(e) => old(self)@.commit_element(require_staged) == Err::<
                    BuilderView,
                    ArrayParsingError,
                >(e),
            },
    {
        let mut d = self.dimensions[self.current_dim];
        if !d.staged_element {
            return if require_staged || d.committed_element_count > 0 {
                Err(ArrayParsingError::UnexpectedChar { at: self.current_command_char })
            } else {
                assert(self@.dimensions =~= old(self)@.dimensions);
                Ok(())
            };
        }
        d.staged_element = false;
        d.committed_element_count = d.committed_element_count + 1;
        self.dimensions.set(self.current_dim, d);
        Ok(())
    }

    /// Enters a pair of braces.
    pub fn enter_dim(&mut self) -> (r: Result<(), ArrayParsingError>)
        requires
            old(self).wf(),
        ensures
            match r {
                Ok(()) => old(self)@.enter_dim() == Ok::<BuilderView, ArrayParsingError>(
                    final(self)@,
                ),
                Err(e) => old(self)@.enter_dim() == Err::<BuilderView, ArrayParsingError>(e),
            },
    {
        if self.dimensions[self.current_dim].staged_element {
            return Err(ArrayParsingError::UnexpectedChar { at: self.current_command_char });
        }
        let depth = self.dimensions.len();
        if self.current_dim + 1 >= depth {
            return Err(ArrayParsingError::NonRectilinearDims);
        }
        self.current_dim = self.current_dim + 1;
        Ok(())
    }

    /// Takes the element `s`.
    pub fn insert_element(&mut self, s: RawElement) -> (r: Result<(), ArrayParsingError>)
        requires
            old(self).wf(),
        ensures
            match r {
                Ok(()) => old(self)@.insert_element(raw_view(s)) == Ok::<
                    BuilderView,
                    ArrayParsingError,
                >(final(self)@),
                Err(e) => old(self)@.insert_element(raw_view(s)) == Err::<
                    BuilderView,
                    ArrayParsingError,
                >(e),
            },
    {
        if self.current_dim != self.dimensions.len() - 1 {
            return Err(ArrayParsingError::UnexpectedElement);
        }
        match self.stage_element() {
            Err(e) => {
                return Err(e);
            },
            Ok(()) => {},
        }
        let ghost held = self.elements@;
        self.elements.push(s);
        assert(raw_views(self.elements@) =~= raw_views(held).push(raw_view(s)));
        Ok(())
    }

    /// Leaves a pair of braces.
    pub fn exit_dim(&mut self) -> (r: Result<(), ArrayParsingError>)
        requires
            old(self).wf(),
            old(self)@.here().committed_element_count < usize::MAX,
        ensures
            match r {
                Ok(()) => old(self)@.exit_dim() == Ok::<BuilderView, ArrayParsingError>(
                    final(self)@,
                ),
                Err(e) => old(self)@.exit_dim() == Err::<BuilderView, ArrayParsingError>(e),
            },
    {
        match self.commit_element(false) {
            Err(e) => {
                return Err(e);
            },
            Ok(()) => {},
        }
        let mut d = self.dimensions[self.current_dim];
        match d.length {
            None => {
                d.length = Some(d.committed_element_count);
            },
            Some(l) => {
                if l != d.committed_element_count {
                    return Err(ArrayParsingError::NonRectilinearDims);
                }
            },
        }
        d.committed_element_count = 0;
        self.dimensions.set(self.current_dim, d);
        if self.current_dim == 0 {
            self.sealed = true;
            Ok(())
        } else {
            self.current_dim = self.current_dim - 1;
            self.stage_element()
        }
    }
}

/// The steps of the reading keep the state in order.
pub proof fn lemma_steps_keep_order(b: BuilderView, s: Option<Seq<u8>>, require_staged: bool)
    requires
        b.wf(),
        !b.sealed,
    ensures
        b.stage_element() matches Ok(n) ==> n.wf() && !n.sealed,
        b.commit_element(require_staged) matches Ok(n) ==> n.wf() && !n.sealed,
        b.enter_dim() matches Ok(n) ==> n.wf() && !n.sealed,
        b.insert_element(s) matches Ok(n) ==> n.wf() && !n.sealed,
        b.exit_dim() matches Ok(n) ==> n.wf(),
{
    if let Ok(n) = b.exit_dim() {
        let c = b.commit_element(false)->Ok_0;
        assert(c.wf());
        assert forall|j: int| n.current_dim < j < n.dimensions.len() implies (
        #[trigger] n.dimensions[j]).length is Some by {
            if j != b.current_dim {
                assert(c.dimensions[j].length is Some);
            }
        }
        if n.sealed {
            assert forall|j: int| 0 <= j < n.dimensions.len() implies (
            #[trigger] n.dimensions[j]).length is Some by {
                if j != 0 {
                    assert(c.dimensions[j].length is Some);
                }
            }
        }
    }
}

/// The number of opening braces with which an array begins, `count` of
/// them being read, and the place behind them and the blanks around them.
pub open spec fn leading_braces(text: Seq<u8>, pos: int, count: nat) -> (nat, int)
    decreases text.len() - pos,
{
    let q = skip_space(text, pos);
    if 0 <= pos <= q < text.len() && text[q] == 123 {
        leading_braces(text, q + 1, count + 1)
    } else {
        (count, q)
    }
}

/// The element of an array that begins at `p`: within quotes, or by
/// itself.
pub open spec fn array_element_at(text: Seq<u8>, p: int) -> Result<
    (Option<Seq<u8>>, int),
    LexError,
> {
    if text[p] == 34 {
        match quoted_from(text, p + 1, Seq::<u8>::empty()) {
            Ok((s, n)) => Ok((Some(s), n)),
            Err(e) => Err(e),
        }
    } else {
        unquoted_at(Nesting::List, text, p)
    }
}

/// The state in which the reading of an array ends that stands at `pos`
/// in the state `b`: every brace and comma is acted on, and every element
/// is taken, until the text ends behind the last closing brace.
pub open spec fn array_run(text: Seq<u8>, pos: int, b: BuilderView) -> Result<
    BuilderView,
    ArrayParsingError,
>
    decreases text.len() - pos,
{
    let p = skip_space(text, pos);
    if pos < 0 || p < pos || p >= text.len() {
        if b.sealed {
            Ok(b)
        } else {
            Err(ArrayParsingError::EarlyTerm)
        }
    } else if b.sealed {
        Err(ArrayParsingError::Junk)
    } else {
        let at = BuilderView { command: p as usize, ..b };
        if text[p] == 123 {
            match at.enter_dim() {
                Err(e) => Err(e),
                Ok(next) => array_run(text, p + 1, next),
            }
        } else if text[p] == 125 {
            match at.exit_dim() {
                Err(e) => Err(e),
                Ok(next) => array_run(text, p + 1, next),
            }
        } else if text[p] == 44 {
            match at.commit_element(true) {
                Err(e) => Err(e),
                Ok(next) => array_run(text, p + 1, next),
            }
        } else {
            match array_element_at(text, p) {
                Err(e) => Err(ArrayParsingError::Generic(e)),
                Ok((s, behind)) => match at.insert_element(s) {
                    Err(e) => Err(e),
                    Ok(next) => if p < behind <= text.len() {
                        array_run(text, behind, next)
                    } else {
                        // An element takes up at least one byte.
                        Ok(next)
                    },
                },
            }
        }
    }
}

/// The dimensions that were found, each beginning at the index one.
pub open spec fn found_dimensions(dimensions: Seq<Dimension>) -> Seq<ArrayDimension> {
    dimensions.map_values(
        |d: Dimension|
            ArrayDimension {
                lower_bound: 1,
                length: match d.length {
                    Some(l) => l,
                    None => 0,
                },
            },
    )
}

/// The elements and the dimensions of the array `text`. An array without
/// elements has no dimensions.
pub open spec fn array_elements(text: Seq<u8>) -> Result<
    (Seq<Option<Seq<u8>>>, Seq<ArrayDimension>),
    ArrayParsingError,
> {
    let p = skip_space(text, 0);
    if text.len() > 0 && text[0] == 91 {
        Err(ArrayParsingError::DimsUnsupported)
    } else if !(p < text.len() && text[p] == 123) {
        Err(ArrayParsingError::OpeningBraceMissing)
    } else {
        let (count, q) = leading_braces(text, p + 1, 1);
        let start = BuilderView {
            command: p as usize,
            dimensions: Seq::new(
                count,
                |i: int| Dimension { length: None, staged_element: false, committed_element_count: 0 },
            ),
            current_dim: count - 1,
            sealed: false,
            elements: Seq::<Option<Seq<u8>>>::empty(),
        };
        match array_run(text, q, start) {
            Err(e) => Err(e),
            Ok(b) => if b.elements.len() == 0 {
                Ok((Seq::<Option<Seq<u8>>>::empty(), Seq::<ArrayDimension>::empty()))
            } else {
                Ok((b.elements, found_dimensions(b.dimensions)))
            },
        }
    }
}

/// No dimension has counted more than `bound`.
pub open spec fn counts_within(b: BuilderView, bound: int) -> bool {
    forall|j: int|
        0 <= j < b.dimensions.len() ==> (#[trigger] b.dimensions[j]).committed_element_count
            <= bound
}

/// A step of the reading counts one more at most.
pub proof fn lemma_steps_count(b: BuilderView, s: Option<Seq<u8>>, bound: int)
    requires
        b.wf(),
        counts_within(b, bound),
        bound < usize::MAX,
    ensures
        b.commit_element(true) matches Ok(n) ==> counts_within(n, bound + 1),
        b.enter_dim() matches Ok(n) ==> counts_within(n, bound + 1),
        b.insert_element(s) matches Ok(n) ==> counts_within(n, bound + 1),
        b.exit_dim() matches Ok(n) ==> counts_within(n, bound + 1),
{
    assert(b.here().committed_element_count <= bound);
    if let Ok(n) = b.commit_element(true) {
        assert forall|j: int| 0 <= j < n.dimensions.len() implies (
        #[trigger] n.dimensions[j]).committed_element_count <= bound + 1 by {
            if j != b.current_dim {
                assert(n.dimensions[j] == b.dimensions[j]);
            }
        }
    }
    if let Ok(n) = b.insert_element(s) {
        assert forall|j: int| 0 <= j < n.dimensions.len() implies (
        #[trigger] n.dimensions[j]).committed_element_count <= bound + 1 by {
            if j != b.current_dim {
                assert(n.dimensions[j] == b.dimensions[j]);
            }
        }
    }
    if let Ok(n) = b.exit_dim() {
        let c = b.commit_element(false)->Ok_0;
        assert forall|j: int| 0 <= j < n.dimensions.len() implies (
        #[trigger] n.dimensions[j]).committed_element_count <= bound + 1 by {
            if j != b.current_dim && j != b.current_dim - 1 {
                assert(n.dimensions[j] == b.dimensions[j]);
            } else if j == b.current_dim - 1 {
                assert(c.dimensions[j] == b.dimensions[j]);
            }
        }
    }
}

fn lex_array_element(text: &[u8], p: usize) -> (r: Result<(RawElement, usize), LexError>)
    requires
        p < text@.len(),
        !crate::strconv::ascii_space(text@[p as int]),
    ensures
        match r {
            Ok((elem, next)) => array_element_at(text@, p as int) == Ok::<
                (Option<Seq<u8>>, int),
                LexError,
            >((raw_view(elem), next as int)) && p < next <= text@.len(),
            Err(e) => array_element_at(text@, p as int) == Err::<
                (Option<Seq<u8>>, int),
                LexError,
            >(e),
        },
{
    if text[p] == 34 {
        match lex_quoted_element(text, p) {
            Ok((s, next)) => Ok((Some(s), next)),
            Err(e) => Err(e),
        }
    } else {
        proof {
            crate::lexing::lemma_plain_end(Nesting::List, text@, p as int);
            let plain = crate::lexing::plain_end(Nesting::List, text@, p as int);
            let s = text@.subrange(p as int, plain);
            crate::lexing::lemma_unquoted_from_advances(
                Nesting::List,
                text@,
                plain,
                s,
                s.len() as int,
                false,
            );
        }
        match lex_unquoted_element(Nesting::List, text, p) {
            Ok((elem, next)) => Ok((elem, next)),
            Err(e) => Err(e),
        }
    }
}

/// Counts the braces with which an array begins behind its first brace at
/// `first`, and gives a dimension for each with the place behind them.
fn count_leading_braces(text: &[u8], first: usize) -> (r: (Vec<Dimension>, usize))
    requires
        first < text@.len(),
    ensures
        leading_braces(text@, first + 1, 1) == (r.0@.len(), r.1 as int),
        first < r.1 <= text@.len(),
        1 <= r.0@.len() <= r.1,
        r.0@ == Seq::new(
            r.0@.len(),
            |i: int| Dimension { length: None, staged_element: false, committed_element_count: 0 },
        ),
{
    let n = text.len();
    let mut dimensions: Vec<Dimension> = Vec::new();
    dimensions.push(Dimension { length: None, staged_element: false, committed_element_count: 0 });
    let mut pos = first + 1;
    loop
        invariant_except_break
            leading_braces(text@, pos as int, dimensions@.len()) == leading_braces(
                text@,
                first + 1,
                1,
            ),
        invariant
            first < pos <= n,
            n == text@.len(),
            1 <= dimensions@.len() <= pos,
            forall|j: int|
                0 <= j < dimensions@.len() ==> #[trigger] dimensions@[j] == (Dimension {
                    length: None,
                    staged_element: false,
                    committed_element_count: 0,
                }),
        ensures
            leading_braces(text@, first + 1, 1) == (dimensions@.len(), pos as int),
        decreases n - pos,
    {
        let q = skip_whitespace(text, pos);
        if q < n && text[q] == 123 {
            dimensions.push(
                Dimension { length: None, staged_element: false, committed_element_count: 0 },
            );
            pos = q + 1;
        } else {
            pos = q;
            break ;
        }
    }
    assert(dimensions@ =~= Seq::new(
        dimensions@.len(),
        |i: int| Dimension { length: None, staged_element: false, committed_element_count: 0 },
    ));
    (dimensions, pos)
}

/// Reads the elements and the dimensions of the array `text`.
#[verifier::loop_isolation(false)]
pub fn parse_array(text: &[u8]) -> (r: Result<
    (Vec<RawElement>, Vec<ArrayDimension>),
    ArrayParsingError,
>)
    ensures
        match r {
            Ok((elems, dims)) => array_elements(text@) == Ok::<
                (Seq<Option<Seq<u8>>>, Seq<ArrayDimension>),
                ArrayParsingError,
            >((raw_views(elems@), dims@)),
            Err(e) => array_elements(text@) == Err::<
                (Seq<Option<Seq<u8>>>, Seq<ArrayDimension>),
                ArrayParsingError,
            >(e) && (e matches ArrayParsingError::UnexpectedChar { at } ==> at < text@.len()),
        },
{
    let n = text.len();
    if n > 0 && text[0] == 91 {
        return Err(ArrayParsingError::DimsUnsupported);
    }
    let first = skip_whitespace(text, 0);
    if !(first < n && text[first] == 123) {
        return Err(ArrayParsingError::OpeningBraceMissing);
    }
    let (dimensions, pos) = count_leading_braces(text, first);
    let mut pos = pos;
    let depth = dimensions.len();
    let mut builder = ArrayBuilder {
        current_command_char: first,
        dimensions,
        current_dim: depth - 1,
        sealed: false,
        elements: Vec::new(),
    };
    let ghost start = builder@;
    let ghost from = pos as int;
    proof {
        let (count, q) = leading_braces(text@, first + 1, 1);
        assert(count == depth && q == pos);
        assert(start.dimensions =~= Seq::new(
            count,
            |i: int| Dimension { length: None, staged_element: false, committed_element_count: 0 },
        ));
        assert(start.elements =~= Seq::<Option<Seq<u8>>>::empty());
    }
    loop
        invariant
            pos <= n,
            n == text@.len(),
            builder.wf(),
            counts_within(builder@, pos as int),
            array_run(text@, pos as int, builder@) == array_run(text@, from, start),
        decreases n - pos,
    {
        let p = skip_whitespace(text, pos);
        proof {
            crate::parsing::lemma_skip_space_stops(text@, pos as int);
        }
        if p >= n {
            if builder.sealed {
                break ;
            }
            return Err(ArrayParsingError::EarlyTerm);
        }
        if builder.sealed {
            return Err(ArrayParsingError::Junk);
        }
        builder.current_command_char = p;
        let ghost at = builder@;
        proof {
            assert(at.wf());
            assert(counts_within(at, pos as int));
            assert(counts_within(at, p as int)) by {
                assert forall|j: int| 0 <= j < at.dimensions.len() implies (
                #[trigger] at.dimensions[j]).committed_element_count <= p by {
                    assert(at.dimensions[j].committed_element_count <= pos);
                }
            }
            lemma_steps_keep_order(at, None, true);
            lemma_steps_count(at, None, p as int);
        }
        let c = text[p];
        if c == 123 {
            match builder.enter_dim() {
                Err(e) => {
                    return Err(e);
                },
                Ok(()) => {},
            }
            pos = p + 1;
        } else if c == 125 {
            match builder.exit_dim() {
                Err(e) => {
                    return Err(e);
                },
                Ok(()) => {},
            }
            pos = p + 1;
        } else if c == 44 {
            match builder.commit_element(true) {
                Err(e) => {
                    return Err(e);
                },
                Ok(()) => {},
            }
            pos = p + 1;
        } else {
            let (s, behind) = match lex_array_element(text, p) {
                Err(e) => {
                    return Err(ArrayParsingError::Generic(e));
                },
                Ok(read) => read,
            };
            proof {
                lemma_steps_keep_order(at, raw_view(s), true);
                lemma_steps_count(at, raw_view(s), p as int);
            }
            match builder.insert_element(s) {
                Err(e) => {
                    return Err(e);
                },
                Ok(()) => {},
            }
            proof {
                assert forall|j: int| 0 <= j < builder@.dimensions.len() implies (
                #[trigger] builder@.dimensions[j]).committed_element_count <= behind by {
                    assert(builder@.dimensions[j].committed_element_count <= p + 1);
                }
            }
            pos = behind;
        }
    }
    if builder.elements.len() == 0 {
        // An array without elements has no dimensions, whatever its braces.
        assert(raw_views(builder.elements@) =~= Seq::<Option<Seq<u8>>>::empty());
        return Ok((Vec::new(), Vec::new()));
    }
    let mut dims: Vec<ArrayDimension> = Vec::new();
    let mut j: usize = 0;
    while j < builder.dimensions.len()
        invariant
            j <= builder.dimensions@.len(),
            dims@ == found_dimensions(builder.dimensions@.take(j as int)),
        decreases builder.dimensions@.len() - j,
    {
        let length = match builder.dimensions[j].length {
            Some(l) => l,
            None => 0,
        };
        dims.push(ArrayDimension { lower_bound: 1, length });
        assert(dims@ =~= found_dimensions(builder.dimensions@.take(j + 1)));
        j = j + 1;
    }
    assert(builder.dimensions@.take(builder.dimensions@.len() as int) =~= builder.dimensions@);
    Ok((builder.elements, dims))
}

/// What is said of the text `text` of an array that was not read.
pub open spec fn array_error_text(e: ArrayParsingError, text: Seq<u8>) -> Seq<u8> {
    match e {
        ArrayParsingError::OpeningBraceMissing => "Array value must start with \"{\"".spec_bytes(),
        ArrayParsingError::DimsUnsupported =>
            "Specifying array lower bounds is not supported".spec_bytes(),
        ArrayParsingError::Generic(lex) => crate::parsing::nested_error_text(
            crate::parsing::NestedError::Lex(lex),
            text,
        ),
        ArrayParsingError::UnexpectedChar { at } => "Unexpected \"".spec_bytes()
            + crate::lexing::char_bytes(text, at as int) + "\" character.".spec_bytes(),
        ArrayParsingError::NonRectilinearDims =>
            "Multidimensional arrays must have sub-arrays with matching dimensions.".spec_bytes(),
        ArrayParsingError::UnexpectedElement => "Unexpected array element.".spec_bytes(),
        ArrayParsingError::Junk => "Junk after closing right brace.".spec_bytes(),
        ArrayParsingError::EarlyTerm => "Unexpected end of input.".spec_bytes(),
    }
}

impl ArrayParsingError {
    /// `self` names only places within `text`.
    pub open spec fn within(self, text: Seq<u8>) -> bool {
        match self {
            ArrayParsingError::UnexpectedChar { at } => at < text.len(),
            ArrayParsingError::Generic(LexError::MustEscape { at }) => at < text.len(),
            _ => true,
        }
    }

    /// What is wrong with `text`, in words.
    pub fn message(&self, text: &[u8]) -> (out: Vec<u8>)
        requires
            self.within(text@),
        ensures
            out@ == array_error_text(*self, text@),
    {
        let mut out: Vec<u8> = Vec::new();
        match self {
            ArrayParsingError::OpeningBraceMissing => crate::strconv::write_str(
                &mut out,
                "Array value must start with \"{\"",
            ),
            ArrayParsingError::DimsUnsupported => crate::strconv::write_str(
                &mut out,
                "Specifying array lower bounds is not supported",
            ),
            ArrayParsingError::Generic(lex) => {
                return crate::parsing::NestedError::Lex(*lex).message(text);
            },
            ArrayParsingError::UnexpectedChar { at } => {
                crate::strconv::write_str(&mut out, "Unexpected \"");
                crate::strconv::write_bytes(&mut out, crate::lexing::char_at(text, *at));
                crate::strconv::write_str(&mut out, "\" character.");
            },
            ArrayParsingError::NonRectilinearDims => crate::strconv::write_str(
                &mut out,
                "Multidimensional arrays must have sub-arrays with matching dimensions.",
            ),
            ArrayParsingError::UnexpectedElement => crate::strconv::write_str(
                &mut out,
                "Unexpected array element.",
            ),
            ArrayParsingError::Junk => crate::strconv::write_str(
                &mut out,
                "Junk after closing right brace.",
            ),
            ArrayParsingError::EarlyTerm => crate::strconv::write_str(
                &mut out,
                "Unexpected end of input.",
            ),
        }
        assert(out@ =~= array_error_text(*self, text@));
        out
    }
}

} // verus!
