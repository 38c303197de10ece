//! The text of values that hold other values: lists, maps, records, ranges
//! and arrays.
//!
//! Every element is written by itself first. Where its text could be taken
//! for part of what surrounds it, it is put between quotes, with an escape
//! before every quote and backslash in it.

use crate::datum::ArrayDimension;
use crate::strconv::{
    null_word, write_bytes, write_null_word, ElementEscaper, ListElementEscaper,
    MapElementEscaper, Nestable, RecordElementEscaper,
};
use vstd::prelude::*;
use vstd::slice::slice_subrange;

verus! {

/// `n` in decimal digits, without leading zeros.
pub open spec fn decimal_digits(n: nat) -> Seq<u8>
    decreases n,
{
    if n < 10 {
        seq![(48 + n) as u8]
    } else {
        decimal_digits(n / 10).push((48 + n % 10) as u8)
    }
}

/// `i` in decimal digits, behind a minus sign where it is negative.
pub open spec fn signed_decimal(i: int) -> Seq<u8> {
    if i < 0 {
        seq![45u8] + decimal_digits((-i) as nat)
    } else {
        decimal_digits(i as nat)
    }
}

fn write_digits(buf: &mut Vec<u8>, n: u128)
    ensures
        final(buf)@ == old(buf)@ + decimal_digits(n as nat),
    decreases n,
{
    if n < 10 {
        buf.push(48 + n as u8);
        assert(buf@ =~= old(buf)@ + decimal_digits(n as nat));
    } else {
        write_digits(buf, n / 10);
        buf.push(48 + (n % 10) as u8);
        assert(buf@ =~= old(buf)@ + decimal_digits(n as nat));
    }
}

/// Writes `i` in decimal digits.
pub fn write_decimal(buf: &mut Vec<u8>, i: i128)
    requires
        i > i128::MIN,
    ensures
        final(buf)@ == old(buf)@ + signed_decimal(i as int),
{
    if i < 0 {
        buf.push(45);
        write_digits(buf, (-i) as u128);
        assert(buf@ =~= old(buf)@ + signed_decimal(i as int));
    } else {
        write_digits(buf, i as u128);
    }
}

/// Writes the 16-bit integer `i`.
pub fn format_int16(buf: &mut Vec<u8>, i: i16) -> (nestable: Nestable)
    ensures
        nestable == Nestable::Yes,
        final(buf)@ == old(buf)@ + signed_decimal(i as int),
{
    write_decimal(buf, i as i128);
    Nestable::Yes
}

/// Writes the 32-bit integer `i`.
pub fn format_int32(buf: &mut Vec<u8>, i: i32) -> (nestable: Nestable)
    ensures
        nestable == Nestable::Yes,
        final(buf)@ == old(buf)@ + signed_decimal(i as int),
{
    write_decimal(buf, i as i128);
    Nestable::Yes
}

/// Writes the 64-bit integer `i`.
pub fn format_int64(buf: &mut Vec<u8>, i: i64) -> (nestable: Nestable)
    ensures
        nestable == Nestable::Yes,
        final(buf)@ == old(buf)@ + signed_decimal(i as int),
{
    write_decimal(buf, i as i128);
    Nestable::Yes
}

/// Writes the unsigned 16-bit integer `u`.
pub fn format_uint16(buf: &mut Vec<u8>, u: u16) -> (nestable: Nestable)
    ensures
        nestable == Nestable::Yes,
        final(buf)@ == old(buf)@ + decimal_digits(u as nat),
{
    write_decimal(buf, u as i128);
    Nestable::Yes
}

/// Writes the unsigned 32-bit integer `u`.
pub fn format_uint32(buf: &mut Vec<u8>, u: u32) -> (nestable: Nestable)
    ensures
        nestable == Nestable::Yes,
        final(buf)@ == old(buf)@ + decimal_digits(u as nat),
{
    write_decimal(buf, u as i128);
    Nestable::Yes
}

/// Writes the unsigned 64-bit integer `u`.
pub fn format_uint64(buf: &mut Vec<u8>, u: u64) -> (nestable: Nestable)
    ensures
        nestable == Nestable::Yes,
        final(buf)@ == old(buf)@ + decimal_digits(u as nat),
{
    write_decimal(buf, u as i128);
    Nestable::Yes
}

/// Writes the timestamp `u` of the system.
pub fn format_mz_timestamp(buf: &mut Vec<u8>, u: u64) -> (nestable: Nestable)
    ensures
        nestable == Nestable::Yes,
        final(buf)@ == old(buf)@ + decimal_digits(u as nat),
{
    write_decimal(buf, u as i128);
    Nestable::Yes
}

/// `elem` with the escape of `E` before every quote and every backslash.
pub open spec fn escaped<E: ElementEscaper>(elem: Seq<u8>) -> Seq<u8>
    decreases elem.len(),
{
    if elem.len() == 0 {
        Seq::<u8>::empty()
    } else {
        let c = elem.last();
        escaped::<E>(elem.drop_last()) + if c == 34 || c == 92 {
            seq![E::escape_of(c), c]
        } else {
            seq![c]
        }
    }
}

/// `elem` as it stands inside a nested value: between quotes and escaped
/// where `E` says that it must be, and as it is otherwise.
pub open spec fn quoted<E: ElementEscaper>(elem: Seq<u8>) -> Seq<u8> {
    if E::must_escape(elem) {
        seq![34u8] + escaped::<E>(elem) + seq![34u8]
    } else {
        elem
    }
}

/// Puts what stands in `buf` from `start` on between quotes, with an
/// escape before every quote and backslash in it, if `E` says that it must
/// be; and leaves it as it is otherwise.
pub fn escape_elem<E: ElementEscaper>(buf: &mut Vec<u8>, start: usize)
    requires
        start <= old(buf)@.len(),
    ensures
        final(buf)@ == old(buf)@.take(start as int) + quoted::<E>(old(buf)@.skip(start as int)),
{
    let elem = copy_of(slice_subrange(buf.as_slice(), start, buf.len()));
    assert(elem@ =~= old(buf)@.skip(start as int));
    if !E::needs_escaping(elem.as_slice()) {
        assert(buf@ =~= old(buf)@.take(start as int) + old(buf)@.skip(start as int));
        return ;
    }
    buf.truncate(start);
    buf.push(34);
    let ghost head = old(buf)@.take(start as int) + seq![34u8];
    assert(buf@ =~= head + escaped::<E>(elem@.take(0))) by {
        assert(elem@.take(0) =~= Seq::<u8>::empty());
    }
    let mut i: usize = 0;
    while i < elem.len()
        invariant
            i <= elem.len(),
            buf@ == head + escaped::<E>(elem@.take(i as int)),
        decreases elem.len() - i,
    {
        let c = elem[i];
        proof {
            assert(elem@.take(i + 1).drop_last() =~= elem@.take(i as int));
            assert(elem@.take(i + 1).last() == c);
        }
        if c == 34 || c == 92 {
            buf.push(E::escape_char(c));
        }
        buf.push(c);
        assert(buf@ =~= head + escaped::<E>(elem@.take(i + 1)));
        i = i + 1;
    }
    buf.push(34);
    proof {
        assert(elem@.take(elem@.len() as int) =~= elem@);
        assert(buf@ =~= old(buf)@.take(start as int) + quoted::<E>(elem@));
    }
}

fn copy_of(bytes: &[u8]) -> (copy: Vec<u8>)
    ensures
        copy@ == bytes@,
{
    let mut copy: Vec<u8> = Vec::new();
    write_bytes(&mut copy, bytes);
    assert(Seq::<u8>::empty() + bytes@ =~= bytes@);
    copy
}

/// An element of a nested value as it was written by itself: nothing
/// where there is no value, or the text of the value, with whether it can
/// stand inside another value as it is.
#[derive(Debug, Clone, PartialEq, Eq)]
pub enum Element {
    Null,
    Value { text: Vec<u8>, nestable: Nestable },
}

/// What an `Element` holds.
pub enum ElementView {
    Null,
    Value { text: Seq<u8>, nestable: Nestable },
}

impl View for Element {
    type V = ElementView;

    open spec fn view(&self) -> ElementView {
        match self {
            Element::Null => ElementView::Null,
            Element::Value { text, nestable } => ElementView::Value {
                text: text@,
                nestable: *nestable,
            },
        }
    }
}

/// What the elements `elems` hold, in order.
pub open spec fn element_views(elems: Seq<Element>) -> Seq<ElementView> {
    elems.map_values(|e: Element| e@)
}

/// The element `e` as it stands inside a nested value whose escaping is
/// `E`: `null` where there is no value, the text quoted where it may need
/// it, and the text as it is otherwise.
pub open spec fn element_text<E: ElementEscaper>(e: ElementView, null: Seq<u8>) -> Seq<u8> {
    match e {
        ElementView::Null => null,
        ElementView::Value { text, nestable } => if nestable is MayNeedEscaping {
            quoted::<E>(text)
        } else {
            text
        },
    }
}

/// The elements `elems` one after the other, with `sep` between them.
pub open spec fn elements_text<E: ElementEscaper>(
    elems: Seq<ElementView>,
    sep: u8,
    null: Seq<u8>,
) -> Seq<u8>
    decreases elems.len(),
{
    if elems.len() == 0 {
        Seq::<u8>::empty()
    } else if elems.len() == 1 {
        element_text::<E>(elems[0], null)
    } else {
        elements_text::<E>(elems.drop_last(), sep, null) + seq![sep] + element_text::<E>(
            elems.last(),
            null,
        )
    }
}

/// Writes the element `e` as it stands inside a nested value whose
/// escaping is `E`.
pub fn write_element<E: ElementEscaper>(buf: &mut Vec<u8>, e: &Element, null: &[u8])
    ensures
        final(buf)@ == old(buf)@ + element_text::<E>(e@, null@),
{
    let start = buf.len();
    match e {
        Element::Null => {
            write_bytes(buf, null);
        },
        Element::Value { text, nestable } => {
            write_bytes(buf, text.as_slice());
            let ghost written = buf@;
            assert(written.take(start as int) =~= old(buf)@);
            assert(written.skip(start as int) =~= text@);
            match nestable {
                Nestable::MayNeedEscaping => {
                    escape_elem::<E>(buf, start);
                },
                Nestable::Yes => {},
            }
        },
    }
}

fn write_elements<E: ElementEscaper>(buf: &mut Vec<u8>, elems: &[Element], sep: u8, null: &[u8])
    ensures
        final(buf)@ == old(buf)@ + elements_text::<E>(element_views(elems@), sep, null@),
{
    let ghost all = element_views(elems@);
    let mut i: usize = 0;
    proof {
        assert(all.take(0) =~= Seq::<ElementView>::empty());
        assert(buf@ =~= old(buf)@ + elements_text::<E>(all.take(0), sep, null@));
    }
    while i < elems.len()
        invariant
            i <= elems.len(),
            all == element_views(elems@),
            buf@ == old(buf)@ + elements_text::<E>(all.take(i as int), sep, null@),
        decreases elems.len() - i,
    {
        proof {
            assert(all.take(i + 1).drop_last() =~= all.take(i as int));
            assert(all.take(i + 1).last() == elems@[i as int]@);
        }
        if i > 0 {
            buf.push(sep);
        }
        write_element::<E>(buf, &elems[i], null);
        proof {
            if i == 0 {
                assert(all.take(1)[0] == elems@[0]@);
                assert(buf@ =~= old(buf)@ + elements_text::<E>(all.take(1), sep, null@));
            } else {
                assert(buf@ =~= old(buf)@ + (elements_text::<E>(all.take(i as int), sep, null@)
                    + seq![sep] + element_text::<E>(elems@[i as int]@, null@)));
            }
        }
        i = i + 1;
    }
    proof {
        assert(all.take(elems@.len() as int) =~= all);
    }
}

/// Writes the elements `elems` one after the other, with `sep` between
/// them, as the elements of a list: `NULL` where there is no value.
pub fn format_elems(buf: &mut Vec<u8>, elems: &[Element], sep: u8)
    ensures
        final(buf)@ == old(buf)@ + elements_text::<ListElementEscaper>(
            element_views(elems@),
            sep,
            null_word(),
        ),
{
    let null: [u8; 4] = [78, 85, 76, 76];
    assert(null@ =~= null_word());
    write_elements::<ListElementEscaper>(buf, elems, sep, null.as_slice());
}

/// Writes a list of the elements `elems`: between braces, with commas
/// between them.
pub fn format_list(buf: &mut Vec<u8>, elems: &[Element]) -> (nestable: Nestable)
    ensures
        nestable == Nestable::Yes,
        final(buf)@ == old(buf)@ + seq![123u8] + elements_text::<ListElementEscaper>(
            element_views(elems@),
            44u8,
            null_word(),
        ) + seq![125u8],
{
    buf.push(123);
    assert(buf@ =~= old(buf)@ + seq![123u8]);
    format_elems(buf, elems, 44);
    buf.push(125);
    Nestable::Yes
}

/// Writes a vector of the old kind of the elements `elems`: with blanks
/// between them.
pub fn format_legacy_vector(buf: &mut Vec<u8>, elems: &[Element]) -> (nestable: Nestable)
    ensures
        nestable == Nestable::MayNeedEscaping,
        final(buf)@ == old(buf)@ + elements_text::<ListElementEscaper>(
            element_views(elems@),
            32u8,
            null_word(),
        ),
{
    format_elems(buf, elems, 32);
    Nestable::MayNeedEscaping
}

/// Writes a record of the elements `elems`: between parentheses, with
/// commas between them, and nothing where there is no value.
pub fn format_record(buf: &mut Vec<u8>, elems: &[Element]) -> (nestable: Nestable)
    ensures
        nestable == Nestable::MayNeedEscaping,
        final(buf)@ == old(buf)@ + seq![40u8] + elements_text::<RecordElementEscaper>(
            element_views(elems@),
            44u8,
            Seq::<u8>::empty(),
        ) + seq![41u8],
{
    buf.push(40);
    assert(buf@ =~= old(buf)@ + seq![40u8]);
    let null: [u8; 0] = [];
    assert(null@ =~= Seq::<u8>::empty());
    write_elements::<RecordElementEscaper>(buf, elems, 44, null.as_slice());
    buf.push(41);
    Nestable::MayNeedEscaping
}

/// What the entries `entries` of a map hold, in order.
pub open spec fn entry_views(entries: Seq<(Vec<u8>, Element)>) -> Seq<(Seq<u8>, ElementView)> {
    entries.map_values(|e: (Vec<u8>, Element)| (e.0@, e.1@))
}

/// One entry of a map: the key, an arrow and the value.
pub open spec fn entry_text(entry: (Seq<u8>, ElementView)) -> Seq<u8> {
    quoted::<MapElementEscaper>(entry.0) + seq![61u8, 62u8] + element_text::<MapElementEscaper>(
        entry.1,
        null_word(),
    )
}

/// The entries `entries` of a map one after the other, with commas
/// between them.
pub open spec fn entries_text(entries: Seq<(Seq<u8>, ElementView)>) -> Seq<u8>
    decreases entries.len(),
{
    if entries.len() == 0 {
        Seq::<u8>::empty()
    } else if entries.len() == 1 {
        entry_text(entries[0])
    } else {
        entries_text(entries.drop_last()) + seq![44u8] + entry_text(entries.last())
    }
}

/// Writes a map of the entries `entries`: between braces, every key with
/// an arrow and its value, with commas between them.
pub fn format_map(buf: &mut Vec<u8>, entries: &[(Vec<u8>, Element)]) -> (nestable: Nestable)
    ensures
        nestable == Nestable::Yes,
        final(buf)@ == old(buf)@ + seq![123u8] + entries_text(entry_views(entries@)) + seq![
            125u8,
        ],
{
    let ghost all = entry_views(entries@);
    let null: [u8; 4] = [78, 85, 76, 76];
    assert(null@ =~= null_word());
    buf.push(123);
    let ghost head = old(buf)@ + seq![123u8];
    let mut i: usize = 0;
    proof {
        assert(all.take(0) =~= Seq::<(Seq<u8>, ElementView)>::empty());
        assert(buf@ =~= head + entries_text(all.take(0)));
    }
    while i < entries.len()
        invariant
            i <= entries.len(),
            all == entry_views(entries@),
            null@ == null_word(),
            buf@ == head + entries_text(all.take(i as int)),
        decreases entries.len() - i,
    {
        proof {
            assert(all.take(i + 1).drop_last() =~= all.take(i as int));
            assert(all.take(i + 1).last() == (entries@[i as int].0@, entries@[i as int].1@));
        }
        let ghost before = buf@;
        if i > 0 {
            buf.push(44);
        }
        // A key is a text, which may always need to be escaped.
        let key_start = buf.len();
        write_bytes(buf, entries[i].0.as_slice());
        let ghost with_key = buf@;
        assert(with_key.skip(key_start as int) =~= entries@[i as int].0@);
        escape_elem::<MapElementEscaper>(buf, key_start);
        let ghost keyed = buf@;
        assert(keyed =~= with_key.take(key_start as int) + quoted::<MapElementEscaper>(
            entries@[i as int].0@,
        ));
        buf.push(61);
        buf.push(62);
        write_element::<MapElementEscaper>(buf, &entries[i].1, null.as_slice());
        proof {
            let entry = entry_text(all.take(i + 1).last());
            if i == 0 {
                assert(with_key.take(key_start as int) =~= head);
                assert(all.take(1)[0] == all.take(1).last());
                assert(buf@ =~= head + entry);
            } else {
                assert(with_key.take(key_start as int) =~= before + seq![44u8]);
                assert(buf@ =~= head + (entries_text(all.take(i as int)) + seq![44u8] + entry));
            }
        }
        i = i + 1;
    }
    buf.push(125);
    proof {
        assert(all.take(entries@.len() as int) =~= all);
    }
    Nestable::Yes
}

/// The two ends of a range as they were written by themselves, and
/// whether each belongs to the range. An end without a value is an end
/// without a bound.
#[derive(Debug, Clone, PartialEq, Eq)]
pub struct RangeText {
    pub lower_inclusive: bool,
    pub lower: Element,
    pub upper_inclusive: bool,
    pub upper: Element,
}

/// The text of a range: `empty`, or the two ends between brackets where
/// they belong to the range and parentheses where they do not, with a comma
/// between them and nothing for an end without a bound.
pub open spec fn range_text(range: Option<RangeText>) -> Seq<u8> {
    match range {
        None => seq![101u8, 109u8, 112u8, 116u8, 121u8],
        Some(r) => seq![
            if r.lower_inclusive {
                91u8
            } else {
                40u8
            },
        ] + element_text::<ListElementEscaper>(r.lower@, Seq::<u8>::empty()) + seq![44u8]
            + element_text::<ListElementEscaper>(r.upper@, Seq::<u8>::empty()) + seq![
            if r.upper_inclusive {
                93u8
            } else {
                41u8
            },
        ],
    }
}

/// Writes the range `range`; no range is the empty range.
pub fn format_range(buf: &mut Vec<u8>, range: &Option<RangeText>) -> (nestable: Nestable)
    ensures
        nestable == Nestable::MayNeedEscaping,
        final(buf)@ == old(buf)@ + range_text(*range),
{
    match range {
        None => {
            buf.push(101);
            buf.push(109);
            buf.push(112);
            buf.push(116);
            buf.push(121);
            assert(buf@ =~= old(buf)@ + range_text(*range));
        },
        Some(r) => {
            let null: [u8; 0] = [];
            assert(null@ =~= Seq::<u8>::empty());
            buf.push(if r.lower_inclusive {
                91
            } else {
                40
            });
            write_element::<ListElementEscaper>(buf, &r.lower, null.as_slice());
            buf.push(44);
            write_element::<ListElementEscaper>(buf, &r.upper, null.as_slice());
            buf.push(if r.upper_inclusive {
                93
            } else {
                41
            });
            assert(buf@ =~= old(buf)@ + range_text(*range));
        },
    }
    Nestable::MayNeedEscaping
}

/// The number of elements that an array with the dimensions `dims` is
/// written with: the product of the lengths, and none without dimensions.
pub open spec fn array_count(dims: Seq<ArrayDimension>) -> nat
    decreases dims.len(),
{
    if dims.len() == 0 {
        0
    } else if dims.len() == 1 {
        dims[0].length as nat
    } else {
        dims[0].length as nat * array_count(dims.drop_first())
    }
}

/// An array with the dimensions `dims` whose elements are the first of
/// `elems`: between braces, with commas between them, what stands along the
/// first dimension; which are elements where there is one dimension, and
/// arrays with the other dimensions where there are more.
pub open spec fn array_body(dims: Seq<ArrayDimension>, elems: Seq<ElementView>) -> Seq<u8>
    decreases dims.len(), if dims.len() > 0 {
        dims[0].length + 1
    } else {
        0
    },
{
    if dims.len() == 0 {
        seq![123u8, 125u8]
    } else {
        seq![123u8] + array_rows(dims, elems, dims[0].length as nat) + seq![125u8]
    }
}

/// The first `n` of what stands along the first dimension of an array with
/// the dimensions `dims`, with commas between them.
pub open spec fn array_rows(dims: Seq<ArrayDimension>, elems: Seq<ElementView>, n: nat) -> Seq<u8>
    decreases dims.len(), n,
{
    if n == 0 || dims.len() == 0 {
        Seq::<u8>::empty()
    } else {
        let before = array_rows(dims, elems, (n - 1) as nat) + if n > 1 {
            seq![44u8]
        } else {
            Seq::<u8>::empty()
        };
        if dims.len() == 1 {
            before + if n - 1 < elems.len() {
                element_text::<ListElementEscaper>(elems[n - 1], null_word())
            } else {
                Seq::<u8>::empty()
            }
        } else {
            before + array_body(
                dims.drop_first(),
                elems.skip((n - 1) * array_count(dims.drop_first())),
            )
        }
    }
}

/// The bounds of the dimensions `dims`, each as its first and its last
/// index between brackets with a colon between them.
pub open spec fn bounds_text(dims: Seq<ArrayDimension>) -> Seq<u8>
    decreases dims.len(),
{
    if dims.len() == 0 {
        Seq::<u8>::empty()
    } else {
        let d = dims.last();
        bounds_text(dims.drop_last()) + seq![91u8] + signed_decimal(d.lower_bound as int) + seq![
            58u8,
        ] + signed_decimal(d.lower_bound + d.length - 1) + seq![93u8]
    }
}

/// Some dimension of `dims` does not begin at the index one.
pub open spec fn has_custom_bounds(dims: Seq<ArrayDimension>) -> bool {
    exists|i: int| 0 <= i < dims.len() && (#[trigger] dims[i]).lower_bound != 1
}

/// What stands before an array with the dimensions `dims`: the bounds of
/// all dimensions and an equals sign, where some dimension does not begin at
/// the index one, and nothing otherwise.
pub open spec fn array_header(dims: Seq<ArrayDimension>) -> Seq<u8> {
    if has_custom_bounds(dims) {
        bounds_text(dims) + seq![61u8]
    } else {
        Seq::<u8>::empty()
    }
}

/// Writes an array with the dimensions `dims` whose elements are those of
/// `elems` from the place `from` on, and gives the place behind the last
/// that was written.
pub fn format_array_inner(
    buf: &mut Vec<u8>,
    dims: &[ArrayDimension],
    elems: &[Element],
    from: usize,
) -> (next: usize)
    requires
        from + array_count(dims@) <= elems@.len(),
    ensures
        next == from + array_count(dims@),
        final(buf)@ == old(buf)@ + array_body(dims@, element_views(elems@).skip(from as int)),
    decreases dims@.len(),
{
    if dims.len() == 0 {
        buf.push(123);
        buf.push(125);
        assert(buf@ =~= old(buf)@ + seq![123u8, 125u8]);
        return from;
    }
    let ghost all = element_views(elems@).skip(from as int);
    let rest = slice_subrange(dims, 1, dims.len());
    assert(rest@ =~= dims@.drop_first());
    let ghost each = if dims@.len() == 1 {
        1nat
    } else {
        array_count(rest@)
    };
    let null: [u8; 4] = [78, 85, 76, 76];
    assert(null@ =~= null_word());
    buf.push(123);
    let ghost head = old(buf)@ + seq![123u8];
    let length = dims[0].length;
    let mut pos = from;
    let mut j: usize = 0;
    proof {
        assert(buf@ =~= head + array_rows(dims@, all, 0));
        assert(array_count(dims@) == length * each) by (nonlinear_arith)
            requires
                array_count(dims@) == if dims@.len() == 1 {
                    length as nat
                } else {
                    length as nat * array_count(rest@)
                },
                each == if dims@.len() == 1 {
                    1nat
                } else {
                    array_count(rest@)
                },
        ;
    }
    while j < length
        invariant
            j <= length,
            dims@.len() > 0,
            length == dims@[0].length,
            rest@ == dims@.drop_first(),
            each == if dims@.len() == 1 {
                1nat
            } else {
                array_count(rest@)
            },
            all == element_views(elems@).skip(from as int),
            null@ == null_word(),
            pos == from + j * each,
            from + length * each <= elems@.len(),
            buf@ == head + array_rows(dims@, all, j as nat),
        decreases length - j,
    {
        proof {
            assert((j + 1) * each == j * each + each && (j + 1) * each <= length * each)
                by (nonlinear_arith)
                requires
                    j < length,
            ;
        }
        if j > 0 {
            buf.push(44);
        }
        if dims.len() == 1 {
            write_element::<ListElementEscaper>(buf, &elems[pos], null.as_slice());
            proof {
                assert(all[j as int] == elems@[pos as int]@);
                assert(buf@ =~= head + array_rows(dims@, all, (j + 1) as nat));
            }
            pos = pos + 1;
        } else {
            let ghost inner = element_views(elems@).skip(pos as int);
            assert(inner =~= all.skip(j * each));
            pos = format_array_inner(buf, rest, elems, pos);
            proof {
                assert(buf@ =~= head + array_rows(dims@, all, (j + 1) as nat));
            }
        }
        j = j + 1;
    }
    buf.push(125);
    pos
}

/// Writes the bounds of the dimensions `dims`.
pub fn format_bounds(buf: &mut Vec<u8>, dims: &[ArrayDimension])
    ensures
        final(buf)@ == old(buf)@ + bounds_text(dims@),
{
    let mut i: usize = 0;
    proof {
        assert(dims@.take(0) =~= Seq::<ArrayDimension>::empty());
        assert(buf@ =~= old(buf)@ + bounds_text(dims@.take(0)));
    }
    while i < dims.len()
        invariant
            i <= dims.len(),
            buf@ == old(buf)@ + bounds_text(dims@.take(i as int)),
        decreases dims.len() - i,
    {
        let d = &dims[i];
        proof {
            assert(dims@.take(i + 1).drop_last() =~= dims@.take(i as int));
            assert(dims@.take(i + 1).last() == dims@[i as int]);
        }
        buf.push(91);
        write_decimal(buf, d.lower_bound as i128);
        buf.push(58);
        write_decimal(buf, d.lower_bound as i128 + d.length as i128 - 1);
        buf.push(93);
        assert(buf@ =~= old(buf)@ + bounds_text(dims@.take(i + 1)));
        i = i + 1;
    }
    assert(dims@.take(dims@.len() as int) =~= dims@);
}

fn any_custom_bounds(dims: &[ArrayDimension]) -> (b: bool)
    ensures
        b == has_custom_bounds(dims@),
{
    let mut i: usize = 0;
    while i < dims.len()
        invariant
            i <= dims.len(),
            forall|k: int| 0 <= k < i ==> (#[trigger] dims@[k]).lower_bound == 1,
        decreases dims.len() - i,
    {
        if dims[i].lower_bound != 1 {
            return true;
        }
        i = i + 1;
    }
    false
}

/// Writes an array with the dimensions `dims` and the elements `elems`,
/// which must be as many as the dimensions say, or more: the bounds of the
/// dimensions where some dimension does not begin at the index one, and then
/// the elements within braces, one pair of braces for every dimension.
pub fn format_array(buf: &mut Vec<u8>, dims: &[ArrayDimension], elems: &[Element]) -> (nestable:
    Nestable)
    requires
        array_count(dims@) <= elems@.len(),
    ensures
        nestable == Nestable::Yes,
        final(buf)@ == old(buf)@ + array_header(dims@) + array_body(
            dims@,
            element_views(elems@),
        ),
{
    if any_custom_bounds(dims) {
        format_bounds(buf, dims);
        buf.push(61);
        assert(buf@ =~= old(buf)@ + array_header(dims@));
    } else {
        assert(buf@ =~= old(buf)@ + array_header(dims@));
    }
    assert(element_views(elems@).skip(0) =~= element_views(elems@));
    let _ = format_array_inner(buf, dims, elems, 0);
    Nestable::Yes
}

} // verus!
