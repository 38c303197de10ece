//! Rows: sequences of datums packed into one buffer of bytes.
//!
//! A `Row` holds the packed forms of some datums, one after the other, and
//! nothing else. What it holds is written through a `RowPacker`, which only
//! appends, and is read back datum by datum.

use crate::buffer::{
    buffer_as_slice, buffer_bytes, buffer_capacity, buffer_clone, buffer_copy_within, buffer_empty,
    buffer_extend, buffer_len, buffer_limit, buffer_push, buffer_set, buffer_spilled,
    buffer_truncate, buffer_with_capacity,
};
use crate::datum::{Datum, DatumList, DatumMap, DatumView};
use crate::decoding::{decode_datum, decode_datums, lemma_decode_extent, read_datum};
use crate::encoding::{
    all_wf, datum_size, encode_datum, encode_datums, lemma_encode_nonempty, lengthed_encoding,
    push_datum,
};
use crate::roundtrip::{lemma_decode_encode, lemma_decode_encode_datums, lemma_encode_datums_front};
use crate::tag::Tag;
use compact_bytes::CompactBytes;
use vstd::prelude::*;

verus! {

/// What the datums of `ds` hold, in order.
pub open spec fn views(ds: Seq<Datum>) -> Seq<DatumView> {
    ds.map_values(|d: Datum| d@)
}

/// `bytes` are the packed forms of some datums, one after the other.
pub open spec fn is_packed(bytes: Seq<u8>) -> bool {
    decode_datums(bytes) matches Some(ds) && all_wf(ds) && encode_datums(ds) == bytes
}

/// The datums whose packed forms `bytes` are.
pub open spec fn datums_of(bytes: Seq<u8>) -> Seq<DatumView> {
    decode_datums(bytes)->0
}

/// The bytes that a row takes besides those on the heap.
pub const ROW_INLINE_SIZE: usize = 24;

/// The most bytes of datums that a row holds without a heap allocation.
pub const ROW_MAX_INLINE: usize = 23;

/// The packed forms of datums are packed, and are read back as those datums.
pub proof fn lemma_packed_encoding(ds: Seq<DatumView>)
    requires
        all_wf(ds),
    ensures
        is_packed(encode_datums(ds)),
        datums_of(encode_datums(ds)) == ds,
{
    lemma_decode_encode_datums(ds);
}

/// Appending the packed form of one more datum keeps bytes packed.
pub proof fn lemma_packed_push(bytes: Seq<u8>, d: DatumView)
    requires
        is_packed(bytes),
        d.wf(),
    ensures
        is_packed(bytes + encode_datum(d)),
        datums_of(bytes + encode_datum(d)) == datums_of(bytes).push(d),
{
    let ds = datums_of(bytes).push(d);
    assert(ds.drop_last() =~= datums_of(bytes));
    assert(all_wf(ds)) by {
        assert forall|i: int| 0 <= i < ds.len() implies (#[trigger] ds[i]).wf() by {
            if i < ds.len() - 1 {
                assert(ds[i] == datums_of(bytes)[i]);
            }
        }
    }
    lemma_packed_encoding(ds);
}

/// Every datum of a part of `ds` can be packed if every datum of `ds` can.
pub proof fn lemma_all_wf_take(ds: Seq<DatumView>, n: int)
    requires
        all_wf(ds),
        0 <= n <= ds.len(),
    ensures
        all_wf(ds.take(n)),
{
    assert forall|i: int| 0 <= i < n implies (#[trigger] ds.take(n)[i]).wf() by {
        assert(ds.take(n)[i] == ds[i]);
    }
}

/// The packed forms of the first `n` datums open the packed forms of all,
/// and the next datum follows them.
pub proof fn lemma_encode_datums_take(ds: Seq<DatumView>, n: int)
    requires
        0 <= n <= ds.len(),
    ensures
        encode_datums(ds.take(n)).len() <= encode_datums(ds).len(),
        encode_datums(ds.take(n)) == encode_datums(ds).take(encode_datums(ds.take(n)).len() as int),
        n < ds.len() ==> encode_datums(ds.take(n + 1)) == encode_datums(ds.take(n)) + encode_datum(
            ds[n],
        ),
    decreases ds.len() - n,
{
    if n < ds.len() {
        assert(ds.take(n + 1).drop_last() =~= ds.take(n));
        assert(ds.take(n + 1).last() == ds[n]);
        lemma_encode_datums_take(ds, n + 1);
        let short = encode_datums(ds.take(n));
        let longer = encode_datums(ds.take(n + 1));
        let all = encode_datums(ds);
        assert(longer == short + encode_datum(ds[n]));
        assert(short =~= all.take(short.len() as int));
    } else {
        assert(ds.take(n) =~= ds);
        assert(encode_datums(ds) =~= encode_datums(ds).take(encode_datums(ds).len() as int));
    }
}

/// The views of a sequence with one more datum.
pub proof fn lemma_views_push(ds: Seq<Datum>, d: Datum)
    ensures
        views(ds.push(d)) == views(ds).push(d@),
{
    assert(views(ds.push(d)) =~= views(ds).push(d@));
}

/// A sequence of datums in packed form.
#[derive(Debug)]
pub struct Row {
    pub(crate) data: CompactBytes,
}

impl View for Row {
    type V = Seq<u8>;

    closed spec fn view(&self) -> Seq<u8> {
        buffer_bytes(self.data)
    }
}

/// Writes datums to the end of a row.
pub struct RowPacker<'a> {
    pub row: &'a mut Row,
}

impl<'a> View for RowPacker<'a> {
    type V = Seq<u8>;

    open spec fn view(&self) -> Seq<u8> {
        self.row@
    }
}

/// The bytes of a row, borrowed.
#[derive(Clone, Copy)]
pub struct RowRef<'a> {
    data: &'a [u8],
}

impl<'a> View for RowRef<'a> {
    type V = Seq<u8>;

    closed spec fn view(&self) -> Seq<u8> {
        self.data@
    }
}

/// Reads datums one after the other from packed bytes.
pub struct DatumListIter<'a> {
    data: &'a [u8],
    pos: usize,
}

/// Reads the keys and values of a map one pair after the other.
pub struct DatumDictIter<'a> {
    data: &'a [u8],
    pos: usize,
}

impl Row {
    /// The row holds packed datums and has not outgrown its buffer.
    pub open spec fn wf(&self) -> bool {
        is_packed(self@) && self@.len() <= buffer_limit()
    }

    /// The datums of the row.
    pub open spec fn datums(&self) -> Seq<DatumView> {
        datums_of(self@)
    }

    /// A row without datums.
    pub fn empty() -> (row: Row)
        ensures
            row@ == Seq::<u8>::empty(),
            row.wf(),
    {
        let row = Row { data: buffer_empty() };
        proof {
            lemma_packed_encoding(Seq::<DatumView>::empty());
        }
        row
    }

    /// A row without datums that has room for `cap` bytes.
    pub fn with_capacity(cap: usize) -> (row: Row)
        requires
            cap <= buffer_limit(),
        ensures
            row@ == Seq::<u8>::empty(),
            row.wf(),
    {
        let row = Row { data: buffer_with_capacity(cap) };
        proof {
            lemma_packed_encoding(Seq::<DatumView>::empty());
        }
        row
    }

    /// A row that holds `data`, which must be the packed forms of datums.
    pub fn from_bytes_unchecked(data: &[u8]) -> (row: Row)
        requires
            is_packed(data@),
            data@.len() <= buffer_limit(),
        ensures
            row@ == data@,
            row.wf(),
    {
        let mut row = Row { data: buffer_empty() };
        buffer_extend(&mut row.data, data);
        assert(Seq::<u8>::empty() + data@ =~= data@);
        row
    }

    /// Starts packing into this row, whose datums are dropped first. The
    /// buffer is kept.
    pub fn packer(&mut self) -> (packer: RowPacker<'_>)
        ensures
            packer@ == Seq::<u8>::empty(),
            final(self)@ == final(packer.row)@,
    {
        buffer_truncate(&mut self.data, 0);
        RowPacker { row: self }
    }

    /// A row that holds `datums`.
    pub fn pack(datums: &[Datum]) -> (row: Row)
        requires
            all_wf(views(datums@)),
            encode_datums(views(datums@)).len() <= buffer_limit(),
        ensures
            row@ == encode_datums(views(datums@)),
            row.wf(),
            row.datums() == views(datums@),
    {
        let mut row = Row::empty();
        let mut packer = row.packer();
        packer.extend(datums);
        proof {
            lemma_packed_encoding(views(datums@));
            assert(Seq::<u8>::empty() + encode_datums(views(datums@)) =~= encode_datums(
                views(datums@),
            ));
        }
        row
    }

    /// Packs `datums` into this row, whose former datums are dropped, and
    /// gives a copy of it.
    pub fn pack_using(&mut self, datums: &[Datum]) -> (row: Row)
        requires
            all_wf(views(datums@)),
            encode_datums(views(datums@)).len() <= buffer_limit(),
        ensures
            row@ == encode_datums(views(datums@)),
            final(self)@ == row@,
            row.wf(),
            row.datums() == views(datums@),
    {
        let mut packer = self.packer();
        packer.extend(datums);
        proof {
            lemma_packed_encoding(views(datums@));
            assert(Seq::<u8>::empty() + encode_datums(views(datums@)) =~= encode_datums(
                views(datums@),
            ));
        }
        self.clone_row()
    }

    /// A row that holds the datums of `items`, or the first error among
    /// them.
    pub fn try_pack<E>(items: Vec<Result<Datum, E>>) -> (r: Result<Row, E>)
        requires
            forall|i: int|
                0 <= i < items@.len() ==> (#[trigger] items@[i] matches Ok(d) ==> d@.wf()),
            encode_datums(ok_prefix(items@)).len() <= buffer_limit(),
        ensures
            match r {
                Ok(row) => first_error(items@) is None && row@ == encode_datums(
                    ok_prefix(items@),
                ) && row.wf(),
                Err(e) => first_error(items@) == Some(e),
            },
    {
        let mut row = Row::empty();
        let mut packer = row.packer();
        let r = packer.try_extend(items);
        proof {
            lemma_ok_prefix_wf(items@);
            lemma_packed_encoding(ok_prefix(items@));
            assert(Seq::<u8>::empty() + encode_datums(ok_prefix(items@)) =~= encode_datums(
                ok_prefix(items@),
            ));
        }
        match r {
            Ok(()) => Ok(row),
            Err(e) => Err(e),
        }
    }

    /// A row that holds the datums of `slice`, its buffer allocated once.
    pub fn pack_slice(slice: &[Datum]) -> (row: Row)
        requires
            all_wf(views(slice@)),
            encode_datums(views(slice@)).len() <= buffer_limit(),
        ensures
            row@ == encode_datums(views(slice@)),
            row.wf(),
            row.datums() == views(slice@),
    {
        let mut row = Row::with_capacity(datums_size(slice));
        let mut packer = row.packer();
        packer.extend(slice);
        proof {
            lemma_packed_encoding(views(slice@));
            assert(Seq::<u8>::empty() + encode_datums(views(slice@)) =~= encode_datums(
                views(slice@),
            ));
        }
        row
    }

    /// The bytes that this row takes in memory: those of the row itself,
    /// and those of its datums where they lie on the heap. Datums of more
    /// than `ROW_MAX_INLINE` bytes always do.
    pub fn byte_len(&self) -> (n: usize)
        ensures
            n == ROW_INLINE_SIZE + self@.len() || (n == ROW_INLINE_SIZE && self@.len()
                <= ROW_MAX_INLINE) || (n == usize::MAX && ROW_INLINE_SIZE + self@.len()
                > usize::MAX),
    {
        let heap_size = if buffer_spilled(&self.data) {
            buffer_len(&self.data)
        } else {
            0
        };
        if heap_size > usize::MAX - ROW_INLINE_SIZE {
            usize::MAX
        } else {
            ROW_INLINE_SIZE + heap_size
        }
    }

    /// The number of bytes of the packed datums.
    pub fn data_len(&self) -> (n: usize)
        ensures
            n == self@.len(),
    {
        buffer_len(&self.data)
    }

    /// The number of bytes that the row can hold before its buffer grows.
    pub fn byte_capacity(&self) -> (n: usize)
        ensures
            n >= self@.len(),
    {
        buffer_capacity(&self.data)
    }

    /// The packed bytes.
    pub fn data(&self) -> (bytes: &[u8])
        ensures
            bytes@ == self@,
    {
        buffer_as_slice(&self.data)
    }

    /// The bytes of the whole row, borrowed.
    pub fn as_row_ref(&self) -> (r: RowRef<'_>)
        ensures
            r@ == self@,
    {
        RowRef { data: buffer_as_slice(&self.data) }
    }

    /// A reader of the datums of the row, from the first on.
    pub fn iter(&self) -> (it: DatumListIter<'_>)
        ensures
            it.rest() == self@,
            it.wf(),
    {
        DatumListIter { data: buffer_as_slice(&self.data), pos: 0 }
    }

    /// The datums of the row.
    pub fn unpack(&self) -> (datums: Vec<Datum>)
        requires
            self.wf(),
        ensures
            views(datums@) == self.datums(),
    {
        self.as_row_ref().unpack()
    }

    /// The first datum of the row. The row must hold one.
    pub fn unpack_first(&self) -> (datum: Datum)
        requires
            self.wf(),
            self@.len() > 0,
        ensures
            self.datums().len() > 0,
            datum@ == self.datums()[0],
    {
        self.as_row_ref().unpack_first()
    }

    /// Whether the row holds no datum.
    pub fn is_empty(&self) -> (b: bool)
        ensures
            b == (self@.len() == 0),
    {
        buffer_len(&self.data) == 0
    }

    /// A copy of the row.
    pub fn clone_row(&self) -> (row: Row)
        ensures
            row@ == self@,
    {
        Row { data: buffer_clone(&self.data) }
    }

    /// Drops the datums of the row and keeps its buffer.
    pub(crate) fn clear(&mut self)
        ensures
            final(self)@ == Seq::<u8>::empty(),
    {
        buffer_truncate(&mut self.data, 0);
    }

    pub(crate) fn push_byte(&mut self, byte: u8)
        requires
            old(self)@.len() + 1 <= buffer_limit(),
        ensures
            final(self)@ == old(self)@ + seq![byte],
    {
        buffer_push(&mut self.data, byte);
        assert(old(self)@.push(byte) =~= old(self)@ + seq![byte]);
    }

    pub(crate) fn extend_bytes(&mut self, bytes: &[u8])
        requires
            old(self)@.len() + bytes@.len() <= buffer_limit(),
        ensures
            final(self)@ == old(self)@ + bytes@,
    {
        buffer_extend(&mut self.data, bytes);
    }

    pub(crate) fn truncate_bytes(&mut self, len: usize)
        requires
            len <= old(self)@.len(),
        ensures
            final(self)@ == old(self)@.take(len as int),
    {
        buffer_truncate(&mut self.data, len);
        assert(old(self)@.take(old(self)@.len() as int) =~= old(self)@);
    }

    pub(crate) fn set_byte(&mut self, index: usize, byte: u8)
        requires
            index < old(self)@.len(),
        ensures
            final(self)@ == old(self)@.update(index as int, byte),
    {
        buffer_set(&mut self.data, index, byte);
    }

    pub(crate) fn copy_within(&mut self, from: usize, to: usize, dest: usize)
        requires
            from <= to <= old(self)@.len(),
            dest + (to - from) <= old(self)@.len(),
        ensures
            final(self)@.len() == old(self)@.len(),
            forall|i: int|
                0 <= i < old(self)@.len() ==> #[trigger] final(self)@[i] == if dest <= i < dest + (
                to - from) {
                    old(self)@[from + i - dest]
                } else {
                    old(self)@[i]
                },
    {
        buffer_copy_within(&mut self.data, from, to, dest);
    }

    pub(crate) fn push_one(&mut self, datum: &Datum)
        requires
            datum@.wf(),
            old(self)@.len() + encode_datum(datum@).len() <= buffer_limit(),
        ensures
            final(self)@ == old(self)@ + encode_datum(datum@),
    {
        push_datum(&mut self.data, datum);
    }
}

impl Clone for Row {
    fn clone(&self) -> (row: Row)
        ensures
            row@ == self@,
    {
        self.clone_row()
    }
}

impl Default for Row {
    fn default() -> (row: Row)
        ensures
            row@ == Seq::<u8>::empty(),
            row.wf(),
    {
        Row::empty()
    }
}

/// The datums of `items` up to the first error.
pub open spec fn ok_prefix<E>(items: Seq<Result<Datum, E>>) -> Seq<DatumView>
    decreases items.len(),
{
    if items.len() == 0 {
        Seq::<DatumView>::empty()
    } else {
        match items[0] {
            Ok(d) => seq![d@] + ok_prefix(items.drop_first()),
            Err(_) => Seq::<DatumView>::empty(),
        }
    }
}

/// The first error of `items`.
pub open spec fn first_error<E>(items: Seq<Result<Datum, E>>) -> Option<E>
    decreases items.len(),
{
    if items.len() == 0 {
        None
    } else {
        match items[0] {
            Ok(_) => first_error(items.drop_first()),
            Err(e) => Some(e),
        }
    }
}

/// While no error has come, the datums up to the first error are those seen
/// and those up to the first error of what is left.
proof fn lemma_ok_prefix_split<E>(items: Seq<Result<Datum, E>>, n: int)
    requires
        0 <= n <= items.len(),
        forall|i: int| 0 <= i < n ==> (#[trigger] items[i]) is Ok,
    ensures
        ok_prefix(items) == Seq::new(n as nat, |i: int| items[i]->Ok_0@) + ok_prefix(
            items.skip(n),
        ),
        first_error(items) == first_error(items.skip(n)),
    decreases n,
{
    if n == 0 {
        assert(items.skip(0) =~= items);
        assert(Seq::new(0nat, |i: int| items[i]->Ok_0@) + ok_prefix(items) =~= ok_prefix(items));
    } else {
        let rest = items.drop_first();
        assert(items[0] is Ok);
        assert forall|i: int| 0 <= i < n - 1 implies (#[trigger] rest[i]) is Ok by {
            assert(rest[i] == items[i + 1]);
        }
        lemma_ok_prefix_split(rest, n - 1);
        assert(rest.skip(n - 1) =~= items.skip(n));
        assert(seq![items[0]->Ok_0@] + Seq::new((n - 1) as nat, |i: int| rest[i]->Ok_0@)
            =~= Seq::new(n as nat, |i: int| items[i]->Ok_0@));
    }
}

/// The datums before the first error can be packed if every datum can.
pub proof fn lemma_ok_prefix_wf<E>(items: Seq<Result<Datum, E>>)
    requires
        forall|i: int| 0 <= i < items.len() ==> (#[trigger] items[i] matches Ok(d) ==> d@.wf()),
    ensures
        all_wf(ok_prefix(items)),
    decreases items.len(),
{
    if items.len() > 0 {
        let rest = items.drop_first();
        assert forall|i: int| 0 <= i < rest.len() implies (#[trigger] rest[i] matches Ok(d)
            ==> d@.wf()) by {
            assert(rest[i] == items[i + 1]);
        }
        lemma_ok_prefix_wf(rest);
        match items[0] {
            Ok(d) => {
                let all = ok_prefix(items);
                assert forall|i: int| 0 <= i < all.len() implies (#[trigger] all[i]).wf() by {
                    if i > 0 {
                        assert(all[i] == ok_prefix(rest)[i - 1]);
                    }
                }
            },
            Err(_) => {},
        }
    }
}

impl<'a> RowRef<'a> {
    /// The bytes `row` as those of a row. Nothing is checked.
    pub fn from_slice(row: &'a [u8]) -> (r: RowRef<'a>)
        ensures
            r@ == row@,
    {
        RowRef { data: row }
    }

    /// The datums of the row, which must be packed.
    pub fn unpack(&self) -> (datums: Vec<Datum>)
        requires
            is_packed(self@),
        ensures
            views(datums@) == datums_of(self@),
    {
        match self.try_unpack() {
            Some(datums) => datums,
            None => Vec::new(),
        }
    }

    /// The datums that the bytes are made of; `None` where they are not the
    /// packed forms of datums that this library reads.
    pub fn try_unpack(&self) -> (r: Option<Vec<Datum>>)
        ensures
            match r {
                Some(datums) => decode_datums(self@) == Some(views(datums@)) && all_wf(
                    views(datums@),
                ),
                None => decode_datums(self@) is None,
            },
    {
        let mut out: Vec<Datum> = Vec::new();
        let mut pos: usize = 0;
        let ghost b = self.data@;
        proof {
            assert(b.skip(0) =~= b);
            assert(views(out@) =~= Seq::<DatumView>::empty());
        }
        while pos < self.data.len()
            invariant
                pos <= b.len(),
                b == self.data@,
                all_wf(views(out@)),
                match decode_datums(b.skip(pos as int)) {
                    Some(rest) => decode_datums(b) == Some(views(out@) + rest),
                    None => decode_datums(b) is None,
                },
            decreases b.len() - pos,
        {
            proof {
                lemma_decode_extent(b.skip(pos as int));
            }
            match read_datum(self.data, pos) {
                None => {
                    return None;
                },
                Some((d, next)) => {
                    proof {
                        let here = b.skip(pos as int);
                        assert(here.skip(next - pos) =~= b.skip(next as int));
                        lemma_views_push(out@, d);
                        match decode_datums(b.skip(next as int)) {
                            Some(rest) => {
                                assert(views(out@) + (seq![d@] + rest) =~= views(out@).push(d@)
                                    + rest);
                            },
                            None => {},
                        }
                        assert forall|i: int| 0 <= i < out@.len() + 1 implies (#[trigger] views(
                            out@,
                        ).push(d@)[i]).wf() by {
                            if i < out@.len() {
                                assert(views(out@).push(d@)[i] == views(out@)[i]);
                            }
                        }
                    }
                    out.push(d);
                    pos = next;
                },
            }
        }
        proof {
            assert(b.skip(pos as int) =~= Seq::<u8>::empty());
            assert(views(out@) + Seq::<DatumView>::empty() =~= views(out@));
        }
        Some(out)
    }

    /// The first datum of the row, which must be packed and hold one.
    pub fn unpack_first(&self) -> (datum: Datum)
        requires
            is_packed(self@),
            self@.len() > 0,
        ensures
            datums_of(self@).len() > 0,
            datum@ == datums_of(self@)[0],
    {
        match read_datum(self.data, 0) {
            Some((d, next)) => {
                proof {
                    assert(self.data@.skip(0) =~= self.data@);
                }
                d
            },
            None => {
                proof {
                    assert(self.data@.skip(0) =~= self.data@);
                }
                Datum::Null
            },
        }
    }

    /// A reader of the datums, from the first on.
    pub fn iter(&self) -> (it: DatumListIter<'a>)
        ensures
            it.rest() == self@,
            it.wf(),
    {
        let it = DatumListIter { data: self.data, pos: 0 };
        assert(self.data@.skip(0) =~= self.data@);
        it
    }

    /// The number of bytes.
    pub fn byte_len(&self) -> (n: usize)
        ensures
            n == self@.len(),
    {
        self.data.len()
    }

    /// The bytes.
    pub fn data(&self) -> (bytes: &'a [u8])
        ensures
            bytes@ == self@,
    {
        self.data
    }

    /// Whether there are no bytes.
    pub fn is_empty(&self) -> (b: bool)
        ensures
            b == (self@.len() == 0),
    {
        self.data.len() == 0
    }

    /// A row that holds these bytes, which must be packed.
    pub fn to_owned(&self) -> (row: Row)
        requires
            is_packed(self@),
            self@.len() <= buffer_limit(),
        ensures
            row@ == self@,
            row.wf(),
    {
        Row::from_bytes_unchecked(self.data)
    }
}

impl<'a> DatumListIter<'a> {
    /// The bytes that are still to be read.
    pub closed spec fn rest(&self) -> Seq<u8> {
        self.data@.skip(self.pos as int)
    }

    /// The reader stands within its bytes.
    pub closed spec fn wf(&self) -> bool {
        self.pos <= self.data@.len()
    }

    /// A reader of `data` that stands at its start.
    pub fn new(data: &'a [u8]) -> (it: DatumListIter<'a>)
        ensures
            it.rest() == data@,
            it.wf(),
    {
        assert(data@.skip(0) =~= data@);
        DatumListIter { data, pos: 0 }
    }

    /// The bytes that are still to be read.
    pub fn remaining(&self) -> (bytes: &'a [u8])
        requires
            self.wf(),
        ensures
            bytes@ == self.rest(),
    {
        let bytes = vstd::slice::slice_subrange(self.data, self.pos, self.data.len());
        assert(bytes@ =~= self.data@.skip(self.pos as int));
        bytes
    }

    /// Reads the next datum. At the end of the bytes, and where no datum
    /// begins, there is none, and the reader has come to its end.
    pub fn next(&mut self) -> (r: Option<Datum>)
        requires
            old(self).wf(),
        ensures
            final(self).wf(),
            match r {
                Some(d) => decode_datum(old(self).rest()) matches Some((v, n)) && d@ == v
                    && d@.wf() && n <= old(self).rest().len() && final(self).rest() == old(self).rest().skip(n as int),
                None => decode_datum(old(self).rest()) is None && final(self).rest()
                    == Seq::<u8>::empty(),
            },
    {
        if self.pos >= self.data.len() {
            assert(self.data@.skip(self.pos as int) =~= Seq::<u8>::empty());
            return None;
        }
        match read_datum(self.data, self.pos) {
            Some((d, next)) => {
                assert(self.data@.skip(self.pos as int).skip(next - self.pos) =~= self.data@.skip(
                    next as int,
                ));
                self.pos = next;
                Some(d)
            },
            None => {
                self.pos = self.data.len();
                assert(self.data@.skip(self.pos as int) =~= Seq::<u8>::empty());
                None
            },
        }
    }
}

impl DatumList {
    /// An empty list.
    pub fn empty() -> (list: DatumList)
        ensures
            list@ == Seq::<u8>::empty(),
    {
        DatumList { data: Vec::new() }
    }

    /// A reader of the elements, from the first on.
    pub fn iter(&self) -> (it: DatumListIter<'_>)
        ensures
            it.rest() == self@,
            it.wf(),
    {
        DatumListIter::new(self.data.as_slice())
    }

    /// The bytes of the packed elements.
    pub fn data(&self) -> (bytes: &[u8])
        ensures
            bytes@ == self@,
    {
        self.data.as_slice()
    }
}

impl<'a> DatumDictIter<'a> {
    /// The bytes that are still to be read.
    pub closed spec fn rest(&self) -> Seq<u8> {
        self.data@.skip(self.pos as int)
    }

    /// The reader stands within its bytes.
    pub closed spec fn wf(&self) -> bool {
        self.pos <= self.data@.len()
    }

    /// What is still to be read are keys and values in turn, the keys
    /// ascending.
    pub open spec fn sorted(&self) -> bool {
        entries_ascend(self.rest(), None)
    }

    /// Reads the next key and its value; there is none where the bytes
    /// end. The keys that are still to be read must ascend, and those that
    /// follow lie above the key that is read.
    pub fn next(&mut self) -> (r: Option<(String, Datum)>)
        requires
            old(self).wf(),
            old(self).sorted(),
        ensures
            final(self).wf(),
            final(self).sorted(),
            r is None <==> old(self).rest().len() == 0,
            r matches Some((key, _)) ==> entries_ascend(
                final(self).rest(),
                Some(vstd::utf8::encode_utf8(key@)),
            ),
            match r {
                Some((key, value)) => decode_entry(old(self).rest()) matches Some((k, v, n))
                    && key@ == k && value@ == v && n <= old(self).rest().len() && final(self).rest() == old(self).rest().skip(n as int),
                None => decode_entry(old(self).rest()) is None && final(self).rest() == Seq::<
                    u8,
                >::empty(),
            },
    {
        let ghost here = self.data@.skip(self.pos as int);
        if self.pos >= self.data.len() {
            assert(here =~= Seq::<u8>::empty());
            return None;
        }
        proof {
            lemma_decode_extent(here);
        }
        let (key, mid) = match read_datum(self.data, self.pos) {
            Some((Datum::String(key), mid)) => (key, mid),
            _ => {
                self.pos = self.data.len();
                assert(self.data@.skip(self.pos as int) =~= Seq::<u8>::empty());
                return None;
            },
        };
        assert(here.skip(mid - self.pos) =~= self.data@.skip(mid as int));
        proof {
            lemma_decode_extent(self.data@.skip(mid as int));
        }
        match read_datum(self.data, mid) {
            Some((value, next)) => {
                assert(here.skip(next - self.pos) =~= self.data@.skip(next as int));
                proof {
                    lemma_entries_ascend_any(
                        self.data@.skip(next as int),
                        vstd::utf8::encode_utf8(key@),
                    );
                }
                self.pos = next;
                Some((key, value))
            },
            None => {
                self.pos = self.data.len();
                assert(self.data@.skip(self.pos as int) =~= Seq::<u8>::empty());
                None
            },
        }
    }
}

/// `b` holds keys and values in turn to its end, each key a string and
/// above the key before it, the first above `prev` where there is one.
pub open spec fn entries_ascend(b: Seq<u8>, prev: Option<Seq<u8>>) -> bool
    decreases b.len(),
{
    if b.len() == 0 {
        true
    } else {
        match decode_entry(b) {
            Some((key, _, n)) => 0 < n <= b.len() && (prev matches Some(before)
                ==> crate::order::lex_less(before, vstd::utf8::encode_utf8(key)))
                && entries_ascend(b.skip(n as int), Some(vstd::utf8::encode_utf8(key))),
            None => false,
        }
    }
}

/// Keys that ascend behind a key ascend.
pub proof fn lemma_entries_ascend_any(b: Seq<u8>, prev: Seq<u8>)
    requires
        entries_ascend(b, Some(prev)),
    ensures
        entries_ascend(b, None),
{
}

/// The key and value with which `b` begins, and the bytes that both take;
/// `None` where `b` does not begin with a string and a datum.
pub open spec fn decode_entry(b: Seq<u8>) -> Option<(Seq<char>, DatumView, nat)> {
    match decode_datum(b) {
        Some((DatumView::String(key), n)) => if n <= b.len() {
            match decode_datum(b.skip(n as int)) {
                Some((value, m)) => Some((key, value, n + m)),
                None => None,
            }
        } else {
            None
        },
        _ => None,
    }
}

impl DatumMap {
    /// An empty map.
    pub fn empty() -> (map: DatumMap)
        ensures
            map@ == Seq::<u8>::empty(),
    {
        DatumMap { data: Vec::new() }
    }

    /// Whether the map holds keys and values in turn to its end, the keys
    /// ascending: what a reader of it asks for.
    pub fn has_ascending_keys(&self) -> (b: bool)
        ensures
            b == entries_ascend(self@, None),
    {
        let data = self.data.as_slice();
        let mut pos: usize = 0;
        let mut prev: Option<String> = None;
        assert(data@.skip(0) =~= data@);
        while pos < data.len()
            invariant
                pos <= data@.len(),
                data@ == self@,
                entries_ascend(self@, None) == entries_ascend(
                    data@.skip(pos as int),
                    match prev {
                        Some(key) => Some(vstd::utf8::encode_utf8(key@)),
                        None => None,
                    },
                ),
            decreases data@.len() - pos,
        {
            let ghost here = data@.skip(pos as int);
            proof {
                lemma_decode_extent(here);
            }
            let (key, mid) = match read_datum(data, pos) {
                Some((Datum::String(key), mid)) => (key, mid),
                _ => {
                    return false;
                },
            };
            assert(here.skip(mid - pos) =~= data@.skip(mid as int));
            proof {
                lemma_decode_extent(data@.skip(mid as int));
            }
            let next = match read_datum(data, mid) {
                Some((_, next)) => next,
                None => {
                    return false;
                },
            };
            assert(here.skip(next - pos) =~= data@.skip(next as int));
            let above = match &prev {
                Some(before) => crate::order::bytes_less(
                    before.as_str().as_bytes(),
                    key.as_str().as_bytes(),
                ),
                None => true,
            };
            if !above {
                return false;
            }
            prev = Some(key);
            pos = next;
        }
        assert(data@.skip(pos as int) =~= Seq::<u8>::empty());
        true
    }

    /// A reader of the keys and values, from the first pair on.
    pub fn iter(&self) -> (it: DatumDictIter<'_>)
        ensures
            it.rest() == self@,
            it.wf(),
    {
        let it = DatumDictIter { data: self.data.as_slice(), pos: 0 };
        assert(self.data@.skip(0) =~= self.data@);
        it
    }

    /// The bytes of the packed keys and values.
    pub fn data(&self) -> (bytes: &[u8])
        ensures
            bytes@ == self@,
    {
        self.data.as_slice()
    }
}

impl<'a> RowPacker<'a> {
    /// A packer that appends to what `row` holds.
    pub fn for_existing_row(row: &'a mut Row) -> (packer: RowPacker<'a>)
        ensures
            packer@ == old(row)@,
            final(row)@ == final(packer.row)@,
    {
        RowPacker { row }
    }

    /// Appends the packed form of `datum`.
    pub fn push(&mut self, datum: &Datum)
        requires
            datum@.wf(),
            old(self)@.len() + encode_datum(datum@).len() <= buffer_limit(),
        ensures
            final(self)@ == old(self)@ + encode_datum(datum@),
            final(final(self).row)@ == final(old(self).row)@,
            is_packed(old(self)@) ==> is_packed(final(self)@) && datums_of(final(self)@)
                == datums_of(old(self)@).push(datum@),
    {
        proof {
            if is_packed(old(self)@) {
                lemma_packed_push(old(self)@, datum@);
            }
        }
        self.row.push_one(datum);
    }

    /// Appends the packed forms of `datums`.
    pub fn extend(&mut self, datums: &[Datum])
        requires
            all_wf(views(datums@)),
            old(self)@.len() + encode_datums(views(datums@)).len() <= buffer_limit(),
        ensures
            final(self)@ == old(self)@ + encode_datums(views(datums@)),
            final(final(self).row)@ == final(old(self).row)@,
    {
        let ghost all = views(datums@);
        let mut i: usize = 0;
        proof {
            assert(all.take(0) =~= Seq::<DatumView>::empty());
            assert(old(self)@ + encode_datums(all.take(0)) =~= old(self)@);
        }
        while i < datums.len()
            invariant
                i <= datums.len(),
                all == views(datums@),
                all_wf(all),
                old(self)@.len() + encode_datums(all).len() <= buffer_limit(),
                self@ == old(self)@ + encode_datums(all.take(i as int)),
                final(self.row)@ == final(old(self).row)@,
            decreases datums.len() - i,
        {
            proof {
                lemma_encode_datums_take(all, i as int);
                lemma_encode_datums_take(all, i + 1);
                assert(all[i as int] == datums@[i as int]@);
            }
            self.row.push_one(&datums[i]);
            assert(self@ =~= old(self)@ + encode_datums(all.take(i + 1)));
            i = i + 1;
        }
        assert(all.take(datums@.len() as int) =~= all);
    }

    /// Appends the packed forms of the datums of `items` up to the first
    /// error, which is handed back.
    pub fn try_extend<E>(&mut self, items: Vec<Result<Datum, E>>) -> (r: Result<(), E>)
        requires
            forall|i: int|
                0 <= i < items@.len() ==> (#[trigger] items@[i] matches Ok(d) ==> d@.wf()),
            old(self)@.len() + encode_datums(ok_prefix(items@)).len() <= buffer_limit(),
        ensures
            final(self)@ == old(self)@ + encode_datums(ok_prefix(items@)),
            final(final(self).row)@ == final(old(self).row)@,
            match r {
                Ok(()) => first_error(items@) is None,
                Err(e) => first_error(items@) == Some(e),
            },
    {
        let ghost all = ok_prefix(items@);
        let ghost given = items@;
        let mut pending = items;
        let mut taken: Vec<Result<Datum, E>> = Vec::new();
        // Popping takes the items from the last on; turn them over first.
        while pending.len() > 0
            invariant
                taken@.len() + pending@.len() == given.len(),
                forall|i: int| 0 <= i < pending@.len() ==> pending@[i] == given[i],
                forall|i: int|
                    0 <= i < taken@.len() ==> taken@[i] == given[given.len() - 1 - i],
            decreases pending.len(),
        {
            let item = pending.pop().unwrap();
            taken.push(item);
        }
        let mut n: usize = 0;
        let ghost total = given.len();
        assert(total == taken.len());
        proof {
            lemma_ok_prefix_split(given, 0);
            assert(all.take(0) =~= Seq::<DatumView>::empty());
            assert(old(self)@ + encode_datums(all.take(0)) =~= old(self)@);
            lemma_ok_prefix_wf(given);
        }
        while taken.len() > 0
            invariant
                n + taken@.len() == total == given.len(),
                total <= usize::MAX,
                given == items@,
                all == ok_prefix(given),
                all_wf(all),
                forall|i: int|
                    0 <= i < taken@.len() ==> taken@[i] == given[given.len() - 1 - i],
                forall|i: int| 0 <= i < n ==> (#[trigger] given[i]) is Ok,
                forall|i: int|
                    0 <= i < given.len() ==> (#[trigger] given[i] matches Ok(d)
                        ==> d@.wf()),
                n <= all.len(),
                old(self)@.len() + encode_datums(all).len() <= buffer_limit(),
                self@ == old(self)@ + encode_datums(all.take(n as int)),
                final(self.row)@ == final(old(self).row)@,
            decreases taken.len(),
        {
            assert(n < total <= usize::MAX);
            let item = taken.pop().unwrap();
            proof {
                lemma_ok_prefix_split(given, n as int);
                assert(given.skip(n as int)[0] == given[n as int]);
                assert(item == given[n as int]);
            }
            match item {
                Ok(d) => {
                    proof {
                        lemma_ok_prefix_split(given, n + 1);
                        assert(all[n as int] == d@);
                        lemma_encode_datums_take(all, n as int);
                        lemma_encode_datums_take(all, n + 1);
                    }
                    self.row.push_one(&d);
                    assert(self@ =~= old(self)@ + encode_datums(all.take(n + 1)));
                    n = n + 1;
                },
                Err(e) => {
                    proof {
                        let tail = given.skip(n as int);
                        assert(ok_prefix(tail) =~= Seq::<DatumView>::empty());
                        assert(first_error(tail) == Some(e));
                        assert(all =~= Seq::new(n as nat, |i: int| given[i]->Ok_0@));
                        assert(all.take(n as int) =~= all);
                    }
                    return Err(e);
                },
            }
        }
        proof {
            lemma_ok_prefix_split(given, n as int);
            assert(given.skip(n as int) =~= Seq::<Result<Datum, E>>::empty());
            assert(all.take(n as int) =~= all);
        }
        Ok(())
    }

    /// Appends all the datums of `row`.
    pub fn extend_by_row(&mut self, row: &Row)
        requires
            old(self)@.len() + row@.len() <= buffer_limit(),
        ensures
            final(self)@ == old(self)@ + row@,
            final(final(self).row)@ == final(old(self).row)@,
    {
        self.row.extend_bytes(row.data());
    }

    /// Appends `data`, which should be the packed forms of datums. Nothing
    /// is checked.
    pub fn extend_by_slice_unchecked(&mut self, data: &[u8])
        requires
            old(self)@.len() + data@.len() <= buffer_limit(),
        ensures
            final(self)@ == old(self)@ + data@,
            final(final(self).row)@ == final(old(self).row)@,
    {
        self.row.extend_bytes(data);
    }

    /// Drops what has been packed and keeps the buffer.
    pub fn clear(&mut self)
        ensures
            final(self)@ == Seq::<u8>::empty(),
            final(final(self).row)@ == final(old(self).row)@,
    {
        self.row.clear();
    }

    /// Keeps the first `pos` bytes, which should end with a whole datum;
    /// keeps everything where there are no more bytes than that.
    pub fn truncate(&mut self, pos: usize)
        ensures
            final(self)@ == if pos < old(self)@.len() {
                old(self)@.take(pos as int)
            } else {
                old(self)@
            },
            final(final(self).row)@ == final(old(self).row)@,
    {
        if pos < self.row.data_len() {
            self.row.truncate_bytes(pos);
        }
    }

    /// Keeps the first `n` datums of a packed row, and all where there are
    /// no more than that.
    pub fn truncate_datums(&mut self, n: usize)
        requires
            is_packed(old(self)@),
        ensures
            final(self)@ == if n < datums_of(old(self)@).len() {
                encode_datums(datums_of(old(self)@).take(n as int))
            } else {
                old(self)@
            },
            final(final(self).row)@ == final(old(self).row)@,
    {
        let ghost ds = datums_of(self@);
        let ghost b = self@;
        let mut pos: usize = 0;
        let mut count: usize = 0;
        let len = self.row.data_len();
        proof {
            assert(ds.take(0) =~= Seq::<DatumView>::empty());
            lemma_encode_datums_take(ds, 0);
        }
        while count < n && pos < len
            invariant
                b == self@,
                b == old(self)@,
                ds == datums_of(b),
                is_packed(b),
                len == b.len(),
                count <= n,
                count <= ds.len(),
                pos == encode_datums(ds.take(count as int)).len(),
                pos <= len,
                final(self.row)@ == final(old(self).row)@,
            decreases len - pos,
        {
            proof {
                lemma_encode_datums_take(ds, count as int);
                if count == ds.len() {
                    assert(ds.take(count as int) =~= ds);
                }
                lemma_encode_datums_take(ds, count + 1);
                lemma_all_wf_take(ds, count + 1);
                let d = ds[count as int];
                assert(b.skip(pos as int) =~= encode_datum(d) + b.skip(pos + encode_datum(d).len()))
                    by {
                    let next = encode_datums(ds.take(count + 1));
                    assert(next == b.take(next.len() as int));
                    assert(encode_datum(d) =~= next.skip(pos as int));
                }
                lemma_decode_encode(d, b.skip(pos + encode_datum(d).len()));
                lemma_encode_nonempty(d);
            }
            let data = self.row.data();
            match read_datum(data, pos) {
                Some((d, next)) => {
                    pos = next;
                    count = count + 1;
                },
                None => {
                    pos = len;
                },
            }
        }
        proof {
            lemma_encode_datums_take(ds, count as int);
            if count == ds.len() {
                assert(ds.take(count as int) =~= ds);
            } else {
                lemma_encode_datums_take(ds, count + 1);
                lemma_encode_nonempty(ds[count as int]);
            }
            if n >= ds.len() {
                assert(ds.take(ds.len() as int) =~= ds);
            }
        }
        if pos < len {
            self.row.truncate_bytes(pos);
        }
    }

    /// The bytes that the row takes in memory.
    pub fn byte_len(&self) -> (n: usize)
        ensures
            n == ROW_INLINE_SIZE + self@.len() || (n == ROW_INLINE_SIZE && self@.len()
                <= ROW_MAX_INLINE) || (n == usize::MAX && ROW_INLINE_SIZE + self@.len()
                > usize::MAX),
    {
        self.row.byte_len()
    }
}

/// The number of bytes that the packed forms of `datums` take together.
pub fn datums_size(datums: &[Datum]) -> (size: usize)
    requires
        all_wf(views(datums@)),
        encode_datums(views(datums@)).len() <= usize::MAX,
    ensures
        size == encode_datums(views(datums@)).len(),
{
    let ghost all = views(datums@);
    let mut size: usize = 0;
    let mut i: usize = 0;
    proof {
        assert(all.take(0) =~= Seq::<DatumView>::empty());
    }
    while i < datums.len()
        invariant
            i <= datums.len(),
            all == views(datums@),
            all_wf(all),
            encode_datums(all).len() <= usize::MAX,
            size == encode_datums(all.take(i as int)).len(),
        decreases datums.len() - i,
    {
        proof {
            lemma_encode_datums_take(all, i as int);
            lemma_encode_datums_take(all, i + 1);
            assert(all[i as int] == datums@[i as int]@);
        }
        size = size + datum_size(&datums[i]);
        i = i + 1;
    }
    assert(all.take(datums@.len() as int) =~= all);
    size
}

/// The number of bytes that a list of `datums` takes when it is packed as
/// one datum.
pub fn datum_list_size(datums: &[Datum]) -> (size: usize)
    requires
        all_wf(views(datums@)),
        encode_datums(views(datums@)).len() + 9 <= usize::MAX,
    ensures
        size == encode_datum(DatumView::List(encode_datums(views(datums@)))).len(),
{
    let payload = datums_size(datums);
    proof {
        crate::varint::lemma_le_bytes_len(
            payload as int,
            crate::encoding::length_width(crate::encoding::length_class(payload as nat)),
        );
    }
    let bytes_for_length: usize = if (payload as u64) < 0x100 {
        1
    } else if (payload as u64) < 0x1_0000 {
        2
    } else if (payload as u64) < 0x1_0000_0000 {
        4
    } else {
        8
    };
    1 + bytes_for_length + payload
}

/// The number of bytes that a row of `datums` takes in memory: those of the
/// row itself, and those of the datums where they are too many to lie in it.
pub fn row_size(datums: &[Datum]) -> (size: usize)
    requires
        all_wf(views(datums@)),
        encode_datums(views(datums@)).len() + ROW_INLINE_SIZE <= usize::MAX,
    ensures
        size == if encode_datums(views(datums@)).len() > ROW_MAX_INLINE {
            encode_datums(views(datums@)).len() + ROW_INLINE_SIZE
        } else {
            ROW_INLINE_SIZE as int
        },
{
    let sz = datums_size(datums);
    if sz > ROW_MAX_INLINE {
        sz + ROW_INLINE_SIZE
    } else {
        ROW_INLINE_SIZE
    }
}

} // verus!
