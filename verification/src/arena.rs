//! Places that keep packed datums for a while: an arena that owns the bytes
//! of datums made on the way, a single datum kept as its bytes, and a slot
//! with one row buffer that is lent to one user at a time.

use crate::buffer::buffer_limit;
use crate::datum::{Datum, DatumView};
use crate::decoding::{decode_datum, read_datum};
use crate::encoding::{all_wf, encode_datums};
use crate::row::{datums_of, is_packed, lemma_packed_encoding, views, Row, RowPacker};
use vstd::prelude::*;
use vstd::slice::*;
use vstd::string::StringSliceAdditionalSpecFns;

verus! {

/// Owns byte strings, and the rows of single datums, that were made while
/// something was evaluated.
#[derive(Debug)]
pub struct RowArena {
    inner: Vec<Vec<u8>>,
}

impl View for RowArena {
    type V = Seq<Seq<u8>>;

    closed spec fn view(&self) -> Seq<Seq<u8>> {
        self.inner@.map_values(|bytes: Vec<u8>| bytes@)
    }
}

impl RowArena {
    /// An arena that owns nothing.
    pub fn new() -> (arena: RowArena)
        ensures
            arena@ == Seq::<Seq<u8>>::empty(),
    {
        let arena = RowArena { inner: Vec::new() };
        assert(arena@ =~= Seq::<Seq<u8>>::empty());
        arena
    }

    /// An arena that owns nothing, with room for `capacity` entries.
    pub fn with_capacity(capacity: usize) -> (arena: RowArena)
        ensures
            arena@ == Seq::<Seq<u8>>::empty(),
    {
        let arena = RowArena { inner: Vec::with_capacity(capacity) };
        assert(arena@ =~= Seq::<Seq<u8>>::empty());
        arena
    }

    /// The number of entries.
    pub fn len(&self) -> (n: usize)
        ensures
            n == self@.len(),
    {
        self.inner.len()
    }

    /// Takes `bytes` into the arena, and gives the place at which they are
    /// kept.
    pub fn push_bytes(&mut self, bytes: Vec<u8>) -> (place: usize)
        ensures
            place == old(self)@.len(),
            final(self)@ == old(self)@.push(bytes@),
    {
        let place = self.inner.len();
        self.inner.push(bytes);
        assert(self@ =~= old(self)@.push(bytes@));
        place
    }

    /// Takes the bytes of `string` into the arena, and gives the place at
    /// which they are kept.
    pub fn push_string(&mut self, string: &str) -> (place: usize)
        ensures
            place == old(self)@.len(),
            final(self)@ == old(self)@.push(string.spec_bytes()),
    {
        self.push_bytes(slice_to_vec(string.as_bytes()))
    }

    /// The bytes that are kept at `place`.
    pub fn bytes(&self, place: usize) -> (bytes: &[u8])
        requires
            place < self@.len(),
        ensures
            bytes@ == self@[place as int],
    {
        self.inner[place].as_slice()
    }

    /// Takes `row`, which holds a datum, into the arena, and gives its
    /// first datum.
    pub fn push_unary_row(&mut self, row: Row) -> (datum: Datum)
        requires
            row.wf(),
            row@.len() > 0,
        ensures
            final(self)@ == old(self)@.push(row@),
            row.datums().len() > 0,
            datum@ == row.datums()[0],
    {
        let datum = row.unpack_first();
        self.push_bytes(slice_to_vec(row.data()));
        datum
    }

    /// Makes a row of what `f` packs, takes it into the arena, and gives
    /// its first datum. `f` must pack a datum.
    pub fn make_datum<F>(&mut self, f: F) -> (datum: Datum) where F: FnOnce(&mut RowPacker)
        requires
            forall|p: &mut RowPacker| p@ == Seq::<u8>::empty() ==> #[trigger] call_requires(f, (p,)),
            forall|p: &mut RowPacker| #[trigger]
                call_ensures(f, (p,), ()) ==> is_packed(final(p)@) && 0 < final(p)@.len()
                    <= buffer_limit() && final(final(p).row)@ == final(p.row)@,
        ensures
            final(self)@.len() == old(self)@.len() + 1,
            final(self)@.drop_last() == old(self)@,
            is_packed(final(self)@.last()),
            datums_of(final(self)@.last()).len() > 0,
            datum@ == datums_of(final(self)@.last())[0],
            // The row that is taken in is what `f` packed into an empty row.
            exists|p: &mut RowPacker, out: ()| #[trigger]
                call_ensures(f, (p,), out) && p@ == Seq::<u8>::empty() && final(p)@
                    == final(self)@.last(),
    {
        let mut row = Row::empty();
        let mut packer = row.packer();
        f(&mut packer);
        let ghost packed = row@;
        let datum = self.push_unary_row(row);
        proof {
            assert(self@.drop_last() =~= old(self)@);
            assert(self@.last() == packed);
        }
        datum
    }

    /// Makes a row of what `f` packs, takes it into the arena, and gives
    /// its first datum; or gives the error of `f`, and takes nothing. `f`
    /// must pack a datum where it does not fail.
    pub fn try_make_datum<F, E>(&mut self, f: F) -> (r: Result<Datum, E>) where
        F: FnOnce(&mut RowPacker) -> Result<(), E>,

        requires
            forall|p: &mut RowPacker| p@ == Seq::<u8>::empty() ==> #[trigger] call_requires(f, (p,)),
            forall|p: &mut RowPacker, out: Result<(), E>| #[trigger]
                call_ensures(f, (p,), out) ==> final(final(p).row)@ == final(p.row)@ && (out is Ok
                    ==> is_packed(final(p)@) && 0 < final(p)@.len() <= buffer_limit()),
        ensures
            match r {
                Ok(datum) => final(self)@.len() == old(self)@.len() + 1 && final(self)@.drop_last()
                    == old(self)@ && is_packed(final(self)@.last()) && datums_of(
                    final(self)@.last(),
                ).len() > 0 && datum@ == datums_of(final(self)@.last())[0],
                Err(_) => final(self)@ == old(self)@,
            },
            // `f` is called once, on a packer of an empty row, and decides;
            // the row that is taken in is what it packed.
            exists|p: &mut RowPacker, out: Result<(), E>| #[trigger]
                call_ensures(f, (p,), out) && p@ == Seq::<u8>::empty() && match out {
                    Ok(_) => r is Ok && final(p)@ == final(self)@.last(),
                    Err(e) => r == Err::<Datum, E>(e),
                },
    {
        let mut row = Row::empty();
        let mut packer = row.packer();
        match f(&mut packer) {
            Err(e) => Err(e),
            Ok(_) => {
                let ghost packed = row@;
                let datum = self.push_unary_row(row);
                proof {
                    assert(self@.drop_last() =~= old(self)@);
                    assert(self@.last() == packed);
                }
                Ok(datum)
            },
        }
    }

    /// Makes a row of what `f` packs, takes it into the arena, and gives
    /// its first datum as the bytes that it is kept in. `f` must pack a
    /// datum.
    pub fn make_datum_nested<F>(&mut self, f: F) -> (nested: DatumNested<'_>) where
        F: FnOnce(&mut RowPacker),

        requires
            forall|p: &mut RowPacker| p@ == Seq::<u8>::empty() ==> #[trigger] call_requires(f, (p,)),
            forall|p: &mut RowPacker| #[trigger]
                call_ensures(f, (p,), ()) ==> is_packed(final(p)@) && 0 < final(p)@.len()
                    <= buffer_limit() && final(final(p).row)@ == final(p.row)@,
        ensures
            final(self)@.len() == old(self)@.len() + 1,
            final(self)@.drop_last() == old(self)@,
            is_packed(final(self)@.last()),
            nested.wf(),
            nested.source() == final(self)@.last(),
            nested.start() == 0,
            // The row that is taken in is what `f` packed into an empty row.
            exists|p: &mut RowPacker, out: ()| #[trigger]
                call_ensures(f, (p,), out) && p@ == Seq::<u8>::empty() && final(p)@
                    == final(self)@.last(),
    {
        let mut row = Row::empty();
        let mut packer = row.packer();
        f(&mut packer);
        let ghost packed = row@;
        let place = self.push_bytes(slice_to_vec(row.data()));
        proof {
            assert(self@.drop_last() =~= old(self)@);
            assert(self@.last() == packed);
            assert(packed.skip(0) =~= packed);
        }
        match DatumNested::extract(self.inner[place].as_slice(), 0) {
            Some((nested, _)) => nested,
            None => DatumNested { data: self.inner[place].as_slice(), start: 0, end: 0 },
        }
    }

    /// Drops everything that the arena owns.
    pub fn clear(&mut self)
        ensures
            final(self)@ == Seq::<Seq<u8>>::empty(),
    {
        self.inner.clear();
        assert(self@ =~= Seq::<Seq<u8>>::empty());
    }
}

/// One datum as the bytes that it is packed in, so that it can stand inside
/// other datums and be read again whenever it is asked for.
#[derive(Debug, Clone, Copy)]
pub struct DatumNested<'a> {
    data: &'a [u8],
    start: usize,
    end: usize,
}

impl<'a> DatumNested<'a> {
    /// The bytes that the datum was found in.
    pub closed spec fn source(&self) -> Seq<u8> {
        self.data@
    }

    /// The place in the source at which the datum begins.
    pub closed spec fn start(&self) -> int {
        self.start as int
    }

    /// The place in the source behind the datum.
    pub closed spec fn end(&self) -> int {
        self.end as int
    }

    /// A datum begins at the start and ends at the end.
    pub open spec fn wf(&self) -> bool {
        &&& 0 <= self.start() < self.end() <= self.source().len()
        &&& decode_datum(self.source().skip(self.start())) matches Some((d, n)) && n
            == self.end() - self.start() && d.wf()
    }

    /// The datum that is kept.
    pub open spec fn value(&self) -> DatumView
        recommends
            self.wf(),
    {
        decode_datum(self.source().skip(self.start())).unwrap().0
    }

    /// Finds the datum that begins at `pos` in `data`, and gives it as its
    /// bytes, with the place behind it; or `None` where no datum begins
    /// there.
    pub fn extract(data: &'a [u8], pos: usize) -> (r: Option<(DatumNested<'a>, usize)>)
        requires
            pos <= data@.len(),
        ensures
            match r {
                Some((nested, next)) => nested.wf() && nested.source() == data@ && nested.start()
                    == pos && nested.end() == next,
                None => decode_datum(data@.skip(pos as int)) is None,
            },
    {
        match read_datum(data, pos) {
            Some((_, next)) => Some((DatumNested { data, start: pos, end: next }, next)),
            None => None,
        }
    }

    /// The datum that is kept.
    pub fn datum(&self) -> (d: Datum)
        requires
            self.wf(),
        ensures
            d@ == self.value(),
    {
        match read_datum(self.data, self.start) {
            Some((d, _)) => d,
            None => Datum::Null,
        }
    }

    /// The bytes of the datum.
    pub fn bytes(&self) -> (bytes: &'a [u8])
        requires
            self.wf(),
        ensures
            bytes@ == self.source().subrange(self.start(), self.end()),
    {
        slice_subrange(self.data, self.start, self.end)
    }
}

/// A slot with one row buffer, which is lent to one user at a time. The
/// buffer is cleared when it is lent, and is there for the next user once it
/// has been given back.
#[derive(Debug)]
pub struct SharedRow {
    slot: Option<Row>,
}

impl SharedRow {
    /// The buffer is in the slot.
    pub closed spec fn available(&self) -> bool {
        self.slot is Some
    }

    /// A slot with an empty buffer in it.
    pub fn new() -> (shared: SharedRow)
        ensures
            shared.available(),
    {
        SharedRow { slot: Some(Row::empty()) }
    }

    /// Whether the buffer is in the slot.
    pub fn is_available(&self) -> (b: bool)
        ensures
            b == self.available(),
    {
        self.slot.is_some()
    }

    /// Lends the buffer, cleared. The buffer must be in the slot: it is
    /// lent to one user at a time.
    pub fn get(&mut self) -> (row: Row)
        requires
            old(self).available(),
        ensures
            !final(self).available(),
            row@ == Seq::<u8>::empty(),
            row.wf(),
    {
        let mut row = match self.slot.take() {
            Some(row) => row,
            None => Row::empty(),
        };
        row.clear();
        proof {
            lemma_packed_encoding(Seq::<DatumView>::empty());
        }
        row
    }

    /// Takes the buffer back.
    pub fn put(&mut self, row: Row)
        ensures
            final(self).available(),
    {
        self.slot = Some(row);
    }

    /// Packs `datums` with the buffer of the slot, which must be in it,
    /// and gives a row that holds them. The buffer is in the slot again
    /// afterwards.
    pub fn pack(&mut self, datums: &[Datum]) -> (row: Row)
        requires
            old(self).available(),
            all_wf(views(datums@)),
            encode_datums(views(datums@)).len() <= buffer_limit(),
        ensures
            final(self).available(),
            row@ == encode_datums(views(datums@)),
            row.wf(),
            row.datums() == views(datums@),
    {
        let mut buffer = self.get();
        let row = buffer.pack_using(datums);
        self.put(buffer);
        row
    }
}

} // verus!
