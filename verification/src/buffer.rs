//! The growable byte buffer that backs a row, and what is assumed of it.

use compact_bytes::CompactBytes;
use vstd::prelude::*;

verus! {

/// `compact_bytes::CompactBytes`: a buffer of bytes that keeps up to 23 of
/// them within itself and more on the heap. Nothing is seen of what is in
/// it but through the functions below.
#[verifier::external_type_specification]
#[verifier::external_body]
pub struct ExCompactBytes(CompactBytes);

/// The bytes that a buffer holds, in order.
pub uninterp spec fn buffer_bytes(b: CompactBytes) -> Seq<u8>;

/// The largest length to which a buffer may grow. `CompactBytes` refuses an
/// allocation above half the address space, and grows by half its length at
/// a time, so a third of the address space is always in reach.
pub open spec fn buffer_limit() -> nat {
    (usize::MAX / 3) as nat
}

/// `CompactBytes::empty`: a buffer that holds no bytes.
#[verifier::external_body]
pub(crate) fn buffer_empty() -> (b: CompactBytes)
    ensures
        buffer_bytes(b) == Seq::<u8>::empty(),
{
    CompactBytes::empty()
}

/// `CompactBytes::with_capacity`: an empty buffer. The capacity is not
/// observable; the call panics above half the address space.
#[verifier::external_body]
pub(crate) fn buffer_with_capacity(capacity: usize) -> (b: CompactBytes)
    requires
        capacity <= usize::MAX / 2,
    ensures
        buffer_bytes(b) == Seq::<u8>::empty(),
{
    CompactBytes::with_capacity(capacity)
}

/// `CompactBytes::len`: the number of bytes held.
#[verifier::external_body]
pub(crate) fn buffer_len(b: &CompactBytes) -> (n: usize)
    ensures
        n == buffer_bytes(*b).len(),
{
    b.len()
}

/// `CompactBytes::as_slice`: the bytes held, as a slice.
#[verifier::external_body]
pub(crate) fn buffer_as_slice(b: &CompactBytes) -> (s: &[u8])
    ensures
        s@ == buffer_bytes(*b),
{
    b.as_slice()
}

/// `CompactBytes::push`: appends one byte.
#[verifier::external_body]
pub(crate) fn buffer_push(b: &mut CompactBytes, byte: u8)
    requires
        buffer_bytes(*old(b)).len() + 1 <= buffer_limit(),
    ensures
        buffer_bytes(*final(b)) == buffer_bytes(*old(b)).push(byte),
{
    b.push(byte)
}

/// `CompactBytes::extend_from_slice`: appends the bytes of `slice`.
#[verifier::external_body]
pub(crate) fn buffer_extend(b: &mut CompactBytes, slice: &[u8])
    requires
        buffer_bytes(*old(b)).len() + slice@.len() <= buffer_limit(),
    ensures
        buffer_bytes(*final(b)) == buffer_bytes(*old(b)) + slice@,
{
    b.extend_from_slice(slice)
}

/// `CompactBytes::truncate`: keeps the first `new_len` bytes, and everything
/// when the buffer is no longer than that.
#[verifier::external_body]
pub(crate) fn buffer_truncate(b: &mut CompactBytes, new_len: usize)
    ensures
        buffer_bytes(*final(b)) == if new_len < buffer_bytes(*old(b)).len() {
            buffer_bytes(*old(b)).take(new_len as int)
        } else {
            buffer_bytes(*old(b))
        },
{
    b.truncate(new_len)
}

/// `CompactBytes::as_mut_slice`, one byte written through it: the byte at
/// `index` becomes `byte`, the rest stays.
#[verifier::external_body]
pub(crate) fn buffer_set(b: &mut CompactBytes, index: usize, byte: u8)
    requires
        index < buffer_bytes(*old(b)).len(),
    ensures
        buffer_bytes(*final(b)) == buffer_bytes(*old(b)).update(index as int, byte),
{
    b.as_mut_slice()[index] = byte;
}

/// `<[u8]>::copy_within` on `CompactBytes::as_mut_slice`: the bytes from
/// `from` up to `to` are copied to `dest` and on, as if through a second
/// buffer; the other bytes stay.
#[verifier::external_body]
pub(crate) fn buffer_copy_within(b: &mut CompactBytes, from: usize, to: usize, dest: usize)
    requires
        from <= to <= buffer_bytes(*old(b)).len(),
        dest + (to - from) <= buffer_bytes(*old(b)).len(),
    ensures
        buffer_bytes(*final(b)) == Seq::new(
            buffer_bytes(*old(b)).len(),
            |i: int|
                if dest <= i < dest + (to - from) {
                    buffer_bytes(*old(b))[from + i - dest]
                } else {
                    buffer_bytes(*old(b))[i]
                },
        ),
{
    b.as_mut_slice().copy_within(from..to, dest)
}

/// `CompactBytes::spilled`: whether the bytes lie on the heap. Bytes that do
/// not are at most `CompactBytes::MAX_INLINE`, which is 23.
#[verifier::external_body]
pub(crate) fn buffer_spilled(b: &CompactBytes) -> (spilled: bool)
    ensures
        !spilled ==> buffer_bytes(*b).len() <= 23,
{
    b.spilled()
}

/// `CompactBytes::capacity`: the bytes that the buffer can hold before it
/// grows, which are no fewer than it holds.
#[verifier::external_body]
pub(crate) fn buffer_capacity(b: &CompactBytes) -> (capacity: usize)
    ensures
        capacity >= buffer_bytes(*b).len(),
{
    b.capacity()
}

/// `Clone` for `CompactBytes`: a buffer with the same bytes.
#[verifier::external_body]
pub(crate) fn buffer_clone(b: &CompactBytes) -> (c: CompactBytes)
    ensures
        buffer_bytes(c) == buffer_bytes(*b),
{
    b.clone()
}

} // verus!
