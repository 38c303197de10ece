//! Reading an array: its dimensions, one by one, and its elements.

use crate::datum::{Array, ArrayDimension, ArrayDimensions, DatumList};
use crate::varint::{le_signed_value, le_value, le_value_of, signed_value_of};
use vstd::prelude::*;

verus! {

/// The lower bound of the dimension `i` that `bytes` hold.
pub open spec fn lower_bound_at(bytes: Seq<u8>, i: int) -> int {
    le_signed_value(bytes.subrange(16 * i, 16 * i + 8))
}

/// The length of the dimension `i` that `bytes` hold.
pub open spec fn length_at(bytes: Seq<u8>, i: int) -> int {
    le_value(bytes.subrange(16 * i + 8, 16 * i + 16))
}

/// `bytes` hold whole dimensions, whose numbers this machine can hold.
pub open spec fn dims_readable(bytes: Seq<u8>) -> bool {
    &&& bytes.len() % 16 == 0
    &&& forall|i: int|
        0 <= i < bytes.len() / 16 ==> isize::MIN <= #[trigger] lower_bound_at(bytes, i)
            <= isize::MAX && length_at(bytes, i) <= usize::MAX
}

impl ArrayDimensions {
    /// The number of dimensions.
    pub fn len(&self) -> (n: usize)
        ensures
            n == self.data@.len() / 16,
    {
        self.data.len() / 16
    }

    /// Whether there is no dimension.
    pub fn is_empty(&self) -> (b: bool)
        ensures
            b == (self.data@.len() == 0),
    {
        self.data.len() == 0
    }

    /// The dimensions, from the outermost on. `None` where the bytes do not
    /// hold whole dimensions, or hold a number that this machine cannot.
    pub fn to_vec(&self) -> (r: Option<Vec<ArrayDimension>>)
        ensures
            match r {
                Some(dims) => dims_readable(self.data@) && dims@.len() == self.data@.len() / 16
                    && forall|i: int|
                    0 <= i < dims@.len() ==> (#[trigger] dims@[i]).lower_bound == lower_bound_at(
                        self.data@,
                        i,
                    ) && dims@[i].length == length_at(self.data@, i),
                None => !dims_readable(self.data@),
            },
    {
        let data = self.data.as_slice();
        if data.len() % 16 != 0 {
            return None;
        }
        let len = data.len();
        let count = len / 16;
        let mut dims: Vec<ArrayDimension> = Vec::new();
        let mut i: usize = 0;
        while i < count
            invariant
                i <= count,
                data@ == self.data@,
                count == data@.len() / 16,
                data@.len() % 16 == 0,
                len == data@.len(),
                dims@.len() == i,
                forall|k: int|
                    0 <= k < i ==> isize::MIN <= #[trigger] lower_bound_at(data@, k) <= isize::MAX
                        && length_at(data@, k) <= usize::MAX,
                forall|k: int|
                    0 <= k < i ==> (#[trigger] dims@[k]).lower_bound == lower_bound_at(data@, k)
                        && dims@[k].length == length_at(data@, k),
            decreases count - i,
        {
            assert(16 * (i + 1) <= len) by {
                assert(len == 16 * count);
            }
            let lower = signed_value_of(data, 16 * i, 8);
            let length = le_value_of(data, 16 * i + 8, 8);
            if lower < isize::MIN as i64 || lower > isize::MAX as i64 || length
                > usize::MAX as u64 {
                proof {
                    assert(!(isize::MIN <= lower_bound_at(data@, i as int) <= isize::MAX
                        && length_at(data@, i as int) <= usize::MAX));
                }
                return None;
            }
            dims.push(ArrayDimension { lower_bound: lower as isize, length: length as usize });
            i = i + 1;
        }
        Some(dims)
    }
}

impl Array {
    /// The dimensions of the array.
    pub fn dims(&self) -> (dims: &ArrayDimensions)
        ensures
            *dims == self.dims,
    {
        &self.dims
    }

    /// The elements of the array, in row-major order.
    pub fn elements(&self) -> (elements: &DatumList)
        ensures
            *elements == self.elements,
    {
        &self.elements
    }
}

} // verus!
