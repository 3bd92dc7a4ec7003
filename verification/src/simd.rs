//! Element-wise vector addition over integer slices. The loop is plain
//! indexed code; the compiler is free to auto-vectorize it.

use vstd::prelude::*;

verus! {

/// Smallest of the three slice lengths: the addition loop pairs the slices
/// element by element and stops when the shortest one ends.
pub open spec fn add_span(l1: nat, l2: nat, l3: nat) -> nat {
    if l1 <= l2 && l1 <= l3 {
        l1
    } else if l2 <= l3 {
        l2
    } else {
        l3
    }
}

/// Writes the pairwise sum of `slice1` and `slice2` into `result_slice`,
/// element by element, as far as all three slices reach; the remainder of
/// `result_slice` is left as it was.
pub fn vector_add(slice1: &[i32], slice2: &[i32], result_slice: &mut [i32])
    requires
        forall|i: int|
            0 <= i < add_span(slice1@.len(), slice2@.len(), old(result_slice)@.len())
                ==> i32::MIN <= #[trigger] (slice1@[i] + slice2@[i]) <= i32::MAX,
    ensures
        final(result_slice)@.len() == old(result_slice)@.len(),
        forall|i: int|
            0 <= i < add_span(slice1@.len(), slice2@.len(), old(result_slice)@.len())
                ==> final(result_slice)@[i] == slice1@[i] + slice2@[i],
        forall|i: int|
            add_span(slice1@.len(), slice2@.len(), old(result_slice)@.len()) <= i
                < old(result_slice)@.len() ==> final(result_slice)@[i] == old(result_slice)@[i],
{
    let mut n: usize = slice1.len();
    if slice2.len() < n {
        n = slice2.len();
    }
    if result_slice.len() < n {
        n = result_slice.len();
    }
    let mut j: usize = 0;
    while j < n
        invariant
            j <= n,
            n == add_span(slice1@.len(), slice2@.len(), old(result_slice)@.len()),
            n <= slice1@.len(),
            n <= slice2@.len(),
            n <= result_slice@.len(),
            result_slice@.len() == old(result_slice)@.len(),
            forall|i: int| 0 <= i < n ==> i32::MIN <= #[trigger] (slice1@[i] + slice2@[i]) <= i32::MAX,
            forall|i: int| 0 <= i < j ==> result_slice@[i] == slice1@[i] + slice2@[i],
            forall|i: int| j <= i < result_slice@.len() ==> result_slice@[i] == old(
                result_slice,
            )@[i],
        decreases n - j,
    {
        result_slice[j] = slice1[j] + slice2[j];
        j += 1;
    }
}

/// Number of elements in a `Data32` block.
pub const DATA32_LENGTH: usize = 1024;

/// A fixed-length block of 32-bit integers, sized for block-wise addition.
pub struct Data32(pub [i32; DATA32_LENGTH]);

impl Data32 {
    /// A block with every element zero.
    pub fn new() -> (d: Data32)
        ensures
            forall|i: int| 0 <= i < DATA32_LENGTH ==> d.0@[i] == 0,
    {
        Data32([0; DATA32_LENGTH])
    }
}

} // verus!
