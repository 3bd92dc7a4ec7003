//! Element-wise increment over integer slices, written once as two
//! independent passes and once as a single fused pass.

use vstd::prelude::*;

verus! {

/// Adds one to every element of both slices, one whole slice at a time.
pub fn vector_increment_fissioned(slice1: &mut [i32], slice2: &mut [i32])
    requires
        forall|i: int| 0 <= i < old(slice1)@.len() ==> old(slice1)@[i] < i32::MAX,
        forall|i: int| 0 <= i < old(slice2)@.len() ==> old(slice2)@[i] < i32::MAX,
    ensures
        final(slice1)@.len() == old(slice1)@.len(),
        final(slice2)@.len() == old(slice2)@.len(),
        forall|i: int| 0 <= i < old(slice1)@.len() ==> final(slice1)@[i] == old(slice1)@[i] + 1,
        forall|i: int| 0 <= i < old(slice2)@.len() ==> final(slice2)@[i] == old(slice2)@[i] + 1,
{
    let n1: usize = slice1.len();
    let mut j: usize = 0;
    while j < n1
        invariant
            j <= n1,
            n1 == slice1@.len(),
            forall|i: int| 0 <= i < n1 ==> old(slice1)@[i] < i32::MAX,
            forall|i: int| 0 <= i < j ==> slice1@[i] == old(slice1)@[i] + 1,
            forall|i: int| j <= i < n1 ==> slice1@[i] == old(slice1)@[i],
        decreases n1 - j,
    {
        let x: i32 = slice1[j];
        slice1[j] = x + 1;
        j += 1;
    }

    let n2: usize = slice2.len();
    let mut j: usize = 0;
    while j < n2
        invariant
            j <= n2,
            n2 == slice2@.len(),
            forall|i: int| 0 <= i < n2 ==> old(slice2)@[i] < i32::MAX,
            forall|i: int| 0 <= i < j ==> slice2@[i] == old(slice2)@[i] + 1,
            forall|i: int| j <= i < n2 ==> slice2@[i] == old(slice2)@[i],
            slice1@.len() == old(slice1)@.len(),
            forall|i: int| 0 <= i < slice1@.len() ==> slice1@[i] == old(slice1)@[i] + 1,
        decreases n2 - j,
    {
        let x: i32 = slice2[j];
        slice2[j] = x + 1;
        j += 1;
    }
}

/// Adds one to every element of both slices in a single pass, pairing the
/// slices element by element and so stopping at the shorter one's end.
pub fn vector_increment_unfissioned(slice1: &mut [i32], slice2: &mut [i32])
    requires
        forall|i: int| 0 <= i < old(slice1)@.len() && i < old(slice2)@.len() ==> old(
            slice1,
        )@[i] < i32::MAX,
        forall|i: int| 0 <= i < old(slice1)@.len() && i < old(slice2)@.len() ==> old(
            slice2,
        )@[i] < i32::MAX,
    ensures
        final(slice1)@.len() == old(slice1)@.len(),
        final(slice2)@.len() == old(slice2)@.len(),
        forall|i: int|
            0 <= i < old(slice1)@.len() && i < old(slice2)@.len() ==> final(slice1)@[i] == old(
                slice1,
            )@[i] + 1,
        forall|i: int|
            0 <= i < old(slice1)@.len() && i < old(slice2)@.len() ==> final(slice2)@[i] == old(
                slice2,
            )@[i] + 1,
        forall|i: int|
            old(slice2)@.len() <= i < old(slice1)@.len() ==> final(slice1)@[i] == old(slice1)@[i],
        forall|i: int|
            old(slice1)@.len() <= i < old(slice2)@.len() ==> final(slice2)@[i] == old(slice2)@[i],
{
    let n: usize = if slice1.len() < slice2.len() {
        slice1.len()
    } else {
        slice2.len()
    };
    let mut j: usize = 0;
    while j < n
        invariant
            j <= n,
            n <= slice1@.len(),
            n <= slice2@.len(),
            slice1@.len() == old(slice1)@.len(),
            slice2@.len() == old(slice2)@.len(),
            forall|i: int| 0 <= i < n ==> old(slice1)@[i] < i32::MAX,
            forall|i: int| 0 <= i < n ==> old(slice2)@[i] < i32::MAX,
            forall|i: int| 0 <= i < j ==> slice1@[i] == old(slice1)@[i] + 1,
            forall|i: int| 0 <= i < j ==> slice2@[i] == old(slice2)@[i] + 1,
            forall|i: int| j <= i < slice1@.len() ==> slice1@[i] == old(slice1)@[i],
            forall|i: int| j <= i < slice2@.len() ==> slice2@[i] == old(slice2)@[i],
            n == if old(slice1)@.len() < old(slice2)@.len() {
                old(slice1)@.len()
            } else {
                old(slice2)@.len()
            },
        decreases n - j,
    {
        let x: i32 = slice1[j];
        slice1[j] = x + 1;
        let y: i32 = slice2[j];
        slice2[j] = y + 1;
        j += 1;
    }
}

} // verus!
