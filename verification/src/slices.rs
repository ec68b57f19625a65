//! Small operations on slices that the sorts share.

use vstd::prelude::*;

verus! {

/// Exchanges the elements at `src` and `dest` and hands the slice back.
pub fn swap(arr: &mut [i32], src: usize, dest: usize) -> (out: &[i32])
    requires
        src < old(arr)@.len(),
        dest < old(arr)@.len(),
    ensures
        final(arr)@ == old(arr)@.update(src as int, old(arr)@[dest as int]).update(
            dest as int,
            old(arr)@[src as int],
        ),
        out@ == final(arr)@,
{
    let temp: i32 = arr[src];
    arr[src] = arr[dest];
    arr[dest] = temp;
    arr
}

/// Whether `arr1` is a prefix of `arr2`: every element of `arr1` equals the
/// element of `arr2` at the same position. For slices of one length this is
/// equality. The comparison stops at the first difference, so `arr2` may be
/// the shorter one as long as a difference shows within its length.
pub fn is_array_eq(arr1: &[i32], arr2: &[i32]) -> (eq: bool)
    requires
        arr1@.len() <= arr2@.len() || exists|i: int|
            0 <= i < arr2@.len() && arr1@[i] != arr2@[i],
    ensures
        eq <==> arr1@.len() <= arr2@.len() && arr1@ == arr2@.subrange(0, arr1@.len() as int),
{
    let n: usize = arr1.len();
    let mut ix: usize = 0;
    while ix < n
        invariant
            n == arr1@.len(),
            ix <= n,
            forall|i: int| 0 <= i < ix ==> i < arr2@.len() && arr1@[i] == arr2@[i],
            arr1@.len() <= arr2@.len() || exists|i: int|
                0 <= i < arr2@.len() && arr1@[i] != arr2@[i],
        decreases n - ix,
    {
        if arr2[ix] != arr1[ix] {
            return false;
        }
        ix = ix + 1;
    }
    assert(arr1@ =~= arr2@.subrange(0, arr1@.len() as int));
    true
}

} // verus!
