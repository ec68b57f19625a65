//! Quick sort with a three-way partition around the last element of the range.

use vstd::prelude::*;
use crate::order::{
    lemma_permutation_keeps, lemma_permutes_wider, lemma_swap_permutes, permutes_range,
    sorts_range,
};
use crate::slices::swap;

verus! {

/// Sorts `arr[from..to)` in ascending order, in place, and hands the slice back.
///
/// The pivot is the last element of the range. One forward scan moves every
/// element that is not greater than the pivot in front of those that are, and
/// counts the elements equal to it. A walk back from the boundary then finds
/// where the run of pivot values in front of the boundary starts. The parts
/// before that run and after the boundary are sorted by recursion; the run
/// itself is in place. A range of equal elements is left as it is.
pub fn quick_sort(arr: &mut [i32], from: usize, to: usize) -> (out: &[i32])
    requires
        from <= to <= old(arr)@.len(),
    ensures
        sorts_range(old(arr)@, final(arr)@, from as int, to as int),
        out@ == final(arr)@,
    decreases to - from,
{
    let len: usize = to - from;
    // Fewer than two elements are in order as they stand
    if len < 2 {
        return arr;
    }
    // Two elements take one comparison
    if len == 2 {
        if arr[from] <= arr[from + 1] {
            return arr;
        } else {
            let t: i32 = arr[from];
            arr[from] = arr[from + 1];
            arr[from + 1] = t;
            proof {
                lemma_swap_permutes(old(arr)@, from as int, from + 1, from as int, to as int);
            }
            return arr;
        }
    }
    let pivot: i32 = arr[to - 1];
    // Offset of the first element greater than the pivot: everything before
    // it is less than or equal to the pivot
    let mut ix_greater: usize = 0;
    // Offset of the first element not yet looked at
    let mut ix_unchecked: usize = 0;
    let mut pivot_count: usize = 0;
    while ix_unchecked < len
        invariant
            arr@.len() == old(arr)@.len(),
            from <= to <= arr@.len(),
            len == to - from,
            len >= 2,
            ix_greater <= ix_unchecked <= len,
            pivot_count <= ix_greater,
            permutes_range(old(arr)@, arr@, from as int, to as int),
            forall|k: int| from <= k < from + ix_greater ==> arr@[k] <= pivot,
            forall|k: int| from + ix_greater <= k < from + ix_unchecked ==> arr@[k] > pivot,
            ix_unchecked < len ==> arr@[to - 1] == pivot,
            ix_unchecked == len ==> ix_greater >= 1 && arr@[from + ix_greater - 1] == pivot,
            pivot_count == ix_unchecked ==> forall|k: int|
                from <= k < from + ix_unchecked ==> arr@[k] == pivot,
        decreases len - ix_unchecked,
    {
        let ghost before = arr@;
        if arr[from + ix_unchecked] < pivot {
            swap(arr, from + ix_unchecked, from + ix_greater);
            proof {
                lemma_swap_permutes(
                    before,
                    from + ix_unchecked,
                    from + ix_greater,
                    from as int,
                    to as int,
                );
            }
            ix_greater = ix_greater + 1;
        } else if arr[from + ix_unchecked] == pivot {
            swap(arr, from + ix_unchecked, from + ix_greater);
            proof {
                lemma_swap_permutes(
                    before,
                    from + ix_unchecked,
                    from + ix_greater,
                    from as int,
                    to as int,
                );
            }
            ix_greater = ix_greater + 1;
            pivot_count = pivot_count + 1;
        }
        ix_unchecked = ix_unchecked + 1;
    }

    // Offset of the first element of the run of pivot values that ends at
    // the boundary. Pivot values further to the front stay where they are
    // and are sorted with the front part.
    let mut ix_pivot: usize = 0;
    for ix in 1..ix_greater
        invariant_except_break
            ix_pivot == 0,
            forall|k: int| from + ix_greater - ix < k < from + ix_greater ==> arr@[k] == pivot,
        invariant
            arr@.len() == old(arr)@.len(),
            from <= to <= arr@.len(),
            1 <= ix_greater <= to - from,
            arr@[from + ix_greater - 1] == pivot,
        ensures
            ix_pivot < ix_greater,
            forall|k: int|
                from + ix_pivot <= k < from + ix_greater && from < k ==> arr@[k] == pivot,
    {
        if arr[from + ix_greater - ix] != pivot {
            ix_pivot = ix_greater - ix + 1;
            break;
        }
    }

    // Every element equals the pivot: nothing is left to sort
    if pivot_count == len {
        return arr;
    }
    // Sort the parts on either side of the run of pivot values
    let ghost parted = arr@;
    quick_sort(arr, from, from + ix_pivot);
    let ghost low_done = arr@;
    quick_sort(arr, from + ix_greater, to);
    proof {
        let band: int = from + ix_pivot;
        let high: int = from + ix_greater;
        lemma_permutes_wider(parted, low_done, from as int, from as int, band, to as int);
        lemma_permutes_wider(low_done, arr@, from as int, high, to as int, to as int);
        lemma_permutation_keeps(
            parted.subrange(from as int, band),
            low_done.subrange(from as int, band),
            |x: i32| x <= pivot,
        );
        lemma_permutation_keeps(
            low_done.subrange(high, to as int),
            arr@.subrange(high, to as int),
            |x: i32| x > pivot,
        );
        let done = arr@.subrange(from as int, to as int);
        assert forall|i: int, j: int| 0 <= i <= j < done.len() implies done[i] <= done[j] by {
            let a: int = from + i;
            let b: int = from + j;
            if a < band {
                assert(done[i] == low_done.subrange(from as int, band)[i]);
                if b < band {
                    assert(done[j] == low_done.subrange(from as int, band)[j]);
                }
            }
            if b >= high {
                assert(done[j] == arr@.subrange(high, to as int)[b - high]);
                if a >= high {
                    assert(done[i] == arr@.subrange(high, to as int)[a - high]);
                }
            }
        }
    }
    arr
}

} // verus!
