//! Top-down merge sort with a temporary buffer for each merge.

use vstd::prelude::*;
use vstd::seq_lib::to_multiset_build;
use crate::order::{
    lemma_empty_range, lemma_permutes_wider, lemma_split_range, lemma_swap_permutes,
    same_outside, sorted, sorts_range,
};

verus! {

/// Sorts `arr[from..to)` in ascending order, in place, and hands the slice back.
///
/// A range of fewer than two elements is left alone, and a range of two is
/// put in order by one comparison. A longer range is split at `from + len / 2`,
/// so that the left half is the shorter one when the length is odd; each half
/// is sorted by recursion, and the two are merged through a buffer of the
/// range's length, which is then copied back. The merge takes the head of the
/// left half unless that half is used up or the head of the right half is
/// strictly smaller.
pub fn merge_sort(arr: &mut [i32], from: usize, to: usize) -> (out: &[i32])
    requires
        from <= to <= old(arr)@.len(),
    ensures
        sorts_range(old(arr)@, final(arr)@, from as int, to as int),
        out@ == final(arr)@,
    decreases to - from,
{
    let len: usize = to - from;
    // Fewer than two elements are in order as they stand
    if len < 2 {
        return arr;
    }
    // Two elements take one comparison
    if len == 2 {
        if arr[from] <= arr[from + 1] {
            return arr;
        } else {
            let t: i32 = arr[from];
            arr[from] = arr[from + 1];
            arr[from + 1] = t;
            proof {
                lemma_swap_permutes(old(arr)@, from as int, from + 1, from as int, to as int);
            }
            return arr;
        }
    } else {
        // Sort the two halves
        let mid: usize = from + len / 2;
        merge_sort(arr, from, mid);
        let ghost left_done = arr@;
        merge_sort(arr, mid, to);
        let ghost halves = arr@;
        proof {
            lemma_permutes_wider(
                old(arr)@,
                left_done,
                from as int,
                from as int,
                mid as int,
                to as int,
            );
            lemma_permutes_wider(left_done, halves, from as int, mid as int, to as int, to as int);
            assert(halves.subrange(from as int, mid as int) =~= left_done.subrange(
                from as int,
                mid as int,
            ));
            lemma_empty_range(halves, from as int);
            lemma_empty_range(halves, mid as int);
        }

        // Merge the two halves into a temporary buffer
        let mut left_ix: usize = from;
        let mut right_ix: usize = mid;
        let mut arr2: Vec<i32> = vec![0; len];
        proof {
            lemma_empty_range(arr2@, 0);
        }

        for ix in from..to
            invariant
                arr@ == halves,
                from <= mid <= to <= arr@.len(),
                len == to - from,
                arr2@.len() == len,
                from <= left_ix <= mid,
                mid <= right_ix <= to,
                (left_ix - from) + (right_ix - mid) == ix - from,
                sorted(halves.subrange(from as int, mid as int)),
                sorted(halves.subrange(mid as int, to as int)),
                sorted(arr2@.subrange(0, ix - from)),
                forall|k: int, r: int|
                    0 <= k < ix - from && left_ix <= r < mid ==> arr2@[k] <= halves[r],
                forall|k: int, r: int|
                    0 <= k < ix - from && right_ix <= r < to ==> arr2@[k] <= halves[r],
                arr2@.subrange(0, ix - from).to_multiset() == halves.subrange(
                    from as int,
                    left_ix as int,
                ).to_multiset().add(halves.subrange(mid as int, right_ix as int).to_multiset()),
        {
            let ghost filled = arr2@.subrange(0, ix - from);
            // The left head goes in unless the left half is used up or the
            // right head is strictly smaller
            if left_ix < mid && (right_ix >= to || arr[left_ix] <= arr[right_ix]) {
                arr2[ix - from] = arr[left_ix];
                proof {
                    let v = halves[left_ix as int];
                    assert(arr2@.subrange(0, ix - from + 1) =~= filled.push(v));
                    assert(halves.subrange(from as int, left_ix + 1) =~= halves.subrange(
                        from as int,
                        left_ix as int,
                    ).push(v));
                    to_multiset_build(filled, v);
                    to_multiset_build(halves.subrange(from as int, left_ix as int), v);
                    assert(halves.subrange(from as int, mid as int)[left_ix - from] == v);
                    assert forall|r: int| left_ix <= r < mid implies v <= halves[r] by {
                        assert(halves.subrange(from as int, mid as int)[r - from] == halves[r]);
                    }
                    assert forall|r: int| right_ix <= r < to implies v <= halves[r] by {
                        assert(halves.subrange(mid as int, to as int)[r - mid] == halves[r]);
                        assert(halves.subrange(mid as int, to as int)[right_ix - mid]
                            == halves[right_ix as int]);
                    }
                }
                left_ix = left_ix + 1;
            } else {
                arr2[ix - from] = arr[right_ix];
                proof {
                    let v = halves[right_ix as int];
                    assert(arr2@.subrange(0, ix - from + 1) =~= filled.push(v));
                    assert(halves.subrange(mid as int, right_ix + 1) =~= halves.subrange(
                        mid as int,
                        right_ix as int,
                    ).push(v));
                    to_multiset_build(filled, v);
                    to_multiset_build(halves.subrange(mid as int, right_ix as int), v);
                    assert forall|r: int| left_ix <= r < mid implies v <= halves[r] by {
                        assert(halves.subrange(from as int, mid as int)[r - from] == halves[r]);
                        assert(halves.subrange(from as int, mid as int)[left_ix - from]
                            == halves[left_ix as int]);
                    }
                    assert forall|r: int| right_ix <= r < to implies v <= halves[r] by {
                        assert(halves.subrange(mid as int, to as int)[r - mid] == halves[r]);
                        assert(halves.subrange(mid as int, to as int)[right_ix - mid] == v);
                    }
                }
                right_ix = right_ix + 1;
            }
        }
        proof {
            lemma_split_range(halves, from as int, mid as int, to as int);
            assert(arr2@.subrange(0, len as int) =~= arr2@);
        }

        // Copy the buffer back over the range
        for ix in from..to
            invariant
                from <= to <= arr@.len(),
                len == to - from,
                arr2@.len() == len,
                same_outside(halves, arr@, from as int, to as int),
                forall|k: int| from <= k < ix ==> arr@[k] == arr2@[k - from],
        {
            arr[ix] = arr2[ix - from];
        }
        proof {
            assert(arr@.subrange(from as int, to as int) =~= arr2@);
        }
    }
    arr
}

} // verus!
