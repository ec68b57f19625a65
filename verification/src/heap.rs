//! Heap sort over a padded buffer in which a reserved value marks an empty slot.

use vstd::prelude::*;
use vstd::arithmetic::power2::is_pow2;
use vstd::seq_lib::{lemma_multiset_commutative, to_multiset_build, to_multiset_insert};
use crate::order::{
    lemma_permutation_keeps, lemma_split_range, lemma_swap_permutes, permutation, sorted,
    sorts_range,
};
use crate::slices::swap;
use crate::tree::{
    descends, left, left_of, lemma_descends_apart, lemma_descends_children,
    lemma_descends_from_top, lemma_descends_join, lemma_descends_split, parent_of, right,
    right_of,
};

verus! {

/// The value that marks an empty slot of the heap buffer.
pub const SENTINEL: i32 = -1;

/// Slot `c` is empty or holds no more than its parent.
pub open spec fn slot_ok(s: Seq<i32>, c: int) -> bool {
    s[c] == SENTINEL || s[c] <= s[parent_of(c)]
}

/// The subtree under `root` is a max-heap: every slot of it below `root` is
/// empty or holds no more than its parent.
pub open spec fn heap_below(s: Seq<i32>, root: int) -> bool {
    forall|j: int| 0 <= j < s.len() && j != root && #[trigger] descends(j, root) ==> slot_ok(s, j)
}

/// Both child slots of every occupied slot exist, so that a walk down the tree
/// can read the children of any occupied slot without leaving the buffer.
pub open spec fn padded(s: Seq<i32>) -> bool {
    forall|i: int| 0 <= i < s.len() && #[trigger] s[i] != SENTINEL ==> 2 * i + 2 < s.len()
}

/// Slot `c` of `s` is occupied and holds strictly more than `than`.
pub open spec fn holds_more(s: Seq<i32>, c: int, than: i32) -> bool {
    s[c] != SENTINEL && than < s[c]
}

/// The slot that `root` gives its value to when it is sifted: the occupied
/// child that holds the most, if that is strictly more than `root` holds, the
/// left one if both children hold the same; else `root` itself.
pub open spec fn greatest_slot(s: Seq<i32>, root: int) -> int {
    let l = left_of(root);
    let r = right_of(root);
    let first = if holds_more(s, l, s[root]) {
        l
    } else {
        root
    };
    if holds_more(s, r, s[first]) {
        r
    } else {
        first
    }
}

/// `s` after the value at `root` has sunk to its place: as long as a child
/// slot holds more, the value is exchanged with [`greatest_slot`] and goes on
/// from there.
pub open spec fn sift_down(s: Seq<i32>, root: int) -> Seq<i32>
    decreases s.len() - root,
{
    let pick = greatest_slot(s, root);
    if 0 <= root && 2 * root + 2 < s.len() && pick != root {
        sift_down(exchanged(s, root, pick), pick)
    } else {
        s
    }
}

/// What sifting the value at `root` achieves: the subtree under `root` is a
/// max-heap, whose root holds the greatest of what `root` and its occupied
/// children held; the buffer holds the same elements; no slot outside the
/// subtree has changed, and every slot other than `root` that was empty is
/// still empty.
pub open spec fn sifted(before: Seq<i32>, after: Seq<i32>, root: int) -> bool {
    &&& after.len() == before.len()
    &&& padded(after)
    &&& heap_below(after, root)
    &&& permutation(before, after)
    &&& after[root] == before[greatest_slot(before, root)]
    &&& forall|j: int| 0 <= j < before.len() && !descends(j, root) ==> after[j] == before[j]
    &&& forall|j: int|
        0 <= j < before.len() && j != root && before[j] == SENTINEL ==> after[j] == SENTINEL
}

/// `s` with the values of slots `i` and `j` exchanged.
pub open spec fn exchanged(s: Seq<i32>, i: int, j: int) -> Seq<i32> {
    s.update(i, s[j]).update(j, s[i])
}

/// No element is the value that marks an empty slot, or no element is less
/// than that value. On such input no element can be mistaken for an empty slot
/// in a way that disturbs the order.
pub open spec fn sentinel_safe(s: Seq<i32>) -> bool {
    (forall|i: int| 0 <= i < s.len() ==> s[i] != SENTINEL) || (forall|i: int|
        0 <= i < s.len() ==> s[i] >= SENTINEL)
}

/// A subtree is a max-heap once its root's two subtrees are and both child
/// slots are empty or hold no more than the root.
proof fn lemma_heap_join(s: Seq<i32>, root: int)
    requires
        0 <= root,
        2 * root + 2 < s.len(),
        heap_below(s, left_of(root)),
        heap_below(s, right_of(root)),
        slot_ok(s, left_of(root)),
        slot_ok(s, right_of(root)),
    ensures
        heap_below(s, root),
{
    assert forall|j: int|
        0 <= j < s.len() && j != root && #[trigger] descends(j, root) implies slot_ok(s, j) by {
        lemma_descends_split(j, root);
    }
}

/// The subtrees under the children of a slot are max-heaps if the subtree
/// under the slot is.
proof fn lemma_heap_split(s: Seq<i32>, root: int)
    requires
        0 <= root,
        heap_below(s, root),
    ensures
        heap_below(s, left_of(root)),
        heap_below(s, right_of(root)),
{
    assert forall|j: int|
        0 <= j < s.len() && j != left_of(root) && #[trigger] descends(
            j,
            left_of(root),
        ) implies slot_ok(s, j) by {
        lemma_descends_join(j, root);
    }
    assert forall|j: int|
        0 <= j < s.len() && j != right_of(root) && #[trigger] descends(
            j,
            right_of(root),
        ) implies slot_ok(s, j) by {
        lemma_descends_join(j, root);
    }
}

/// A subtree that is a max-heap in `s` is one in `t` if the two agree on
/// every slot of it.
proof fn lemma_heap_kept(s: Seq<i32>, t: Seq<i32>, root: int)
    requires
        0 <= root,
        s.len() == t.len(),
        heap_below(s, root),
        forall|j: int| 0 <= j < s.len() && descends(j, root) ==> t[j] == s[j],
    ensures
        heap_below(t, root),
{
    assert forall|j: int|
        0 <= j < t.len() && j != root && #[trigger] descends(j, root) implies slot_ok(t, j) by {
        // the parent of a slot below the root lies in the subtree too
        assert(descends(parent_of(j), root));
        assert(slot_ok(s, j));
    }
}

/// After an occupied child of `root` has been exchanged with `root`, the
/// child's slot can be sifted: its own children's subtrees are still max-heaps
/// and lie inside the buffer.
proof fn lemma_sift_ready(s: Seq<i32>, root: int, child: int)
    requires
        0 <= root,
        2 * root + 2 < s.len(),
        child == left_of(root) || child == right_of(root),
        padded(s),
        heap_below(s, child),
        s[child] != SENTINEL,
    ensures
        2 * child + 2 < s.len(),
        padded(exchanged(s, root, child)),
        heap_below(exchanged(s, root, child), left_of(child)),
        heap_below(exchanged(s, root, child), right_of(child)),
{
    let t = exchanged(s, root, child);
    lemma_heap_split(s, child);
    assert forall|j: int| 0 <= j < s.len() && descends(j, left_of(child)) implies t[j] == s[j] by {}
    assert forall|j: int| 0 <= j < s.len() && descends(j, right_of(child)) implies t[j]
        == s[j] by {}
    lemma_heap_kept(s, t, left_of(child));
    lemma_heap_kept(s, t, right_of(child));
}

/// What one step of sifting achieves: an occupied child that holds more than
/// `root` was exchanged with it and then sifted in its own subtree. The child's
/// subtree is a max-heap whose root holds no more than `root` now does, and the
/// other child's subtree is untouched.
proof fn lemma_sift_done(s: Seq<i32>, t: Seq<i32>, root: int, child: int, other: int)
    requires
        0 <= root,
        2 * root + 2 < s.len(),
        (child == left_of(root) && other == right_of(root)) || (child == right_of(root) && other
            == left_of(root)),
        padded(s),
        heap_below(s, child),
        heap_below(s, other),
        s[child] != SENTINEL,
        s[root] < s[child],
        sifted(exchanged(s, root, child), t, child),
    ensures
        t.len() == s.len(),
        permutation(s, t),
        heap_below(t, child),
        heap_below(t, other),
        slot_ok(t, child),
        t[root] == s[child],
        t[other] == s[other],
        forall|j: int| 0 <= j < s.len() && !descends(j, root) ==> t[j] == s[j],
        forall|j: int| 0 <= j < s.len() && j != root && s[j] == SENTINEL ==> t[j] == SENTINEL,
{
    let e = exchanged(s, root, child);
    lemma_descends_children(root);
    lemma_descends_children(child);
    // the exchange keeps the elements
    lemma_swap_permutes(s, root, child, 0, s.len() as int);
    assert(s.subrange(0, s.len() as int) =~= s);
    assert(e.subrange(0, s.len() as int) =~= e);
    // the other child's subtree is outside the child's, hence untouched
    assert forall|j: int| 0 <= j < s.len() && descends(j, other) implies t[j] == s[j] by {
        lemma_descends_apart(j, root);
    }
    lemma_heap_kept(s, t, other);
    // what is outside the root's subtree is outside the child's
    assert forall|j: int| 0 <= j < s.len() && !descends(j, root) implies t[j] == s[j] by {
        if descends(j, child) {
            lemma_descends_join(j, root);
        }
    }
}

/// Restores the max-heap shape of the subtree under `ix_start`, given that the
/// subtrees under its two children are max-heaps already.
///
/// The slot is compared with its two children. If an occupied child holds
/// strictly more, the slot is exchanged with the child that holds the most,
/// and the value that went down is sifted into that child's subtree in turn.
/// An empty child slot is never exchanged.
pub fn max_heapify(arr: &mut [i32], ix_start: usize)
    requires
        2 * ix_start + 2 < old(arr)@.len(),
        padded(old(arr)@),
        heap_below(old(arr)@, left_of(ix_start as int)),
        heap_below(old(arr)@, right_of(ix_start as int)),
    ensures
        final(arr)@ == sift_down(old(arr)@, ix_start as int),
        sifted(old(arr)@, final(arr)@, ix_start as int),
    decreases old(arr)@.len() - ix_start,
{
    proof {
        assert(arr@.len() == arr.len());
    }
    let ix_left: usize = left(ix_start);
    let ix_right: usize = right(ix_start);
    let mut ix_largest: usize = ix_start;
    if arr[ix_left] != SENTINEL && arr[ix_largest] < arr[ix_left] {
        ix_largest = ix_left;
    }
    if arr[ix_right] != SENTINEL && arr[ix_largest] < arr[ix_right] {
        ix_largest = ix_right;
    }
    if ix_largest != ix_start {
        let ghost ix_other: int = if ix_largest == ix_left {
            ix_right as int
        } else {
            ix_left as int
        };
        proof {
            lemma_sift_ready(arr@, ix_start as int, ix_largest as int);
        }
        swap(arr, ix_start, ix_largest);
        max_heapify(arr, ix_largest);
        proof {
            lemma_sift_done(old(arr)@, arr@, ix_start as int, ix_largest as int, ix_other);
        }
    }
    proof {
        assert(slot_ok(arr@, ix_left as int));
        assert(slot_ok(arr@, ix_right as int));
        lemma_heap_join(arr@, ix_start as int);
    }
}

/// Length of the heap buffer for `len` elements: the smallest power of two
/// greater than twice `len`, so that every element's slot has both child slots.
pub fn buffer_len(len: usize) -> (n: usize)
    requires
        1 <= len <= usize::MAX / 4,
    ensures
        is_pow2(n as int),
        2 * len < n <= 4 * len,
{
    let mut next_pow: usize = 2;
    proof {
        reveal(is_pow2);
        assert(is_pow2(1));
    }
    while next_pow <= len
        invariant
            is_pow2(next_pow as int),
            2 <= next_pow <= 2 * len,
            len <= usize::MAX / 4,
        decreases 2 * len - next_pow,
    {
        proof {
            reveal(is_pow2);
        }
        next_pow = next_pow * 2;
    }
    proof {
        reveal(is_pow2);
    }
    next_pow * 2
}

/// The subtrees under slot `from` and every later slot are max-heaps: each
/// slot whose parent is `from` or later is empty or holds no more than its
/// parent.
spec fn heap_from(s: Seq<i32>, from: int) -> bool {
    forall|c: int| 1 <= c < s.len() && parent_of(c) >= from ==> #[trigger] slot_ok(s, c)
}

/// Where all slots from `len` on are empty, the slots of the second half of
/// the first `len` have no occupied children.
proof fn lemma_leaves_are_heaps(s: Seq<i32>, len: int)
    requires
        0 <= len <= s.len(),
        forall|k: int| len <= k < s.len() ==> s[k] == SENTINEL,
    ensures
        heap_from(s, len / 2),
{
}

/// Under `root`, a slot that is not before `from`, the subtree is a max-heap.
proof fn lemma_heap_from_below(s: Seq<i32>, from: int, root: int)
    requires
        0 <= from <= root,
        heap_from(s, from),
    ensures
        heap_below(s, root),
{
    assert forall|j: int|
        0 <= j < s.len() && j != root && #[trigger] descends(j, root) implies slot_ok(s, j) by {
        assert(descends(parent_of(j), root));
    }
}

/// Sifting slot `j` extends the max-heaps under the later slots to slot `j`.
proof fn lemma_heap_from_grows(s: Seq<i32>, t: Seq<i32>, j: int)
    requires
        0 <= j,
        heap_from(s, j + 1),
        sifted(s, t, j),
    ensures
        heap_from(t, j),
{
    assert forall|c: int| 1 <= c < t.len() && parent_of(c) >= j implies #[trigger] slot_ok(
        t,
        c,
    ) by {
        if !descends(c, j) {
            // neither the slot nor its parent lies under `j`: both are unchanged
            assert(!descends(parent_of(c), j));
            assert(slot_ok(s, c));
        }
    }
}

/// In a max-heap whose first `size` slots are all occupied, or in which no
/// slot holds less than an empty one, none of the first `size` slots holds
/// more than slot 0.
proof fn lemma_top_is_max(s: Seq<i32>, size: int, i: int)
    requires
        0 <= i < size <= s.len(),
        heap_below(s, 0),
        (forall|k: int| 0 <= k < size ==> s[k] != SENTINEL) || (forall|k: int|
            0 <= k < s.len() ==> s[k] >= SENTINEL),
    ensures
        s[i] <= s[0],
    decreases i,
{
    if i > 0 {
        lemma_descends_from_top(i);
        assert(slot_ok(s, i));
        lemma_top_is_max(s, size, parent_of(i));
    }
}

/// Two buffers that hold the same elements and agree from slot `m` on hold
/// the same elements in their first `m` slots.
proof fn lemma_front_permutation(s: Seq<i32>, t: Seq<i32>, m: int)
    requires
        0 <= m <= s.len(),
        s.len() == t.len(),
        permutation(s, t),
        forall|i: int| m <= i < s.len() ==> s[i] == t[i],
    ensures
        permutation(s.subrange(0, m), t.subrange(0, m)),
{
    let n = s.len() as int;
    lemma_split_range(s, 0, m, n);
    lemma_split_range(t, 0, m, n);
    assert(s.subrange(0, n) =~= s);
    assert(t.subrange(0, n) =~= t);
    assert(s.subrange(m, n) =~= t.subrange(m, n));
    let tail = s.subrange(m, n).to_multiset();
    let a = s.subrange(0, m).to_multiset();
    let b = t.subrange(0, m).to_multiset();
    assert forall|v: i32| a.count(v) == b.count(v) by {
        assert(a.add(tail).count(v) == a.count(v) + tail.count(v));
        assert(b.add(tail).count(v) == b.count(v) + tail.count(v));
    }
    assert(a =~= b);
}

/// The state of a heap sort of `input` while `size` elements are still in the
/// heap. The first `size` slots of `heap` and the positions of `out` from
/// `size` on hold the elements of `input` between them; `heap` is a max-heap
/// with every slot from `size` on empty. Where `input` is [`sentinel_safe`],
/// the part of `out` from `size` on is in order and holds nothing less than
/// what is left in the heap.
spec fn draining(input: Seq<i32>, heap: Seq<i32>, out: Seq<i32>, size: int) -> bool {
    let len = input.len() as int;
    &&& out.len() == len
    &&& 0 <= size <= len
    &&& 2 * len < heap.len()
    &&& padded(heap)
    &&& heap_below(heap, 0)
    &&& forall|k: int| size <= k < heap.len() ==> heap[k] == SENTINEL
    &&& permutation(input, heap.subrange(0, size) + out.subrange(size, len))
    &&& sentinel_safe(input) ==> {
        &&& sorted(out.subrange(size, len))
        &&& forall|i: int, k: int| 0 <= i < size && size <= k < len ==> heap[i] <= out[k]
    }
}

/// What the heap buffer holds once its root has been exchanged with the last
/// occupied slot and that slot has been emptied.
spec fn root_removed(heap: Seq<i32>, size: int) -> Seq<i32> {
    exchanged(heap, 0, size - 1).update(size - 1, SENTINEL)
}

/// Once the root has been taken out, the slot at the root can be sifted.
proof fn lemma_drain_ready(input: Seq<i32>, heap: Seq<i32>, out: Seq<i32>, size: int)
    requires
        draining(input, heap, out, size),
        1 <= size,
    ensures
        padded(root_removed(heap, size)),
        heap_below(root_removed(heap, size), 1),
        heap_below(root_removed(heap, size), 2),
{
    let t = root_removed(heap, size);
    lemma_descends_children(0);
    lemma_heap_split(heap, 0);
    assert forall|d: int| 0 <= d < t.len() && d != 1 && #[trigger] descends(d, 1) implies slot_ok(
        t,
        d,
    ) by {
        assert(descends(parent_of(d), 1));
        assert(slot_ok(heap, d));
    }
    assert forall|d: int| 0 <= d < t.len() && d != 2 && #[trigger] descends(d, 2) implies slot_ok(
        t,
        d,
    ) by {
        assert(descends(parent_of(d), 2));
        assert(slot_ok(heap, d));
    }
    assert forall|i: int| 0 <= i < t.len() && #[trigger] t[i] != SENTINEL implies 2 * i + 2
        < t.len() by {
        if i != 0 {
            assert(heap[i] != SENTINEL);
        }
    }
}

/// Taking the root out, sifting the new root and writing what was taken out
/// to position `size - 1` leads from one state of the sort to the next.
proof fn lemma_drain_step(
    input: Seq<i32>,
    heap: Seq<i32>,
    out: Seq<i32>,
    size: int,
    sunk: Seq<i32>,
)
    requires
        draining(input, heap, out, size),
        1 <= size,
        sifted(root_removed(heap, size), sunk, 0),
    ensures
        draining(input, sunk, out.update(size - 1, heap[0]), size - 1),
{
    let len = input.len() as int;
    let last = size - 1;
    let taken = heap[0];
    let removed = root_removed(heap, size);
    let out2 = out.update(last, taken);
    let live0 = heap.subrange(0, size);
    let rest0 = out.subrange(size, len);
    let live = sunk.subrange(0, last);
    let rest = out2.subrange(last, len);

    // the slots from `last` on are empty
    assert forall|k: int| last <= k < sunk.len() implies sunk[k] == SENTINEL by {
        if k == 0 {
            // nothing is left: the root and its children are empty
            assert(removed[0] == SENTINEL);
            assert(removed[1] == SENTINEL);
            assert(removed[2] == SENTINEL);
        }
    }

    // the elements are kept
    lemma_swap_permutes(heap, 0, last, 0, size);
    lemma_front_permutation(removed, sunk, last);
    assert(exchanged(heap, 0, last).subrange(0, size) =~= removed.subrange(0, last).push(taken));
    to_multiset_build(removed.subrange(0, last), taken);
    assert(rest =~= rest0.insert(0, taken));
    to_multiset_insert(rest0, 0, taken);
    lemma_multiset_commutative(live0, rest0);
    lemma_multiset_commutative(live, rest);
    assert((live + rest).to_multiset() =~= (live0 + rest0).to_multiset());

    // the order is kept where no element passes for an empty slot
    if sentinel_safe(input) {
        if forall|i: int| 0 <= i < len ==> input[i] != SENTINEL {
            lemma_permutation_keeps(input, live0 + rest0, |x: i32| x != SENTINEL);
            assert forall|k: int| 0 <= k < size implies heap[k] != SENTINEL by {
                assert((live0 + rest0)[k] == heap[k]);
            }
        } else {
            lemma_permutation_keeps(input, live0 + rest0, |x: i32| x >= SENTINEL);
            assert forall|k: int| 0 <= k < heap.len() implies heap[k] >= SENTINEL by {
                if k < size {
                    assert((live0 + rest0)[k] == heap[k]);
                }
            }
        }
        // what was taken out is the greatest of the heap
        assert forall|k: int| 0 <= k < size implies heap[k] <= taken by {
            lemma_top_is_max(heap, size, k);
        }
        assert forall|k: int| 0 <= k < last implies (#[trigger] removed.subrange(0, last)[k])
            <= taken by {}
        lemma_permutation_keeps(removed.subrange(0, last), live, |x: i32| x <= taken);
        assert forall|i: int, k: int| 0 <= i < last && last <= k < len implies sunk[i]
            <= out2[k] by {
            assert(live[i] == sunk[i]);
            if k > last {
                assert(heap[0] <= out[k]);
            }
        }
        // and the least of what was taken out before
        assert forall|i: int, k: int| 0 <= i <= k < rest.len() implies rest[i] <= rest[k] by {
            if i > 0 {
                assert(rest0[i - 1] <= rest0[k - 1]);
            } else if k > 0 {
                assert(heap[0] <= out[last + k]);
            }
        }
    }
}

/// Sorts `arr` in ascending order and hands the slice back.
///
/// The elements are copied into a buffer padded with [`SENTINEL`], which is
/// made a max-heap from the last inner slot up to the root. Then the root,
/// the greatest element left, is exchanged with the last occupied slot, that
/// slot is marked empty, the new root is sifted down, and the element taken
/// out is written to `arr` at the position the heap has just given up.
///
/// A slice of fewer than two elements is returned as it is.
///
/// The result always holds the elements that `arr` held. It is in ascending
/// order whenever the input is [`sentinel_safe`]. An input that holds both
/// `SENTINEL` and a smaller value may come out unordered, because an element
/// equal to `SENTINEL` is taken for an empty slot.
pub fn heap_sort(arr: &mut [i32]) -> (out: &[i32])
    requires
        old(arr)@.len() <= usize::MAX / 4,
    ensures
        final(arr)@.len() == old(arr)@.len(),
        permutation(old(arr)@, final(arr)@),
        sentinel_safe(old(arr)@) ==> sorts_range(
            old(arr)@,
            final(arr)@,
            0,
            old(arr)@.len() as int,
        ),
        out@ == final(arr)@,
{
    let len: usize = arr.len();
    if len < 2 {
        proof {
            assert(arr@.subrange(0, len as int) =~= arr@);
        }
        return arr;
    }
    // Copy the elements into a buffer padded with empty slots
    let cap: usize = buffer_len(len);
    let mut heap: Vec<i32> = vec![SENTINEL; cap];

    for ix in 0..len
        invariant
            arr@ == old(arr)@,
            len == arr@.len(),
            heap@.len() == cap,
            2 * len < cap,
            forall|k: int| 0 <= k < ix ==> heap@[k] == arr@[k],
            forall|k: int| ix <= k < cap ==> heap@[k] == SENTINEL,
    {
        heap[ix] = arr[ix];
    }
    proof {
        assert(heap@.subrange(0, len as int) =~= arr@);
        lemma_leaves_are_heaps(heap@, len as int);
    }

    // Make the buffer a max-heap, from the parents of the leaves up to the
    // root: the subtrees under a slot are max-heaps when its turn comes
    for i in 0..(len / 2)
        invariant
            arr@ == old(arr)@,
            len == arr@.len(),
            heap@.len() == cap,
            2 * len < cap,
            padded(heap@),
            heap_from(heap@, len / 2 - i),
            forall|k: int| len <= k < cap ==> heap@[k] == SENTINEL,
            permutation(heap@.subrange(0, len as int), arr@),
    {
        let j: usize = len / 2 - 1 - i;
        let ghost before = heap@;
        proof {
            lemma_heap_from_below(before, j + 1, left_of(j as int));
            lemma_heap_from_below(before, j + 1, right_of(j as int));
        }
        max_heapify(&mut heap, j);
        proof {
            lemma_heap_from_grows(before, heap@, j as int);
            lemma_front_permutation(before, heap@, len as int);
        }
    }
    proof {
        lemma_heap_from_below(heap@, 0, 0);
        assert(heap@.subrange(0, len as int) + arr@.subrange(len as int, len as int)
            =~= heap@.subrange(0, len as int));
    }

    let mut heap_size: usize = len;
    while heap_size > 0
        invariant
            heap@.len() == cap,
            draining(old(arr)@, heap@, arr@, heap_size as int),
        decreases heap_size,
    {
        let ghost full = heap@;
        proof {
            lemma_drain_ready(old(arr)@, full, arr@, heap_size as int);
        }
        // Take the root, the greatest element left, out of the heap
        swap(&mut heap, 0, heap_size - 1);
        let discarded: i32 = heap[heap_size - 1];
        heap[heap_size - 1] = SENTINEL;

        // Let the new root sink to its place
        max_heapify(&mut heap, 0);

        proof {
            lemma_drain_step(old(arr)@, full, arr@, heap_size as int, heap@);
        }
        // It belongs where the heap has just ended
        arr[heap_size - 1] = discarded;
        heap_size = heap_size - 1;
    }
    proof {
        assert(heap@.subrange(0, 0) + arr@.subrange(0, len as int) =~= arr@);
        assert(arr@.subrange(0, len as int) =~= arr@);
        assert(old(arr)@.subrange(0, len as int) =~= old(arr)@);
    }
    arr
}

} // verus!
