//! The binary tree that a heap lays over a buffer: slot 0 is the root, and
//! the children of slot `i` are the slots `2i + 1` and `2i + 2`.

use vstd::prelude::*;

verus! {

/// Index of the left child of slot `i`.
pub open spec fn left_of(i: int) -> int {
    2 * i + 1
}

/// Index of the right child of slot `i`.
pub open spec fn right_of(i: int) -> int {
    2 * (i + 1)
}

/// Index of the parent of slot `i`, for `i >= 1`.
pub open spec fn parent_of(i: int) -> int {
    (i + 1) / 2 - 1
}

/// Slot `j` lies in the subtree whose root is slot `i`.
pub open spec fn descends(j: int, i: int) -> bool
    decreases j,
{
    j == i || (0 <= i < j && descends(parent_of(j), i))
}

/// Index of the left child of slot `i`.
pub fn left(i: usize) -> (l: usize)
    requires
        2 * i + 1 <= usize::MAX,
    ensures
        l == left_of(i as int),
{
    return 2 * i + 1;
}

/// Index of the right child of slot `i`.
pub fn right(i: usize) -> (r: usize)
    requires
        2 * (i + 1) <= usize::MAX,
    ensures
        r == right_of(i as int),
{
    return 2 * (i + 1);
}

/// Index of the parent of slot `i`. The root has no parent.
pub fn parent(i: usize) -> (p: usize)
    requires
        1 <= i < usize::MAX,
    ensures
        p == parent_of(i as int),
        left_of(p as int) == i || right_of(p as int) == i,
{
    return ((i + 1) / 2) - 1;
}

/// Each child of a slot lies in that slot's subtree.
pub proof fn lemma_descends_children(i: int)
    requires
        0 <= i,
    ensures
        descends(left_of(i), i),
        descends(right_of(i), i),
{
    assert(descends(i, i));
}

/// A slot below `i` in the subtree of `i` lies in the subtree of one of the children of `i`.
pub proof fn lemma_descends_split(j: int, i: int)
    requires
        0 <= i,
        descends(j, i),
        j != i,
    ensures
        descends(j, left_of(i)) || descends(j, right_of(i)),
    decreases j,
{
    let p = parent_of(j);
    if p != i {
        lemma_descends_split(p, i);
    }
}

/// The subtree of a child of `i` lies in the subtree of `i`, below `i`.
pub proof fn lemma_descends_join(j: int, i: int)
    requires
        0 <= i,
        descends(j, left_of(i)) || descends(j, right_of(i)),
    ensures
        descends(j, i),
        j != i,
    decreases j,
{
    lemma_descends_children(i);
    if j != left_of(i) && j != right_of(i) {
        lemma_descends_join(parent_of(j), i);
    }
}

/// The subtrees of the two children of a slot share no slot.
pub proof fn lemma_descends_apart(j: int, i: int)
    requires
        0 <= i,
    ensures
        !(descends(j, left_of(i)) && descends(j, right_of(i))),
    decreases j,
{
    if j > right_of(i) {
        lemma_descends_apart(parent_of(j), i);
    } else if j == right_of(i) {
        assert(!descends(i, left_of(i)));
    }
}

/// Every slot lies in the subtree of slot 0.
pub proof fn lemma_descends_from_top(j: int)
    requires
        0 <= j,
    ensures
        descends(j, 0),
    decreases j,
{
    if j > 0 {
        lemma_descends_from_top(parent_of(j));
    }
}

} // verus!
