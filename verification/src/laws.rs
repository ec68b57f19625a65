//! Laws that hold of every sort of this crate. They are stated over
//! [`sorts_range`], the relation between a slice before and after a sort that
//! each sort function promises, so that they hold of whatever such a function
//! returns.

use vstd::prelude::*;
use vstd::seq_lib::lemma_sorted_unique;
use crate::heap::{sentinel_safe, SENTINEL};
use crate::order::{lemma_permutes_wider, lemma_swap_permutes, permutation, sorted, sorts_range};

verus! {

/// No element precedes a smaller one exactly when no element is greater than
/// the one that follows it.
pub proof fn law_sorted_is_adjacent_order(s: Seq<i32>)
    ensures
        sorted(s) <==> forall|i: int| 0 <= i && i + 1 < s.len() ==> s[i] <= #[trigger] s[i + 1],
{
    if forall|i: int| 0 <= i && i + 1 < s.len() ==> s[i] <= #[trigger] s[i + 1] {
        assert forall|i: int, j: int| 0 <= i <= j < s.len() implies s[i] <= s[j] by {
            lemma_adjacent_chain(s, i, j);
        }
    }
}

/// Where no element is greater than its successor, none is greater than any later one.
proof fn lemma_adjacent_chain(s: Seq<i32>, i: int, j: int)
    requires
        0 <= i <= j < s.len(),
        forall|k: int| 0 <= k && k + 1 < s.len() ==> s[k] <= #[trigger] s[k + 1],
    ensures
        s[i] <= s[j],
    decreases j - i,
{
    if i < j {
        lemma_adjacent_chain(s, i, j - 1);
        assert(s[j - 1] <= s[j - 1 + 1]);
    }
}

/// After a sort of `[from, to)`, no element of the range is greater than the
/// one that follows it in the range.
pub proof fn law_adjacent_order(before: Seq<i32>, after: Seq<i32>, from: int, to: int)
    requires
        0 <= from <= to <= before.len(),
        sorts_range(before, after, from, to),
    ensures
        forall|i: int| from <= i && i + 1 < to ==> after[i] <= #[trigger] after[i + 1],
{
    let range = after.subrange(from, to);
    assert forall|i: int| from <= i && i + 1 < to implies after[i] <= #[trigger] after[i + 1] by {
        assert(range[i - from] <= range[i + 1 - from]);
    }
}

/// A sort of a range keeps the elements of the whole sequence, not only those
/// of the range: nothing is added, dropped or duplicated.
pub proof fn law_elements_kept(before: Seq<i32>, after: Seq<i32>, from: int, to: int)
    requires
        0 <= from <= to <= before.len(),
        sorts_range(before, after, from, to),
    ensures
        permutation(before, after),
        after.len() == before.len(),
{
    lemma_permutes_wider(before, after, 0, from, to, before.len() as int);
    assert(before.subrange(0, before.len() as int) =~= before);
    assert(after.subrange(0, before.len() as int) =~= after);
}

/// Two sorted sequences that hold the same elements are the same sequence.
pub proof fn law_sorted_unique(x: Seq<i32>, y: Seq<i32>)
    requires
        sorted(x),
        sorted(y),
        permutation(x, y),
    ensures
        x == y,
{
    lemma_sorted_unique(x, y, |a: i32, b: i32| a <= b);
}

/// The result of a sort is determined by its input: two outcomes of sorting
/// the same range of the same sequence are equal.
pub proof fn law_result_unique(before: Seq<i32>, a: Seq<i32>, b: Seq<i32>, from: int, to: int)
    requires
        0 <= from <= to <= before.len(),
        sorts_range(before, a, from, to),
        sorts_range(before, b, from, to),
    ensures
        a == b,
{
    law_sorted_unique(a.subrange(from, to), b.subrange(from, to));
    assert forall|i: int| 0 <= i < a.len() implies a[i] == b[i] by {
        if from <= i < to {
            assert(a.subrange(from, to)[i - from] == b.subrange(from, to)[i - from]);
        }
    }
    assert(a =~= b);
}

/// Sorting a range that is already sorted changes nothing.
pub proof fn law_sorted_unchanged(before: Seq<i32>, after: Seq<i32>, from: int, to: int)
    requires
        0 <= from <= to <= before.len(),
        sorted(before.subrange(from, to)),
        sorts_range(before, after, from, to),
    ensures
        after == before,
{
    assert(sorts_range(before, before, from, to));
    law_result_unique(before, after, before, from, to);
}

/// Sorting a range a second time changes nothing.
pub proof fn law_idempotent(
    before: Seq<i32>,
    once: Seq<i32>,
    twice: Seq<i32>,
    from: int,
    to: int,
)
    requires
        0 <= from <= to <= before.len(),
        sorts_range(before, once, from, to),
        sorts_range(once, twice, from, to),
    ensures
        twice == once,
{
    law_sorted_unchanged(once, twice, from, to);
}

/// A sort of an empty range or of a range of one element changes nothing.
pub proof fn law_short_range_unchanged(before: Seq<i32>, after: Seq<i32>, from: int, to: int)
    requires
        0 <= from <= to <= before.len(),
        to - from <= 1,
        sorts_range(before, after, from, to),
    ensures
        after == before,
{
    law_sorted_unchanged(before, after, from, to);
}

/// A sort of a range of two elements leaves the smaller one first and the
/// greater one second, whichever way round they stood.
pub proof fn law_pair_ordered(before: Seq<i32>, after: Seq<i32>, from: int, to: int)
    requires
        0 <= from,
        to == from + 2,
        to <= before.len(),
        sorts_range(before, after, from, to),
    ensures
        after[from] == if before[from] <= before[from + 1] {
            before[from]
        } else {
            before[from + 1]
        },
        after[from + 1] == if before[from] <= before[from + 1] {
            before[from + 1]
        } else {
            before[from]
        },
{
    if before[from] <= before[from + 1] {
        law_sorted_unchanged(before, after, from, to);
    } else {
        let flipped = before.update(from, before[from + 1]).update(from + 1, before[from]);
        lemma_swap_permutes(before, from, from + 1, from, to);
        law_result_unique(before, after, flipped, from, to);
    }
}

/// A sort of a range whose elements are all equal changes nothing.
pub proof fn law_equal_elements_unchanged(before: Seq<i32>, after: Seq<i32>, from: int, to: int)
    requires
        0 <= from <= to <= before.len(),
        forall|i: int, j: int| from <= i < to && from <= j < to ==> before[i] == before[j],
        sorts_range(before, after, from, to),
    ensures
        after == before,
{
    let range = before.subrange(from, to);
    assert forall|i: int, j: int| 0 <= i <= j < range.len() implies range[i] <= range[j] by {
        assert(before[from + i] == before[from + j]);
    }
    law_sorted_unchanged(before, after, from, to);
}

/// In a range where every element but the one at `odd` equals `common`, a
/// sort puts the odd one first if it is the smaller and last if it is the
/// greater, and `common` everywhere else.
pub proof fn law_odd_one_placed(
    before: Seq<i32>,
    after: Seq<i32>,
    from: int,
    to: int,
    odd: int,
    common: i32,
)
    requires
        0 <= from <= odd < to <= before.len(),
        forall|i: int| from <= i < to && i != odd ==> before[i] == common,
        sorts_range(before, after, from, to),
    ensures
        before[odd] <= common ==> after[from] == before[odd] && forall|i: int|
            from < i < to ==> after[i] == common,
        before[odd] >= common ==> after[to - 1] == before[odd] && forall|i: int|
            from <= i < to - 1 ==> after[i] == common,
{
    let place = if before[odd] <= common {
        from
    } else {
        to - 1
    };
    // exchanging the odd one with the element at its place sorts the range
    let moved = before.update(odd, before[place]).update(place, before[odd]);
    lemma_swap_permutes(before, odd, place, from, to);
    let range = moved.subrange(from, to);
    assert forall|i: int, j: int| 0 <= i <= j < range.len() implies range[i] <= range[j] by {
        assert(range[i] == moved[from + i]);
        assert(range[j] == moved[from + j]);
    }
    law_result_unique(before, after, moved, from, to);
}

/// A slice of at most one element is one that heap sort puts in order,
/// whatever it holds.
pub proof fn law_short_is_sentinel_safe(s: Seq<i32>)
    requires
        s.len() <= 1,
    ensures
        sentinel_safe(s),
{
    if s.len() == 1 && s[0] == SENTINEL {
        assert(forall|i: int| 0 <= i < s.len() ==> s[i] >= SENTINEL);
    }
}

/// A slice of equal elements is one that heap sort puts in order, whatever
/// the elements are.
pub proof fn law_equal_is_sentinel_safe(s: Seq<i32>)
    requires
        forall|i: int, j: int| 0 <= i < s.len() && 0 <= j < s.len() ==> s[i] == s[j],
    ensures
        sentinel_safe(s),
{
    if s.len() > 0 {
        if s[0] == SENTINEL {
            assert forall|i: int| 0 <= i < s.len() implies s[i] >= SENTINEL by {
                assert(s[i] == s[0]);
            }
        } else {
            assert forall|i: int| 0 <= i < s.len() implies s[i] != SENTINEL by {
                assert(s[i] == s[0]);
            }
        }
    }
}

/// A slice without negative elements is one that heap sort puts in order.
pub proof fn law_non_negative_is_sentinel_safe(s: Seq<i32>)
    requires
        forall|i: int| 0 <= i < s.len() ==> s[i] >= 0,
    ensures
        sentinel_safe(s),
{
}

} // verus!
