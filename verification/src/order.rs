//! What it means for a sequence to be sorted, and the facts about
//! permutations of sub-ranges that the sorting proofs share.

use vstd::prelude::*;
use vstd::multiset::{lemma_multiset_empty_len, Multiset};
use vstd::seq_lib::{lemma_multiset_commutative, to_multiset_len, to_multiset_update};

verus! {

/// No element of `s` is greater than a later one.
pub open spec fn sorted(s: Seq<i32>) -> bool {
    forall|i: int, j: int| 0 <= i <= j < s.len() ==> s[i] <= s[j]
}

/// `a` and `b` hold the same elements, each the same number of times.
pub open spec fn permutation(a: Seq<i32>, b: Seq<i32>) -> bool {
    a.to_multiset() == b.to_multiset()
}

/// `after` agrees with `before` at every position outside `[from, to)`.
pub open spec fn same_outside(before: Seq<i32>, after: Seq<i32>, from: int, to: int) -> bool {
    &&& after.len() == before.len()
    &&& forall|i: int| 0 <= i < from && i < before.len() ==> after[i] == before[i]
    &&& forall|i: int| to <= i < before.len() && 0 <= i ==> after[i] == before[i]
}

/// `after` is `before` with the elements of `[from, to)` rearranged among
/// themselves and nothing else touched.
pub open spec fn permutes_range(before: Seq<i32>, after: Seq<i32>, from: int, to: int) -> bool {
    &&& same_outside(before, after, from, to)
    &&& permutation(before.subrange(from, to), after.subrange(from, to))
}

/// `after` is `before` with the range `[from, to)` put in ascending order:
/// the range holds the same elements as before, no element of it is greater
/// than a later one, and every position outside it is unchanged.
pub open spec fn sorts_range(before: Seq<i32>, after: Seq<i32>, from: int, to: int) -> bool {
    &&& permutes_range(before, after, from, to)
    &&& sorted(after.subrange(from, to))
}

/// An empty range holds no elements.
pub proof fn lemma_empty_range(s: Seq<i32>, a: int)
    requires
        0 <= a <= s.len(),
    ensures
        s.subrange(a, a).to_multiset() == Multiset::<i32>::empty(),
{
    to_multiset_len(s.subrange(a, a));
    lemma_multiset_empty_len(s.subrange(a, a).to_multiset());
}

/// The elements of `s[a..c)` are those of `s[a..b)` together with those of `s[b..c)`.
pub proof fn lemma_split_range(s: Seq<i32>, a: int, b: int, c: int)
    requires
        0 <= a <= b <= c <= s.len(),
    ensures
        s.subrange(a, c).to_multiset() == s.subrange(a, b).to_multiset().add(
            s.subrange(b, c).to_multiset(),
        ),
{
    assert(s.subrange(a, c) =~= s.subrange(a, b) + s.subrange(b, c));
    lemma_multiset_commutative(s.subrange(a, b), s.subrange(b, c));
}

/// Rearranging an inner range `[a, b)` rearranges every range `[from, to)` around it.
pub proof fn lemma_permutes_wider(
    before: Seq<i32>,
    after: Seq<i32>,
    from: int,
    a: int,
    b: int,
    to: int,
)
    requires
        0 <= from <= a <= b <= to <= before.len(),
        permutes_range(before, after, a, b),
    ensures
        permutes_range(before, after, from, to),
{
    lemma_split_range(before, from, a, to);
    lemma_split_range(before, a, b, to);
    lemma_split_range(after, from, a, to);
    lemma_split_range(after, a, b, to);
    assert(before.subrange(from, a) =~= after.subrange(from, a));
    assert(before.subrange(b, to) =~= after.subrange(b, to));
}

/// Exchanging two elements of a range rearranges that range.
pub proof fn lemma_swap_permutes(s: Seq<i32>, i: int, j: int, from: int, to: int)
    requires
        0 <= from <= i < to <= s.len(),
        from <= j < to,
    ensures
        permutes_range(s, s.update(i, s[j]).update(j, s[i]), from, to),
{
    let t = s.update(i, s[j]).update(j, s[i]);
    let a = s.subrange(from, to);
    let b = t.subrange(from, to);
    assert(b =~= a.update(i - from, a[j - from]).update(j - from, a[i - from]));
    to_multiset_update(a, i - from, a[j - from]);
    to_multiset_update(a.update(i - from, a[j - from]), j - from, a[i - from]);
    a.to_multiset_ensures();
    assert(b.to_multiset() =~= a.to_multiset());
}

/// Every element of a permutation of `s` occurs in `s`.
pub proof fn lemma_permutation_elements(s: Seq<i32>, t: Seq<i32>)
    requires
        permutation(s, t),
    ensures
        forall|i: int| 0 <= i < t.len() ==> s.contains(#[trigger] t[i]),
        s.len() == t.len(),
{
    s.to_multiset_ensures();
    t.to_multiset_ensures();
    assert forall|i: int| 0 <= i < t.len() implies s.contains(#[trigger] t[i]) by {
        assert(t.contains(t[i]));
        assert(s.to_multiset().count(t[i]) > 0);
    }
}

/// What holds of every element of `s` holds of every element of a
/// permutation of `s`.
pub proof fn lemma_permutation_keeps(s: Seq<i32>, t: Seq<i32>, holds: spec_fn(i32) -> bool)
    requires
        permutation(s, t),
        forall|i: int| 0 <= i < s.len() ==> holds(#[trigger] s[i]),
    ensures
        forall|i: int| 0 <= i < t.len() ==> holds(#[trigger] t[i]),
{
    lemma_permutation_elements(s, t);
    assert forall|i: int| 0 <= i < t.len() implies holds(#[trigger] t[i]) by {
        let k = choose|k: int| 0 <= k < s.len() && s[k] == t[i];
        assert(holds(s[k]));
    }
}

} // verus!
