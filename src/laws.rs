//! General facts about sorting as both drivers' contracts describe it.
use vstd::prelude::*;
use vstd::relations::{sorted_by, total_ordering};
use crate::order::{adjacent_ordered, sorted, sorts};

verus! {

/// The order on `i32` values, as a relation.
pub open spec fn leq() -> spec_fn(i32, i32) -> bool {
    |x: i32, y: i32| x <= y
}

/// A reference sort of `s`: the sequence sorted by `leq`.
pub open spec fn reference_sort(s: Seq<i32>) -> Seq<i32> {
    s.sort_by(leq())
}

proof fn lemma_sorted_by_leq(s: Seq<i32>)
    requires
        sorted(s),
    ensures
        sorted_by(s, leq()),
{
    assert forall|i: int, j: int| 0 <= i < j < s.len() implies #[trigger] leq()(s[i], s[j]) by {
        assert(s[i] <= s[j]);
    }
}

proof fn lemma_leq_total()
    ensures
        total_ordering(leq()),
{
}

/// A sequence has exactly one sorted arrangement: any two sorted sequences
/// with the elements of `s` are the same, and equal to the reference sort of
/// `s`. So both drivers give the same result on every input.
pub proof fn lemma_sorting_is_unique(s: Seq<i32>, a: Seq<i32>, b: Seq<i32>)
    requires
        sorts(a, s),
        sorts(b, s),
    ensures
        a == b,
        a == reference_sort(s),
{
    lemma_leq_total();
    lemma_sorted_by_leq(a);
    lemma_sorted_by_leq(b);
    s.lemma_sort_by_ensures(leq());
    vstd::seq_lib::lemma_sorted_unique(a, b, leq());
    vstd::seq_lib::lemma_sorted_unique(a, reference_sort(s), leq());
}

/// In a sorted result every element is at most the one after it.
pub proof fn lemma_sorted_adjacent(s: Seq<i32>, r: Seq<i32>)
    requires
        sorts(r, s),
    ensures
        adjacent_ordered(r),
{
}

/// Sorting a sorted result again changes nothing.
pub proof fn lemma_sort_idempotent(s: Seq<i32>, once: Seq<i32>, twice: Seq<i32>)
    requires
        sorts(once, s),
        sorts(twice, once),
    ensures
        twice == once,
{
    lemma_sorting_is_unique(once, twice, once);
}

/// Sorting an empty or one-element sequence gives it back unchanged.
pub proof fn lemma_sort_short(s: Seq<i32>, r: Seq<i32>)
    requires
        s.len() <= 1,
        sorts(r, s),
    ensures
        r == s,
{
    lemma_sorting_is_unique(s, r, s);
}

} // verus!
