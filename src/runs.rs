//! Natural runs: maximal stretches of a sequence that are already ascending
//! (non-decreasing) or strictly descending.
use vstd::prelude::*;
use crate::order::{adjacent_ordered, lemma_adjacent_sorted, sorted};

verus! {

/// The run that starts at `start` is descending: the next element is smaller.
pub open spec fn descends_at(s: Seq<i32>, start: int) -> bool {
    start + 1 < s.len() && s[start] > s[start + 1]
}

/// The pair at `k`, `k + 1` keeps a run of the given direction going.
pub open spec fn continues(s: Seq<i32>, k: int, descending: bool) -> bool {
    if descending {
        s[k] > s[k + 1]
    } else {
        s[k] <= s[k + 1]
    }
}

/// `start..=end` is the longest run that begins at `start`.
pub open spec fn is_maximal_run(s: Seq<i32>, start: int, end: int) -> bool {
    &&& 0 <= start <= end < s.len()
    &&& forall|k: int| start <= k < end ==> continues(s, k, descends_at(s, start))
    &&& end + 1 == s.len() || !continues(s, end, descends_at(s, start))
}

/// The values of the run `start..=end` in ascending order: as they stand, or
/// reversed when the run descends.
pub open spec fn normalized_run(s: Seq<i32>, start: int, end: int) -> Seq<i32> {
    if descends_at(s, start) {
        s.subrange(start, end + 1).reverse()
    } else {
        s.subrange(start, end + 1)
    }
}

/// A maximal run, put in ascending order, is sorted and holds the elements
/// of its stretch of the sequence.
pub proof fn lemma_normalized_run(s: Seq<i32>, start: int, end: int)
    requires
        is_maximal_run(s, start, end),
    ensures
        sorted(normalized_run(s, start, end)),
        normalized_run(s, start, end).to_multiset() == s.subrange(start, end + 1).to_multiset(),
        normalized_run(s, start, end).len() == end + 1 - start,
{
    let t = s.subrange(start, end + 1);
    let d = descends_at(s, start);
    if d {
        let u = t.reverse();
        assert forall|k: int| 0 <= k < u.len() - 1 implies #[trigger] u[k] <= u[k + 1] by {
            assert(continues(s, end - k - 1, d));
        }
        assert(adjacent_ordered(u));
        lemma_adjacent_sorted(u);
        t.lemma_reverse_to_multiset();
    } else {
        assert forall|k: int| 0 <= k < t.len() - 1 implies #[trigger] t[k] <= t[k + 1] by {
            assert(continues(s, start + k, d));
        }
        assert(adjacent_ordered(t));
        lemma_adjacent_sorted(t);
    }
}

} // verus!
