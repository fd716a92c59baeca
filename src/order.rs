//! What it means for a sequence to be sorted, and the facts about sortedness
//! that both sorting drivers rely on.
use vstd::prelude::*;

verus! {

/// Every element is at most every later one.
pub open spec fn sorted(s: Seq<i32>) -> bool {
    forall|i: int, j: int| 0 <= i < j < s.len() ==> s[i] <= s[j]
}

/// No element is smaller than the one right before it.
pub open spec fn adjacent_ordered(s: Seq<i32>) -> bool {
    forall|k: int| 0 <= k < s.len() - 1 ==> #[trigger] s[k] <= s[k + 1]
}

/// `r` holds exactly the elements of `s`, each as often as in `s`.
pub open spec fn same_elements(r: Seq<i32>, s: Seq<i32>) -> bool {
    r.to_multiset() == s.to_multiset()
}

/// `r` is what sorting `s` must produce: ascending, with the elements of `s`.
pub open spec fn sorts(r: Seq<i32>, s: Seq<i32>) -> bool {
    sorted(r) && same_elements(r, s)
}

/// Tells whether no element of `slice` is smaller than the one before it.
pub fn is_sorted(slice: &[i32]) -> (r: bool)
    ensures
        r == sorted(slice@),
{
    let n = slice.len();
    if n == 0 {
        return true;
    }
    let mut i: usize = 1;
    while i < n
        invariant
            1 <= i <= n,
            n == slice@.len(),
            sorted(slice@.subrange(0, i as int)),
        decreases n - i,
    {
        if slice[i] < slice[i - 1] {
            return false;
        }
        assert(sorted(slice@.subrange(0, i + 1))) by {
            let t = slice@.subrange(0, i as int);
            assert forall|a: int, b: int| 0 <= a < b < i + 1 implies slice@[a] <= slice@[b] by {
                if b < i {
                    assert(t[a] <= t[b]);
                } else if a < b - 1 {
                    assert(t[a] <= t[b - 1]);
                }
            }
        }
        i = i + 1;
    }
    assert(slice@.subrange(0, n as int) =~= slice@);
    true
}

/// A sequence in which no element is smaller than the one before it is sorted.
pub proof fn lemma_adjacent_sorted(s: Seq<i32>)
    requires
        adjacent_ordered(s),
    ensures
        sorted(s),
{
    assert forall|i: int, j: int| 0 <= i < j < s.len() implies s[i] <= s[j] by {
        lemma_adjacent_chain(s, i, j);
    }
}

proof fn lemma_adjacent_chain(s: Seq<i32>, i: int, j: int)
    requires
        0 <= i <= j < s.len(),
        adjacent_ordered(s),
    ensures
        s[i] <= s[j],
    decreases j - i,
{
    if i < j {
        lemma_adjacent_chain(s, i, j - 1);
    }
}

/// Splitting a prefix in two splits its elements in two.
pub proof fn lemma_subrange_split(s: Seq<i32>, mid: int, hi: int)
    requires
        0 <= mid <= hi <= s.len(),
    ensures
        s.subrange(0, hi).to_multiset()
            == s.subrange(0, mid).to_multiset().add(s.subrange(mid, hi).to_multiset()),
{
    assert(s.subrange(0, hi) =~= s.subrange(0, mid) + s.subrange(mid, hi));
    vstd::seq_lib::lemma_multiset_commutative(s.subrange(0, mid), s.subrange(mid, hi));
}

} // verus!
