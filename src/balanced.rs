//! Natural merge sort with a balanced stack of runs: each detected run is
//! merged with the runs below it while it is at least as long as they are.
use vstd::multiset::Multiset;
use vstd::prelude::*;
use crate::order::{lemma_subrange_split, sorted, sorts};
use crate::runs::{continues, descends_at, is_maximal_run, lemma_normalized_run, normalized_run};

verus! {

broadcast use vstd::multiset::group_multiset_axioms, vstd::seq_lib::group_to_multiset_ensures;

/// The balanced run-stack sorter. It holds no state.
pub struct OnTheFlyBalancedMergeSort;

/// Every element of `a` is at most every element of `b` from index `from` on.
pub open spec fn below_rest(a: Seq<i32>, b: Seq<i32>, from: int) -> bool {
    forall|k: int, m: int| 0 <= k < a.len() && from <= m < b.len() ==> a[k] <= b[m]
}

/// All the elements held on a stack of runs.
pub open spec fn stack_elements(st: Seq<Vec<i32>>) -> Multiset<i32>
    decreases st.len(),
{
    if st.len() == 0 {
        Multiset::empty()
    } else {
        stack_elements(st.drop_last()).add(st.last()@.to_multiset())
    }
}

/// Every run on the stack is sorted.
pub open spec fn runs_sorted(st: Seq<Vec<i32>>) -> bool {
    forall|k: int| 0 <= k < st.len() ==> sorted(#[trigger] st[k]@)
}

/// Each run on the stack is shorter than the one beneath it.
pub open spec fn balanced(st: Seq<Vec<i32>>) -> bool {
    forall|k: int| 0 < k < st.len() ==> #[trigger] st[k]@.len() < st[k - 1]@.len()
}

impl OnTheFlyBalancedMergeSort {
    /// Sorts `arr` in place, ascending, and hands it back. Runs are read left
    /// to right; each new run is merged with the top of the stack while it
    /// is at least as long, and what is left on the stack is merged at the
    /// end.
    pub fn sort<'a>(&self, arr: &'a mut [i32]) -> (r: &'a mut [i32])
        ensures
            sorts(r@, old(arr)@),
            final(arr)@ == final(r)@,
    {
        let n = arr.len();
        if n <= 1 {
            return arr;
        }
        let ghost orig = arr@;
        let mut segment_stack: Vec<Vec<i32>> = Vec::new();
        let mut i: usize = 0;
        while i < n
            invariant
                n == arr@.len(),
                arr@ == orig,
                i <= n,
                i > 0 ==> segment_stack@.len() > 0,
                runs_sorted(segment_stack@),
                balanced(segment_stack@),
                stack_elements(segment_stack@) == orig.subrange(0, i as int).to_multiset(),
            decreases n - i,
        {
            let mut segment_end: usize = 0;
            let segment = Self::detect_segment(arr, i, &mut segment_end);
            proof {
                lemma_normalized_run(orig, i as int, segment_end - 1);
                lemma_subrange_split(orig, i as int, segment_end as int);
            }
            i = segment_end;
            let mut current = segment;
            while segment_stack.len() > 0
                && current.len() >= segment_stack[segment_stack.len() - 1].len()
                invariant
                    i <= n,
                    n == orig.len(),
                    current@.len() > 0,
                    sorted(current@),
                    runs_sorted(segment_stack@),
                    balanced(segment_stack@),
                    stack_elements(segment_stack@).add(current@.to_multiset())
                        == orig.subrange(0, i as int).to_multiset(),
                decreases segment_stack@.len(),
            {
                let ghost before = segment_stack@;
                let top = segment_stack.pop().unwrap();
                proof {
                    assert(before.drop_last() == segment_stack@);
                    assert(sorted(before[before.len() - 1]@));
                    assert(stack_elements(before) == stack_elements(segment_stack@).add(top@.to_multiset()));
                    assert(stack_elements(segment_stack@).add(top@.to_multiset()).add(current@.to_multiset())
                        =~= stack_elements(segment_stack@).add(top@.to_multiset().add(current@.to_multiset())));
                    assert(orig.subrange(0, i as int).to_multiset().len() == i);
                }
                current = Self::merge_two_arrays(top.as_slice(), current.as_slice());
            }
            let ghost below = segment_stack@;
            segment_stack.push(current);
            proof {
                assert(segment_stack@.drop_last() =~= below);
            }
        }
        assert(orig.subrange(0, n as int) =~= orig);
        while segment_stack.len() > 1
            invariant
                segment_stack@.len() >= 1,
                runs_sorted(segment_stack@),
                stack_elements(segment_stack@) == orig.to_multiset(),
                orig.len() == n,
            decreases segment_stack@.len(),
        {
            let ghost before = segment_stack@;
            let a = segment_stack.pop().unwrap();
            let ghost middle = segment_stack@;
            let b = segment_stack.pop().unwrap();
            proof {
                assert(before.drop_last() == middle);
                assert(middle.drop_last() == segment_stack@);
                assert(stack_elements(before) == stack_elements(middle).add(a@.to_multiset()));
                assert(stack_elements(middle) == stack_elements(segment_stack@).add(b@.to_multiset()));
                assert(sorted(before[before.len() - 1]@));
                assert(sorted(middle[middle.len() - 1]@));
            }
            proof {
                assert(stack_elements(segment_stack@).add(b@.to_multiset()).add(a@.to_multiset())
                    =~= stack_elements(segment_stack@).add(a@.to_multiset().add(b@.to_multiset())));
                assert(orig.to_multiset().len() == n);
            }
            let merged = Self::merge_two_arrays(a.as_slice(), b.as_slice());
            let ghost below = segment_stack@;
            segment_stack.push(merged);
            proof {
                assert(segment_stack@.drop_last() =~= below);
            }
        }
        let ghost last_stack = segment_stack@;
        let result = segment_stack.pop().unwrap();
        proof {
            assert(last_stack.drop_last() =~= Seq::<Vec<i32>>::empty());
            assert(sorted(last_stack[0]@));
            assert(stack_elements(last_stack.drop_last()) =~= Multiset::empty());
            assert(stack_elements(last_stack) =~= result@.to_multiset());
            assert(result@.to_multiset().len() == orig.to_multiset().len());
        }
        let mut k: usize = 0;
        while k < n
            invariant
                k <= n,
                arr@.len() == n,
                result@.len() == n,
                forall|m: int| 0 <= m < k ==> arr@[m] == result@[m],
            decreases n - k,
        {
            arr[k] = result[k];
            k += 1;
        }
        assert(arr@ =~= result@);
        arr
    }

    /// Merges two ascending sequences into one ascending sequence holding the
    /// elements of both; on equal elements the left one comes first.
    pub fn merge_two_arrays(left: &[i32], right: &[i32]) -> (r: Vec<i32>)
        requires
            sorted(left@),
            sorted(right@),
            left@.len() + right@.len() <= usize::MAX,
        ensures
            sorted(r@),
            r@.to_multiset() == left@.to_multiset().add(right@.to_multiset()),
            r@.len() == left@.len() + right@.len(),
    {
        let mut result = Vec::with_capacity(left.len() + right.len());
        let mut i: usize = 0;
        let mut j: usize = 0;
        while i < left.len() && j < right.len()
            invariant
                i <= left@.len(),
                j <= right@.len(),
                sorted(left@),
                sorted(right@),
                sorted(result@),
                below_rest(result@, left@, i as int),
                below_rest(result@, right@, j as int),
                result@.to_multiset() == left@.subrange(0, i as int).to_multiset().add(
                    right@.subrange(0, j as int).to_multiset(),
                ),
            decreases left@.len() + right@.len() - i - j,
        {
            if left[i] <= right[j] {
                assert(left@.subrange(0, i + 1) =~= left@.subrange(0, i as int).push(left@[i as int]));
                result.push(left[i]);
                i += 1;
            } else {
                assert(right@.subrange(0, j + 1) =~= right@.subrange(0, j as int).push(right@[j as int]));
                result.push(right[j]);
                j += 1;
            }
        }
        while i < left.len()
            invariant
                i <= left@.len(),
                j <= right@.len(),
                i < left@.len() ==> j == right@.len(),
                sorted(left@),
                sorted(result@),
                below_rest(result@, left@, i as int),
                below_rest(result@, right@, j as int),
                result@.to_multiset() == left@.subrange(0, i as int).to_multiset().add(
                    right@.subrange(0, j as int).to_multiset(),
                ),
            decreases left@.len() - i,
        {
            assert(left@.subrange(0, i + 1) =~= left@.subrange(0, i as int).push(left@[i as int]));
            result.push(left[i]);
            i += 1;
        }
        while j < right.len()
            invariant
                i == left@.len(),
                j <= right@.len(),
                sorted(right@),
                sorted(result@),
                below_rest(result@, right@, j as int),
                result@.to_multiset() == left@.subrange(0, i as int).to_multiset().add(
                    right@.subrange(0, j as int).to_multiset(),
                ),
            decreases right@.len() - j,
        {
            assert(right@.subrange(0, j + 1) =~= right@.subrange(0, j as int).push(right@[j as int]));
            result.push(right[j]);
            j += 1;
        }
        assert(left@.subrange(0, i as int) =~= left@);
        assert(right@.subrange(0, j as int) =~= right@);
        assert(result@.to_multiset().len() == left@.to_multiset().add(right@.to_multiset()).len());
        result
    }

    /// Reads the run that begins at `start`: its values in ascending order,
    /// with the index just after the run, where the next run starts, left
    /// in `end_pos`. A run descends when its second element is smaller than
    /// its first, and then goes on while each element is smaller than the
    /// one before; otherwise it goes on while no element is smaller than the
    /// one before. From a `start` past the end nothing is read and `end_pos`
    /// is set to `start`.
    pub fn detect_segment(arr: &[i32], start: usize, end_pos: &mut usize) -> (r: Vec<i32>)
        ensures
            start >= arr@.len() ==> *final(end_pos) == start && r@.len() == 0,
            start < arr@.len() ==> *final(end_pos) == start + r@.len(),
            start < arr@.len() ==> is_maximal_run(arr@, start as int, *final(end_pos) - 1),
            start < arr@.len() ==> r@ == normalized_run(arr@, start as int, *final(end_pos) - 1),
    {
        let n = arr.len();
        if start >= n {
            *end_pos = start;
            return Vec::new();
        }
        let mut segment = Vec::new();
        segment.push(arr[start]);
        let is_descending = if start + 1 < n {
            arr[start] > arr[start + 1]
        } else {
            false
        };
        let mut current_pos = start;
        while current_pos + 1 < n
            invariant
                n == arr@.len(),
                start <= current_pos < n,
                is_descending == descends_at(arr@, start as int),
                segment@ == arr@.subrange(start as int, current_pos + 1),
                forall|k: int| start <= k < current_pos ==> continues(arr@, k, is_descending),
            ensures
                start <= current_pos < n,
                segment@ == arr@.subrange(start as int, current_pos + 1),
                forall|k: int| start <= k < current_pos ==> continues(arr@, k, is_descending),
                current_pos + 1 == n || !continues(arr@, current_pos as int, is_descending),
            decreases n - current_pos,
        {
            if is_descending {
                if arr[current_pos] <= arr[current_pos + 1] {
                    break;
                }
            } else {
                if arr[current_pos] > arr[current_pos + 1] {
                    break;
                }
            }
            segment.push(arr[current_pos + 1]);
            current_pos += 1;
            assert(segment@ =~= arr@.subrange(start as int, current_pos + 1));
        }
        *end_pos = current_pos + 1;
        if is_descending {
            reversed(&segment)
        } else {
            segment
        }
    }
}

/// The elements of `v` in the opposite order.
fn reversed(v: &Vec<i32>) -> (r: Vec<i32>)
    ensures
        r@ == v@.reverse(),
{
    let mut r = Vec::with_capacity(v.len());
    let mut k: usize = v.len();
    while k > 0
        invariant
            k <= v@.len(),
            r@ =~= v@.subrange(k as int, v@.len() as int).reverse(),
        decreases k,
    {
        k -= 1;
        r.push(v[k]);
    }
    assert(v@.subrange(0, v@.len() as int) =~= v@);
    r
}

} // verus!
