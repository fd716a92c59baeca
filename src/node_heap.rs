//! A binary min-heap of segment heads, ordered by value, kept in a `Vec`:
//! the node at `i` is never smaller than its parent at `(i - 1) / 2`.
use vstd::prelude::*;

verus! {

broadcast use vstd::multiset::group_multiset_axioms, vstd::seq_lib::group_to_multiset_ensures;

/// The head of a segment that is not used up: the value at the segment's
/// read position, and the direction, 1 or -1, in which the segment is read.
#[derive(Clone, Copy)]
pub struct HeapNode {
    pub value: i32,
    pub seg_index: usize,
    pub current_pos: usize,
    pub direction: i32,
}

/// No node is smaller than its parent.
pub open spec fn heap_ordered(q: Seq<HeapNode>) -> bool {
    forall|i: int| 0 < i < q.len() ==> q[(i - 1) / 2].value <= #[trigger] q[i].value
}

/// The root of an ordered heap is no larger than any node.
proof fn lemma_root_least(q: Seq<HeapNode>, i: int)
    requires
        heap_ordered(q),
        0 <= i < q.len(),
    ensures
        q[0].value <= q[i].value,
    decreases i,
{
    if i > 0 {
        lemma_root_least(q, (i - 1) / 2);
    }
}

fn swap_nodes(heap: &mut Vec<HeapNode>, i: usize, j: usize)
    requires
        i < old(heap)@.len(),
        j < old(heap)@.len(),
    ensures
        final(heap)@ == old(heap)@.update(i as int, old(heap)@[j as int]).update(j as int, old(heap)@[i as int]),
        final(heap)@.to_multiset() == old(heap)@.to_multiset(),
{
    let a = heap[i];
    let b = heap[j];
    heap.set(i, b);
    heap.set(j, a);
    proof {
        let q = old(heap)@;
        let q1 = q.update(i as int, b);
        assert(q1.to_multiset() =~= q.to_multiset().insert(b).remove(a));
        assert(q1.update(j as int, a).to_multiset() =~= q1.to_multiset().insert(a).remove(q1[j as int]));
        if i == j {
            assert(q1.update(j as int, a) =~= q);
        }
        assert(final(heap)@.to_multiset() =~= q.to_multiset());
    }
}

/// Adds `node` to the heap.
pub fn heap_push(heap: &mut Vec<HeapNode>, node: HeapNode)
    requires
        heap_ordered(old(heap)@),
        old(heap)@.len() < usize::MAX,
    ensures
        heap_ordered(final(heap)@),
        final(heap)@.to_multiset() == old(heap)@.to_multiset().insert(node),
        final(heap)@.len() == old(heap)@.len() + 1,
{
    heap.push(node);
    let mut k: usize = heap.len() - 1;
    while k > 0
        invariant
            k < heap@.len(),
            heap@.len() == old(heap)@.len() + 1,
            heap@.to_multiset() == old(heap)@.to_multiset().insert(node),
            forall|i: int| 0 < i < heap@.len() && i != k ==> heap@[(i - 1) / 2].value <= #[trigger] heap@[i].value,
            k > 0 ==> forall|c: int| 0 < c < heap@.len() && (c - 1) / 2 == k ==> heap@[(k - 1) / 2].value <= #[trigger] heap@[c].value,
        ensures
            heap_ordered(heap@),
            heap@.to_multiset() == old(heap)@.to_multiset().insert(node),
            heap@.len() == old(heap)@.len() + 1,
        decreases k,
    {
        let p = (k - 1) / 2;
        if heap[p].value <= heap[k].value {
            break;
        }
        swap_nodes(heap, p, k);
        k = p;
    }
}

/// Takes out a node of least value.
pub fn heap_pop(heap: &mut Vec<HeapNode>) -> (r: HeapNode)
    requires
        heap_ordered(old(heap)@),
        old(heap)@.len() > 0,
    ensures
        heap_ordered(final(heap)@),
        old(heap)@.to_multiset() == final(heap)@.to_multiset().insert(r),
        final(heap)@.len() + 1 == old(heap)@.len(),
        forall|i: int| 0 <= i < old(heap)@.len() ==> r.value <= #[trigger] old(heap)@[i].value,
{
    proof {
        assert forall|i: int| 0 <= i < old(heap)@.len() implies old(heap)@[0].value <= #[trigger] old(heap)@[i].value by {
            lemma_root_least(old(heap)@, i);
        }
    }
    let last = heap.pop().unwrap();
    if heap.len() == 0 {
        proof {
            assert(old(heap)@ =~= seq![last]);
        }
        return last;
    }
    let top = heap[0];
    heap.set(0, last);
    proof {
        let q = old(heap)@;
        assert(q =~= q.drop_last().push(last));
        assert(heap@.to_multiset() =~= q.drop_last().to_multiset().insert(last).remove(top));
        assert(q.to_multiset() =~= heap@.to_multiset().insert(top));
    }
    let n = heap.len();
    let mut k: usize = 0;
    loop
        invariant
            k < n,
            n == heap@.len(),
            n + 1 == old(heap)@.len(),
            old(heap)@.to_multiset() == heap@.to_multiset().insert(top),
            forall|i: int| 0 < i < n && (i - 1) / 2 != k ==> heap@[(i - 1) / 2].value <= #[trigger] heap@[i].value,
            k > 0 ==> forall|c: int| 0 < c < n && (c - 1) / 2 == k ==> heap@[(k - 1) / 2].value <= #[trigger] heap@[c].value,
        ensures
            heap_ordered(heap@),
            n == heap@.len(),
            old(heap)@.to_multiset() == heap@.to_multiset().insert(top),
        decreases n - k,
    {
        if k >= n / 2 {
            break;
        }
        let l = 2 * k + 1;
        let mut m = l;
        if l + 1 < n && heap[l + 1].value < heap[l].value {
            m = l + 1;
        }
        if heap[k].value <= heap[m].value {
            break;
        }
        swap_nodes(heap, k, m);
        k = m;
    }
    top
}

} // verus!
