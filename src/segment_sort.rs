//! Natural merge sort by k-way merging: the runs are recorded as index
//! ranges, a descending one walked backward, and merged by repeatedly taking
//! the smallest head among the runs.
use vstd::multiset::Multiset;
use vstd::prelude::*;
use crate::order::{adjacent_ordered, lemma_adjacent_sorted, lemma_subrange_split, sorted, sorts};
use crate::runs::{continues, descends_at, is_maximal_run};
use crate::node_heap::{heap_ordered, heap_pop, heap_push, HeapNode};

verus! {

broadcast use vstd::multiset::group_multiset_axioms, vstd::seq_lib::group_to_multiset_ensures;

/// A run of the input as an inclusive index range in reading order: an
/// ascending run has `start <= end`, a descending one `start > end`, and is
/// read from `start` down to `end`.
#[derive(Clone, Copy, Debug)]
pub struct Segment {
    pub start: usize,
    pub end: usize,
}

/// The k-way segment sorter. It holds no state.
pub struct SegmentSort;

/// The lowest index of a segment.
pub open spec fn seg_low(g: Segment) -> int {
    if g.start <= g.end {
        g.start as int
    } else {
        g.end as int
    }
}

/// The highest index of a segment.
pub open spec fn seg_high(g: Segment) -> int {
    if g.start <= g.end {
        g.end as int
    } else {
        g.start as int
    }
}

/// `g` is the maximal run at its lowest index, read in the run's direction.
pub open spec fn is_run_segment(s: Seq<i32>, g: Segment) -> bool {
    &&& is_maximal_run(s, seg_low(g), seg_high(g))
    &&& (g.start > g.end <==> descends_at(s, seg_low(g)))
}

/// `segs` are the consecutive maximal runs of `s` that cover `s[0..upto]`.
pub open spec fn covers(s: Seq<i32>, segs: Seq<Segment>, upto: int) -> bool {
    &&& segs.len() == 0 ==> upto == 0
    &&& segs.len() > 0 ==> seg_low(segs[0]) == 0 && seg_high(segs.last()) + 1 == upto
    &&& forall|k: int| 0 <= k < segs.len() - 1 ==> seg_high(#[trigger] segs[k]) + 1 == seg_low(segs[k + 1])
    &&& forall|k: int| 0 <= k < segs.len() ==> is_run_segment(s, #[trigger] segs[k])
}

/// `segs` split all of `s`, left to right, into its maximal runs.
pub open spec fn is_segmentation(s: Seq<i32>, segs: Seq<Segment>) -> bool {
    covers(s, segs, s.len() as int)
}

/// `node` stands at a position inside its segment, reads in the segment's
/// direction, and holds the value at that position.
spec fn node_ok(s: Seq<i32>, segs: Seq<Segment>, node: HeapNode) -> bool {
    let g = segs[node.seg_index as int];
    &&& node.seg_index < segs.len()
    &&& node.direction == 1 || node.direction == -1
    &&& (node.direction == 1 <==> g.start <= g.end)
    &&& 0 <= seg_low(g) <= node.current_pos <= seg_high(g) < s.len()
    &&& node.value == s[node.current_pos as int]
}

/// What is left to read of the node's segment, in reading order.
spec fn pending(s: Seq<i32>, segs: Seq<Segment>, node: HeapNode) -> Seq<i32> {
    let g = segs[node.seg_index as int];
    if node.direction == 1 {
        s.subrange(node.current_pos as int, g.end + 1)
    } else {
        s.subrange(g.end as int, node.current_pos + 1).reverse()
    }
}

/// Everything left to read in the segments of the queue.
spec fn queue_elements(s: Seq<i32>, segs: Seq<Segment>, q: Seq<HeapNode>) -> Multiset<i32>
    decreases q.len(),
{
    if q.len() == 0 {
        Multiset::empty()
    } else {
        queue_elements(s, segs, q.drop_last()).add(pending(s, segs, q.last()).to_multiset())
    }
}

/// Each segment is read in ascending order from its head on.
proof fn lemma_pending_sorted(s: Seq<i32>, segs: Seq<Segment>, node: HeapNode)
    requires
        node_ok(s, segs, node),
        is_run_segment(s, segs[node.seg_index as int]),
    ensures
        sorted(pending(s, segs, node)),
        pending(s, segs, node).len() >= 1,
        pending(s, segs, node)[0] == node.value,
{
    let g = segs[node.seg_index as int];
    let p = pending(s, segs, node);
    let d = descends_at(s, seg_low(g));
    if node.direction == 1 {
        assert forall|k: int| 0 <= k < p.len() - 1 implies #[trigger] p[k] <= p[k + 1] by {
            assert(continues(s, node.current_pos + k, d));
        }
    } else {
        assert forall|k: int| 0 <= k < p.len() - 1 implies #[trigger] p[k] <= p[k + 1] by {
            assert(continues(s, node.current_pos - k - 1, d));
        }
    }
    assert(adjacent_ordered(p));
    lemma_adjacent_sorted(p);
}

/// A node's segment is what remains of it after its head.
proof fn lemma_pending_head(s: Seq<i32>, segs: Seq<Segment>, node: HeapNode)
    requires
        node_ok(s, segs, node),
        pending(s, segs, node).len() >= 1,
        pending(s, segs, node)[0] == node.value,
    ensures
        pending(s, segs, node).to_multiset() == pending(s, segs, node).remove(0).to_multiset().insert(node.value),
{
    let p = pending(s, segs, node);
    assert(p.remove(0).to_multiset() == p.to_multiset().remove(p[0]));
    assert(p.to_multiset() =~= p.remove(0).to_multiset().insert(node.value));
}

/// Stepping a node one place on in its direction leaves the rest of its
/// segment to read.
proof fn lemma_advance(s: Seq<i32>, segs: Seq<Segment>, node: HeapNode, next: HeapNode)
    requires
        node_ok(s, segs, node),
        next.seg_index == node.seg_index,
        next.direction == node.direction,
        next.current_pos < s.len(),
        next.value == s[next.current_pos as int],
        node.direction == 1 ==> node.current_pos < segs[node.seg_index as int].end
            && next.current_pos == node.current_pos + 1,
        node.direction != 1 ==> node.current_pos > segs[node.seg_index as int].end
            && next.current_pos == node.current_pos - 1,
    ensures
        node_ok(s, segs, next),
        pending(s, segs, next) == pending(s, segs, node).remove(0),
{
    assert(pending(s, segs, next) =~= pending(s, segs, node).remove(0));
}

/// A node at the last position of its segment has nothing after its head.
proof fn lemma_exhausted(s: Seq<i32>, segs: Seq<Segment>, node: HeapNode)
    requires
        node_ok(s, segs, node),
        node.direction == 1 ==> node.current_pos >= segs[node.seg_index as int].end,
        node.direction != 1 ==> node.current_pos <= segs[node.seg_index as int].end,
    ensures
        pending(s, segs, node).remove(0).len() == 0,
{
}

/// Taking a node out of the queue takes out what is left of its segment.
proof fn lemma_queue_remove(s: Seq<i32>, segs: Seq<Segment>, q: Seq<HeapNode>, m: int)
    requires
        0 <= m < q.len(),
    ensures
        queue_elements(s, segs, q) == queue_elements(s, segs, q.remove(m)).add(
            pending(s, segs, q[m]).to_multiset(),
        ),
    decreases q.len(),
{
    if m == q.len() - 1 {
        assert(q.remove(m) =~= q.drop_last());
    } else {
        lemma_queue_remove(s, segs, q.drop_last(), m);
        assert(q.remove(m).drop_last() =~= q.drop_last().remove(m));
        assert(q.remove(m).last() == q.last());
        let a = queue_elements(s, segs, q.drop_last().remove(m));
        let b = pending(s, segs, q[m]).to_multiset();
        let c = pending(s, segs, q.last()).to_multiset();
        assert(a.add(b).add(c) =~= a.add(c).add(b));
    }
}

/// Two queues with the same nodes hold the same elements to read.
proof fn lemma_same_nodes(s: Seq<i32>, segs: Seq<Segment>, q1: Seq<HeapNode>, q2: Seq<HeapNode>)
    requires
        q1.to_multiset() == q2.to_multiset(),
    ensures
        queue_elements(s, segs, q1) == queue_elements(s, segs, q2),
    decreases q1.len(),
{
    if q1.len() == 0 {
        assert(q2.to_multiset().len() == 0);
        assert(q2 =~= Seq::<HeapNode>::empty());
    } else {
        let x = q1.last();
        assert(q1 =~= q1.drop_last().push(x));
        assert(q1.to_multiset().count(x) > 0);
        assert(q2.contains(x));
        let m = choose|m: int| 0 <= m < q2.len() && q2[m] == x;
        lemma_queue_remove(s, segs, q2, m);
        assert(q2.remove(m).to_multiset() =~= q1.drop_last().to_multiset());
        lemma_same_nodes(s, segs, q1.drop_last(), q2.remove(m));
    }
}

impl SegmentSort {
    /// Sorts `arr` in place, ascending: its maximal runs are found, then
    /// merged k ways.
    pub fn sort(&self, arr: &mut [i32])
        ensures
            sorts(final(arr)@, old(arr)@),
    {
        let n = arr.len();
        if n <= 1 {
            return;
        }
        let segments = self.detect_segments(arr);
        if segments.len() == 0 {
            return;
        }
        self.merge_segments(arr, segments.as_slice());
    }

    /// Splits `arr` into its maximal runs, left to right. A run descends when
    /// its second element is smaller than its first and goes on while each
    /// element is smaller than the one before; otherwise it goes on while no
    /// element is smaller than the one before.
    pub fn detect_segments(&self, arr: &[i32]) -> (r: Vec<Segment>)
        ensures
            is_segmentation(arr@, r@),
    {
        let mut segments: Vec<Segment> = Vec::new();
        let n = arr.len();
        let mut start: usize = 0;
        while start < n
            invariant
                n == arr@.len(),
                start <= n,
                covers(arr@, segments@, start as int),
            decreases n - start,
        {
            let mut end: usize = start;
            if start + 1 < n && arr[start] > arr[start + 1] {
                end = start + 1;
                while end + 1 < n && arr[end] > arr[end + 1]
                    invariant
                        n == arr@.len(),
                        start < end < n,
                        forall|k: int| start <= k < end ==> continues(arr@, k, true),
                    decreases n - end,
                {
                    end += 1;
                }
                segments.push(Segment { start: end, end: start });
            } else {
                while end + 1 < n && arr[end] <= arr[end + 1]
                    invariant
                        n == arr@.len(),
                        start <= end < n,
                        !descends_at(arr@, start as int),
                        forall|k: int| start <= k < end ==> continues(arr@, k, false),
                    decreases n - end,
                {
                    end += 1;
                }
                segments.push(Segment { start, end });
            }
            let ghost g = segments@.last();
            assert(is_run_segment(arr@, g));
            start = end + 1;
        }
        segments
    }

    /// Merges the runs `segments` of `arr` into `arr`, ascending: the queue
    /// starts with the head of every segment; the smallest head is taken
    /// out, and the next value of its segment, if any, is put in.
    fn merge_segments(&self, arr: &mut [i32], segments: &[Segment])
        requires
            is_segmentation(old(arr)@, segments@),
        ensures
            sorts(final(arr)@, old(arr)@),
    {
        let ghost s = arr@;
        let ghost segs = segments@;
        let n = arr.len();
        let mut min_heap: Vec<HeapNode> = Vec::new();
        let mut i: usize = 0;
        while i < segments.len()
            invariant
                s == arr@,
                segs == segments@,
                n == s.len(),
                is_segmentation(s, segs),
                i <= segs.len(),
                heap_ordered(min_heap@),
                min_heap@.len() == i,
                forall|x: HeapNode| #[trigger] min_heap@.to_multiset().count(x) > 0 ==> node_ok(s, segs, x),
                queue_elements(s, segs, min_heap@) == s.subrange(
                    0,
                    if i == 0 { 0 } else { seg_high(segs[i - 1]) + 1 },
                ).to_multiset(),
            decreases segs.len() - i,
        {
            let seg = segments[i];
            assert(is_run_segment(s, segs[i as int]));
            assert(i > 0 ==> seg_high(segs[i - 1]) + 1 == seg_low(seg));
            let direction: i32 = if seg.start <= seg.end { 1 } else { -1 };
            let node = HeapNode { value: arr[seg.start], seg_index: i, current_pos: seg.start, direction };
            let ghost before = min_heap@;
            heap_push(&mut min_heap, node);
            proof {
                assert(before.push(node).drop_last() =~= before);
                lemma_same_nodes(s, segs, min_heap@, before.push(node));
                let lo = seg_low(seg);
                let hi = seg_high(seg);
                lemma_subrange_split(s, lo, hi + 1);
                if direction != 1 {
                    s.subrange(lo, hi + 1).lemma_reverse_to_multiset();
                }
            }
            i += 1;
        }
        proof {
            assert(s.subrange(0, s.len() as int) =~= s);
        }
        let mut sorted_arr: Vec<i32> = Vec::with_capacity(n);
        while min_heap.len() > 0
            invariant
                s == arr@,
                segs == segments@,
                n == s.len(),
                is_segmentation(s, segs),
                heap_ordered(min_heap@),
                forall|x: HeapNode| #[trigger] min_heap@.to_multiset().count(x) > 0 ==> node_ok(s, segs, x),
                sorted(sorted_arr@),
                sorted_arr@.len() > 0 ==> forall|x: HeapNode| #[trigger] min_heap@.to_multiset().count(x) > 0
                    ==> sorted_arr@.last() <= x.value,
                sorted_arr@.to_multiset().add(queue_elements(s, segs, min_heap@)) == s.to_multiset(),
            decreases n - sorted_arr@.len(),
        {
            let ghost q = min_heap@;
            let node = heap_pop(&mut min_heap);
            let ghost out = sorted_arr@;
            let ghost p = pending(s, segs, node);
            proof {
                let rest = min_heap@;
                assert(rest.push(node).drop_last() =~= rest);
                lemma_same_nodes(s, segs, q, rest.push(node));
                assert(q.to_multiset().count(node) > 0);
                assert(node_ok(s, segs, node));
                assert forall|x: HeapNode| #[trigger] rest.to_multiset().count(x) > 0 implies node_ok(s, segs, x)
                    && node.value <= x.value by {
                    assert(q.to_multiset().count(x) > 0);
                    assert(q.contains(x));
                }
                if out.len() > 0 {
                    assert(out.last() <= node.value);
                }
                assert(is_run_segment(s, segs[node.seg_index as int]));
                lemma_pending_sorted(s, segs, node);
                lemma_pending_head(s, segs, node);
                assert(out.to_multiset().add(queue_elements(s, segs, q)).len() == n);
            }
            sorted_arr.push(node.value);
            proof {
                assert forall|a: int, b: int| 0 <= a < b < sorted_arr@.len() implies sorted_arr@[a]
                    <= sorted_arr@[b] by {
                    if b == sorted_arr@.len() - 1 && a < b {
                        assert(out[a] <= out.last());
                    }
                }
            }
            let seg = segments[node.seg_index];
            let ghost rest = min_heap@;
            let mut step = false;
            let mut next: usize = 0;
            if node.direction == 1 {
                if node.current_pos < seg.end {
                    next = node.current_pos + 1;
                    step = true;
                }
            } else {
                if node.current_pos > seg.end {
                    next = node.current_pos - 1;
                    step = true;
                }
            }
            if step {
                let advanced = HeapNode {
                    value: arr[next],
                    seg_index: node.seg_index,
                    current_pos: next,
                    direction: node.direction,
                };
                proof {
                    lemma_advance(s, segs, node, advanced);
                    assert(advanced.value >= node.value) by {
                        assert(pending(s, segs, advanced)[0] == p[1]);
                    }
                }
                heap_push(&mut min_heap, advanced);
                proof {
                    assert(rest.push(advanced).drop_last() =~= rest);
                    lemma_same_nodes(s, segs, min_heap@, rest.push(advanced));
                }
            } else {
                proof {
                    lemma_exhausted(s, segs, node);
                    assert(p.remove(0).to_multiset() =~= Multiset::empty());
                }
            }
        }
        proof {
            assert(queue_elements(s, segs, min_heap@) =~= Multiset::empty());
            assert(sorted_arr@.to_multiset() =~= s.to_multiset());
            assert(sorted_arr@.to_multiset().len() == s.to_multiset().len());
        }
        let mut k: usize = 0;
        while k < n
            invariant
                k <= n,
                arr@.len() == n,
                sorted_arr@.len() == n,
                sorts(sorted_arr@, s),
                forall|m: int| 0 <= m < k ==> arr@[m] == sorted_arr@[m],
            decreases n - k,
        {
            arr[k] = sorted_arr[k];
            k += 1;
        }
        assert(arr@ =~= sorted_arr@);
    }
}

} // verus!
