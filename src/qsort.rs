//! The introsort engine behind `qsort`: insertion sort, median-of-three
//! pivot selection, three-way partition, heapsort and the driver that ties
//! them together under a depth budget.

use vstd::prelude::*;

use crate::elements::{compare, elements, swap, unchanged_outside};
use crate::order::{
    antisymmetric_on, callable, ranks_by, total_preorder_on, widen, consistent, follows, le, lemma_flip, lemma_trans, sorted_by,
    sorted_range, sorted_under, strictly_sorted_under, total_preorder,
};
use crate::perm::{lemma_swap_multiset, permuted_within};

verus! {

/// Ranges shorter than this are sorted by insertion.
pub const INSERTION_THRESHOLD: usize = 16;

/// Sorts by insertion the range of `count` elements of `w` bytes that starts
/// at element `first`.
fn insertion_sort<F: Fn(&[u8], &[u8]) -> i32>(
    base: &mut [u8],
    w: usize,
    first: usize,
    count: usize,
    comp: &F,
    Ghost(ord): Ghost<spec_fn(Seq<u8>, Seq<u8>) -> int>,
)
    requires
        first + count <= usize::MAX,
        (first + count) * w <= old(base)@.len(),
        callable(*comp, w as nat),
    ensures
        unchanged_outside(old(base)@, final(base)@, first * w, (first + count) * w),
        elements(final(base)@, w as nat, first as int, count as nat).to_multiset()
            == elements(old(base)@, w as nat, first as int, count as nat).to_multiset(),
        follows(*comp, ord, w as nat) ==> sorted_range(
            ord,
            elements(final(base)@, w as nat, first as int, count as nat),
            0,
            count as int,
        ),
        ranks_by(*comp, ord, w as nat) && sorted_by(ord, elements(old(base)@, w as nat, first as int, count as nat))
            ==> final(base)@ == old(base)@,
{
    let ghost orig = base@;
    let ghost v0 = elements(orig, w as nat, first as int, count as nat);
    let ghost in_order = ranks_by(*comp, ord, w as nat) && sorted_by(ord, v0);
    if count < 2 {
        return;
    }
    let mut i: usize = 1;
    while i < count
        invariant
            1 <= i <= count,
            in_order == (ranks_by(*comp, ord, w as nat) && sorted_by(ord, v0)),
            in_order ==> base@ == orig,
            first + count <= usize::MAX,
            (first + count) * w <= orig.len(),
            callable(*comp, w as nat),
            v0 == elements(orig, w as nat, first as int, count as nat),
            unchanged_outside(orig, base@, first * w, (first + count) * w),
            elements(base@, w as nat, first as int, count as nat).to_multiset() == v0.to_multiset(),
            follows(*comp, ord, w as nat) ==> sorted_range(
                ord,
                elements(base@, w as nat, first as int, count as nat),
                0,
                i as int,
            ),
        decreases count - i,
    {
        let mut j: usize = i;
        let mut settled = false;
        while j > 0 && !settled
            invariant
                0 <= j <= i < count,
                in_order == (ranks_by(*comp, ord, w as nat) && sorted_by(ord, v0)),
                in_order ==> base@ == orig && (settled || j == i),
                first + count <= usize::MAX,
                (first + count) * w <= orig.len(),
                callable(*comp, w as nat),
                v0 == elements(orig, w as nat, first as int, count as nat),
                unchanged_outside(orig, base@, first * w, (first + count) * w),
                elements(base@, w as nat, first as int, count as nat).to_multiset()
                    == v0.to_multiset(),
                follows(*comp, ord, w as nat) ==> ({
                    let v = elements(base@, w as nat, first as int, count as nat);
                    &&& sorted_range(ord, v, 0, j as int)
                    &&& sorted_range(ord, v, j as int, i + 1)
                    &&& forall|p: int, q: int|
                        0 <= p < j && j + 1 <= q <= i ==> #[trigger] le(ord, v[p], v[q])
                    &&& settled ==> le(ord, v[j - 1], v[j as int])
                }),
                settled ==> j > 0,
            decreases j + (if settled { 0int } else { 1int }),
        {
            let ghost v = elements(base@, w as nat, first as int, count as nat);
            let c = compare(base, w, first, count, j - 1, j, comp, Ghost(ord));
            proof {
                if in_order {
                    assert(v == v0);
                    assert(ord(v0[j - 1], v0[j - 1 + 1]) <= 0);
                }
            }
            if c > 0 {
                swap(base, w, first, count, j - 1, j);
                proof {
                    lemma_swap_multiset(v, j - 1, j as int);
                    let nv = elements(base@, w as nat, first as int, count as nat);
                    if follows(*comp, ord, w as nat) {
                        lemma_flip(ord, v[j - 1], v[j as int]);
                        assert forall|p: int, q: int|
                            j - 1 <= p < q < i + 1 implies #[trigger] le(ord, nv[p], nv[q]) by {
                            if p == j - 1 && q > j {
                                assert(le(ord, v[j as int], v[q]));
                            } else if p == j {
                                assert(le(ord, v[j - 1], v[q]));
                            } else if p > j {
                                assert(le(ord, v[p], v[q]));
                            }
                        }
                        assert forall|p: int, q: int|
                            0 <= p < j - 1 && j <= q <= i implies #[trigger] le(ord, nv[p], nv[q]) by {
                            if q == j {
                                assert(le(ord, v[p], v[j - 1]));
                            } else {
                                assert(le(ord, v[p], v[q]));
                            }
                        }
                        assert forall|p: int, q: int|
                            0 <= p < q < j - 1 implies #[trigger] le(ord, nv[p], nv[q]) by {
                            assert(le(ord, v[p], v[q]));
                        }
                    }
                }
                j = j - 1;
            } else {
                proof {
                    if follows(*comp, ord, w as nat) {
                        lemma_flip(ord, v[j - 1], v[j as int]);
                    }
                }
                settled = true;
            }
        }
        proof {
            let v = elements(base@, w as nat, first as int, count as nat);
            if follows(*comp, ord, w as nat) && j > 0 {
                assert forall|p: int, q: int| 0 <= p < q < i + 1 implies #[trigger] le(
                    ord,
                    v[p],
                    v[q],
                ) by {
                    if p < j && q == j {
                        if p < j - 1 {
                            assert(le(ord, v[p], v[j - 1]));
                            lemma_trans(ord, v[p], v[j - 1], v[j as int]);
                        }
                    } else if p < j && q > j {
                        assert(le(ord, v[p], v[q]));
                    } else if q < j {
                        assert(le(ord, v[p], v[q]));
                    } else {
                        assert(le(ord, v[p], v[q]));
                    }
                }
            }
        }
        i = i + 1;
    }
}

} // verus!

verus! {

/// Index of the parent of heap node `k`.
pub open spec fn parent(k: int) -> int {
    (k - 1) / 2
}

/// Within the heap rooted at `start` and ending at `end` (inclusive), every
/// node ranks no later than its parent, except the children of `hole`.
pub open spec fn heap_from(
    ord: spec_fn(Seq<u8>, Seq<u8>) -> int,
    v: Seq<Seq<u8>>,
    start: int,
    end: int,
    hole: int,
) -> bool {
    forall|k: int|
        start < k <= end && start <= parent(k) && parent(k) != hole ==> #[trigger] le(
            ord,
            v[k],
            v[parent(k)],
        )
}

/// The root of a heap ranks no earlier than any of its nodes.
proof fn lemma_heap_root_max(
    ord: spec_fn(Seq<u8>, Seq<u8>) -> int,
    v: Seq<Seq<u8>>,
    end: int,
    k: int,
)
    requires
        total_preorder(ord),
        heap_from(ord, v, 0, end, -1),
        0 <= k <= end < v.len(),
    ensures
        le(ord, v[k], v[0]),
    decreases k,
{
    if k == 0 {
        crate::order::lemma_refl(ord, v[0]);
    } else {
        assert(le(ord, v[k], v[parent(k)]));
        lemma_heap_root_max(ord, v, end, parent(k));
        lemma_trans(ord, v[k], v[parent(k)], v[0]);
    }
}

/// Node `k` lies in the subtree rooted at node `root`.
pub open spec fn in_subtree(root: int, k: int) -> bool
    decreases k,
{
    if k <= root || k <= 0 {
        k == root
    } else {
        in_subtree(root, parent(k))
    }
}

/// Within the subtree rooted at `root`, cut at `end` (inclusive), every node
/// ranks no later than its parent, except the children of `hole`.
pub open spec fn subtree_heap(
    ord: spec_fn(Seq<u8>, Seq<u8>) -> int,
    v: Seq<Seq<u8>>,
    root: int,
    end: int,
    hole: int,
) -> bool {
    forall|k: int|
        root < k <= end && in_subtree(root, k) && parent(k) != hole ==> #[trigger] le(
            ord,
            v[k],
            v[parent(k)],
        )
}

/// A sift-down confined to the subtree of `start` turns a heap broken only
/// below `start` into a heap over all nodes whose parent is at `start` or later.
proof fn lemma_heap_from_subtree(
    ord: spec_fn(Seq<u8>, Seq<u8>) -> int,
    u: Seq<Seq<u8>>,
    v: Seq<Seq<u8>>,
    start: int,
    end: int,
)
    requires
        0 <= start <= end < u.len(),
        v.len() == u.len(),
        heap_from(ord, u, start, end, start),
        subtree_heap(ord, v, start, end, -1),
        forall|k: int|
            0 <= k < u.len() && !(in_subtree(start, k) && k <= end) ==> #[trigger] v[k] == u[k],
    ensures
        subtree_heap(ord, u, start, end, start),
        heap_from(ord, v, start, end, -1),
{
    assert forall|k: int|
        start < k <= end && in_subtree(start, k) && parent(k) != start implies #[trigger] le(
        ord,
        u[k],
        u[parent(k)],
    ) by {
        assert(in_subtree(start, parent(k)));
    }
    assert forall|k: int| start < k <= end && start <= parent(k) implies #[trigger] le(
        ord,
        v[k],
        v[parent(k)],
    ) by {
        if !in_subtree(start, k) {
            assert(!in_subtree(start, parent(k)));
            assert(in_subtree(start, start));
            assert(le(ord, u[k], u[parent(k)]));
        }
    }
}

/// Moves the element at `start` down its subtree, cut at `end` (inclusive),
/// until it ranks no earlier than its children. Only nodes of that subtree
/// move.
fn heap_sift_down<F: Fn(&[u8], &[u8]) -> i32>(
    base: &mut [u8],
    w: usize,
    first: usize,
    count: usize,
    start: usize,
    end: usize,
    comp: &F,
    Ghost(ord): Ghost<spec_fn(Seq<u8>, Seq<u8>) -> int>,
)
    requires
        start <= end < count,
        first + count <= usize::MAX,
        (first + count) * w <= old(base)@.len(),
        callable(*comp, w as nat),
    ensures
        unchanged_outside(old(base)@, final(base)@, first * w, (first + count) * w),
        permuted_within(
            elements(old(base)@, w as nat, first as int, count as nat),
            elements(final(base)@, w as nat, first as int, count as nat),
            start as int,
            end + 1,
        ),
        forall|k: int|
            0 <= k < count && !(in_subtree(start as int, k) && k <= end) ==> #[trigger] elements(
                final(base)@,
                w as nat,
                first as int,
                count as nat,
            )[k] == elements(old(base)@, w as nat, first as int, count as nat)[k],
        follows(*comp, ord, w as nat) && subtree_heap(
            ord,
            elements(old(base)@, w as nat, first as int, count as nat),
            start as int,
            end as int,
            start as int,
        ) ==> subtree_heap(
            ord,
            elements(final(base)@, w as nat, first as int, count as nat),
            start as int,
            end as int,
            -1,
        ),
        follows(*comp, ord, w as nat) && heap_from(
            ord,
            elements(old(base)@, w as nat, first as int, count as nat),
            start as int,
            end as int,
            start as int,
        ) ==> heap_from(
            ord,
            elements(final(base)@, w as nat, first as int, count as nat),
            start as int,
            end as int,
            -1,
        ),
{
    let ghost orig = base@;
    let ghost v0 = elements(orig, w as nat, first as int, count as nat);
    let ghost premise = heap_from(ord, v0, start as int, end as int, start as int);
    proof {
        if premise {
            assert forall|k: int|
                start < k <= end && in_subtree(start as int, k) && parent(k) != start implies #[trigger] le(
                ord,
                v0[k],
                v0[parent(k)],
            ) by {
                assert(in_subtree(start as int, parent(k)));
            }
        }
    }
    // The comparator is valid and, below `start`, every node of the subtree
    // already ranks no later than its parent.
    let ghost good = follows(*comp, ord, w as nat) && subtree_heap(ord, v0, start as int, end as int, start as int);
    proof {
        assert(in_subtree(start as int, start as int));
    }
    if end == 0 {
        return;
    }
    let mut root: usize = start;
    let mut settled = false;
    while !settled && root <= (end - 1) / 2
        invariant
            start <= root <= end < count,
            0 < end,
            in_subtree(start as int, root as int),
            first + count <= usize::MAX,
            (first + count) * w <= orig.len(),
            callable(*comp, w as nat),
            v0 == elements(orig, w as nat, first as int, count as nat),
            unchanged_outside(orig, base@, first * w, (first + count) * w),
            permuted_within(v0, elements(base@, w as nat, first as int, count as nat), start as int, end + 1),
            forall|k: int|
                0 <= k < count && !(in_subtree(start as int, k) && k <= end) ==> #[trigger] elements(
                    base@,
                    w as nat,
                    first as int,
                    count as nat,
                )[k] == v0[k],
            good ==> follows(*comp, ord, w as nat),
            good ==> ({
                let v = elements(base@, w as nat, first as int, count as nat);
                &&& subtree_heap(ord, v, start as int, end as int, if settled { -1 } else { root as int })
                &&& root > start ==> forall|c: int|
                    start < c <= end && #[trigger] parent(c) == root ==> le(ord, v[c], v[parent(root as int)])
            }),
        decreases end - root + (if settled { 0int } else { 1int }),
    {
        let ghost v = elements(base@, w as nat, first as int, count as nat);
        let child = 2 * root + 1;
        let mut swap_idx = root;
        let c1 = compare(base, w, first, count, swap_idx, child, comp, Ghost(ord));
        if c1 < 0 {
            swap_idx = child;
        }
        proof {
            if good {
                lemma_flip(ord, v[root as int], v[child as int]);
            }
        }
        let ghost after_first = swap_idx;
        if child < end {
            let c2 = compare(base, w, first, count, swap_idx, child + 1, comp, Ghost(ord));
            if c2 < 0 {
                swap_idx = child + 1;
            }
            proof {
                if good {
                    lemma_flip(ord, v[after_first as int], v[child + 1]);
                    if swap_idx == child + 1 && after_first == root {
                        lemma_trans(ord, v[child as int], v[root as int], v[child + 1]);
                    }
                    if swap_idx == child + 1 && after_first == child {
                        lemma_trans(ord, v[root as int], v[child as int], v[child + 1]);
                    }
                }
            }
        }
        proof {
            if good {
                crate::order::lemma_refl(ord, v[swap_idx as int]);
                assert(le(ord, v[root as int], v[swap_idx as int]));
                assert(le(ord, v[child as int], v[swap_idx as int]));
                assert(child < end ==> le(ord, v[child + 1], v[swap_idx as int]));
            }
        }
        if swap_idx == root {
            proof {
                if good {
                    assert forall|k: int|
                        start < k <= end && in_subtree(start as int, k) && parent(k) != -1 implies #[trigger] le(
                        ord,
                        v[k],
                        v[parent(k)],
                    ) by {
                        if parent(k) == root {
                            assert(k == child || k == child + 1);
                        }
                    }
                }
            }
            settled = true;
        } else {
            proof {
                assert(parent(swap_idx as int) == root);
                assert(in_subtree(start as int, swap_idx as int));
            }
            swap(base, w, first, count, root, swap_idx);
            proof {
                crate::perm::lemma_swap_permuted(v, start as int, end + 1, root as int, swap_idx as int);
                let nv = elements(base@, w as nat, first as int, count as nat);
                if good {
                    let m = swap_idx as int;
                    let r = root as int;
                    assert forall|k: int|
                        start < k <= end && in_subtree(start as int, k) && parent(k) != m implies #[trigger] le(
                        ord,
                        nv[k],
                        nv[parent(k)],
                    ) by {
                        if parent(k) == r {
                            assert(k == child || k == child + 1);
                        } else if k == r {
                            assert(parent(m) == r);
                            assert(le(ord, v[m], v[parent(r)]));
                        } else {
                            assert(le(ord, v[k], v[parent(k)]));
                        }
                    }
                    assert forall|c: int|
                        start < c <= end && #[trigger] parent(c) == m implies le(ord, nv[c], nv[parent(m)]) by {
                        assert(in_subtree(start as int, c));
                        assert(le(ord, v[c], v[parent(c)]));
                    }
                }
            }
            root = swap_idx;
        }
    }
    proof {
        let v = elements(base@, w as nat, first as int, count as nat);
        if good && !settled {
            assert forall|k: int|
                start < k <= end && in_subtree(start as int, k) && parent(k) != -1 implies #[trigger] le(
                ord,
                v[k],
                v[parent(k)],
            ) by {
                assert(parent(k) != root);
            }
        }
        if follows(*comp, ord, w as nat) && premise {
            lemma_heap_from_subtree(ord, v0, v, start as int, end as int);
        }
    }
}

} // verus!

verus! {

/// Arranges the range of `count` elements into a heap, sifting down from the
/// last parent back to the first element.
fn heapify<F: Fn(&[u8], &[u8]) -> i32>(
    base: &mut [u8],
    w: usize,
    first: usize,
    count: usize,
    comp: &F,
    Ghost(ord): Ghost<spec_fn(Seq<u8>, Seq<u8>) -> int>,
)
    requires
        2 <= count,
        first + count <= usize::MAX,
        (first + count) * w <= old(base)@.len(),
        callable(*comp, w as nat),
    ensures
        unchanged_outside(old(base)@, final(base)@, first * w, (first + count) * w),
        permuted_within(
            elements(old(base)@, w as nat, first as int, count as nat),
            elements(final(base)@, w as nat, first as int, count as nat),
            0,
            count as int,
        ),
        follows(*comp, ord, w as nat) ==> heap_from(
            ord,
            elements(final(base)@, w as nat, first as int, count as nat),
            0,
            count - 1,
            -1,
        ),
{
    let ghost orig = base@;
    let ghost v0 = elements(orig, w as nat, first as int, count as nat);
    let last_parent = (count - 2) / 2;
    let mut start = last_parent + 1;
    while start > 0
        invariant
            start <= last_parent + 1,
            last_parent == (count - 2) / 2,
            2 <= count,
            first + count <= usize::MAX,
            (first + count) * w <= orig.len(),
            callable(*comp, w as nat),
            v0 == elements(orig, w as nat, first as int, count as nat),
            unchanged_outside(orig, base@, first * w, (first + count) * w),
            permuted_within(v0, elements(base@, w as nat, first as int, count as nat), 0, count as int),
            follows(*comp, ord, w as nat) ==> heap_from(
                ord,
                elements(base@, w as nat, first as int, count as nat),
                start as int,
                count - 1,
                -1,
            ),
        decreases start,
    {
        start = start - 1;
        let ghost v = elements(base@, w as nat, first as int, count as nat);
        proof {
            if follows(*comp, ord, w as nat) {
                assert forall|k: int|
                    start < k <= count - 1 && start <= parent(k) && parent(k) != start implies #[trigger] le(
                    ord,
                    v[k],
                    v[parent(k)],
                ) by {
                    assert(start + 1 < k);
                }
            }
        }
        heap_sift_down(base, w, first, count, start, count - 1, comp, Ghost(ord));
        proof {
            let nv = elements(base@, w as nat, first as int, count as nat);
            assert(nv.subrange(0, count as int) =~= nv);
            assert(v.subrange(0, count as int) =~= v);
            assert(v0.subrange(0, count as int) =~= v0);
            crate::perm::lemma_permuted_within_whole(v, nv, start as int, count as int);
        }
    }
}

/// Heapsorts the range of `count` elements that starts at element `first`.
fn heapsort_at<F: Fn(&[u8], &[u8]) -> i32>(
    base: &mut [u8],
    w: usize,
    first: usize,
    count: usize,
    comp: &F,
    Ghost(ord): Ghost<spec_fn(Seq<u8>, Seq<u8>) -> int>,
)
    requires
        first + count <= usize::MAX,
        (first + count) * w <= old(base)@.len(),
        callable(*comp, w as nat),
    ensures
        count < 2 ==> final(base)@ == old(base)@,
        unchanged_outside(old(base)@, final(base)@, first * w, (first + count) * w),
        elements(final(base)@, w as nat, first as int, count as nat).to_multiset()
            == elements(old(base)@, w as nat, first as int, count as nat).to_multiset(),
        follows(*comp, ord, w as nat) ==> sorted_range(
            ord,
            elements(final(base)@, w as nat, first as int, count as nat),
            0,
            count as int,
        ),
{
    let ghost orig = base@;
    let ghost v0 = elements(orig, w as nat, first as int, count as nat);
    if count < 2 {
        return;
    }
    heapify(base, w, first, count, comp, Ghost(ord));
    proof {
        let v = elements(base@, w as nat, first as int, count as nat);
        assert(v.subrange(0, count as int) =~= v);
        assert(v0.subrange(0, count as int) =~= v0);
    }
    let mut end = count - 1;
    while end > 0
        invariant
            end < count,
            first + count <= usize::MAX,
            (first + count) * w <= orig.len(),
            callable(*comp, w as nat),
            v0 == elements(orig, w as nat, first as int, count as nat),
            unchanged_outside(orig, base@, first * w, (first + count) * w),
            elements(base@, w as nat, first as int, count as nat).to_multiset() == v0.to_multiset(),
            follows(*comp, ord, w as nat) ==> ({
                let v = elements(base@, w as nat, first as int, count as nat);
                &&& heap_from(ord, v, 0, end as int, -1)
                &&& sorted_range(ord, v, end + 1, count as int)
                &&& crate::order::split_at(ord, v, end + 1)
            }),
        decreases end,
    {
        let ghost v = elements(base@, w as nat, first as int, count as nat);
        swap(base, w, first, count, end, 0);
        let ghost sv = elements(base@, w as nat, first as int, count as nat);
        proof {
            lemma_swap_multiset(v, end as int, 0);
            if follows(*comp, ord, w as nat) {
                assert forall|k: int| 0 <= k <= end implies #[trigger] le(ord, v[k], v[0]) by {
                    lemma_heap_root_max(ord, v, end as int, k);
                }
                assert forall|k: int|
                    0 < k <= end - 1 && 0 <= parent(k) && parent(k) != 0 implies #[trigger] le(
                    ord,
                    sv[k],
                    sv[parent(k)],
                ) by {
                    assert(le(ord, v[k], v[parent(k)]));
                }
                assert forall|p: int, q: int|
                    0 <= p < end <= q < count implies #[trigger] le(ord, sv[p], sv[q]) by {
                    if q == end {
                        if p == 0 {
                            assert(le(ord, v[end as int], v[0]));
                        } else {
                            assert(le(ord, v[p], v[0]));
                        }
                    } else {
                        if p == 0 {
                            assert(le(ord, v[end as int], v[q]));
                        } else {
                            assert(le(ord, v[p], v[q]));
                        }
                    }
                }
                assert forall|p: int, q: int|
                    end <= p < q < count implies #[trigger] le(ord, sv[p], sv[q]) by {
                    if p == end {
                        assert(le(ord, v[0], v[q]));
                    } else {
                        assert(le(ord, v[p], v[q]));
                    }
                }
            }
        }
        end = end - 1;
        heap_sift_down(base, w, first, count, 0, end, comp, Ghost(ord));
        proof {
            let nv = elements(base@, w as nat, first as int, count as nat);
            crate::perm::lemma_permuted_within_whole(sv, nv, 0, end + 1);
            if follows(*comp, ord, w as nat) {
                crate::perm::lemma_split_kept(ord, sv, nv, 0, end + 1, end + 1);
                crate::perm::lemma_sorted_kept(ord, sv, nv, 0, end + 1, end + 1, count as int);
            }
        }
    }
    proof {
        let v = elements(base@, w as nat, first as int, count as nat);
        if follows(*comp, ord, w as nat) {
            crate::perm::lemma_sorted_concat(ord, v, 0, 1, count as int);
        }
    }
}

/// Heapsorts the first `nel` elements of `width` bytes in `base` with the
/// comparator `comp`. The promises are those of `qsort`: the elements are
/// only rearranged, and a valid comparator finds them in order.
pub fn heapsort<F: Fn(&[u8], &[u8]) -> i32>(base: &mut [u8], nel: usize, width: usize, comp: F)
    requires
        nel * width <= old(base)@.len(),
        callable(comp, width as nat),
    ensures
        nel < 2 ==> final(base)@ == old(base)@,
        unchanged_outside(old(base)@, final(base)@, 0, nel * width),
        elements(final(base)@, width as nat, 0, nel as nat).to_multiset()
            == elements(old(base)@, width as nat, 0, nel as nat).to_multiset(),
        consistent(comp, width as nat) ==> sorted_under(comp, elements(final(base)@, width as nat, 0, nel as nat)),
{
    let ghost ord = widen(valid_witness(comp, width as nat), width as nat);
    heapsort_at(base, width, 0, nel, &comp, Ghost(ord));
    proof {
        if consistent(comp, width as nat) {
            let v = elements(base@, width as nat, 0, nel as nat);
            crate::order::lemma_widen(comp, valid_witness(comp, width as nat), width as nat);
            crate::order::lemma_sorted_range_sorted_by(ord, v);
            crate::elements::lemma_elements_width(base@, width as nat, 0, nel as nat);
            crate::order::lemma_sorted_under(comp, ord, v, width as nat);
        }
    }
}

} // verus!

verus! {

/// `(x, y, z)` is `(a, b, c)` in some order.
pub open spec fn rearranges3(x: Seq<u8>, y: Seq<u8>, z: Seq<u8>, a: Seq<u8>, b: Seq<u8>, c: Seq<u8>) -> bool {
    ||| x == a && y == b && z == c
    ||| x == a && y == c && z == b
    ||| x == b && y == a && z == c
    ||| x == b && y == c && z == a
    ||| x == c && y == a && z == b
    ||| x == c && y == b && z == a
}

/// `p` ranks between `x` and `y`, in either order.
pub open spec fn between(ord: spec_fn(Seq<u8>, Seq<u8>) -> int, x: Seq<u8>, p: Seq<u8>, y: Seq<u8>) -> bool {
    (le(ord, x, p) && le(ord, p, y)) || (le(ord, y, p) && le(ord, p, x))
}

/// `p` is one of `a`, `b`, `c` and ranks between the other two.
pub open spec fn median_of(
    ord: spec_fn(Seq<u8>, Seq<u8>) -> int,
    p: Seq<u8>,
    a: Seq<u8>,
    b: Seq<u8>,
    c: Seq<u8>,
) -> bool {
    ||| p == a && between(ord, b, p, c)
    ||| p == b && between(ord, a, p, c)
    ||| p == c && between(ord, a, p, b)
}

/// Orders the first, middle and last elements of the range so that the
/// middle one ranks between the other two, and returns the middle index.
/// Only those three positions are written, and they are left untouched when
/// already in order.
fn median_of_three<F: Fn(&[u8], &[u8]) -> i32>(
    base: &mut [u8],
    w: usize,
    first: usize,
    count: usize,
    comp: &F,
    Ghost(ord): Ghost<spec_fn(Seq<u8>, Seq<u8>) -> int>,
) -> (pivot: usize)
    requires
        1 <= count,
        first + count <= usize::MAX,
        (first + count) * w <= old(base)@.len(),
        callable(*comp, w as nat),
    ensures
        pivot == count / 2,
        unchanged_outside(old(base)@, final(base)@, first * w, (first + count) * w),
        elements(final(base)@, w as nat, first as int, count as nat).to_multiset()
            == elements(old(base)@, w as nat, first as int, count as nat).to_multiset(),
        ({
            let v = elements(final(base)@, w as nat, first as int, count as nat);
            let u = elements(old(base)@, w as nat, first as int, count as nat);
            &&& forall|k: int|
                0 <= k < count && k != 0 && k != pivot && k != count - 1 ==> #[trigger] v[k] == u[k]
            &&& 3 <= count ==> rearranges3(
                v[0],
                v[pivot as int],
                v[count - 1],
                u[0],
                u[pivot as int],
                u[count - 1],
            )
            &&& follows(*comp, ord, w as nat) ==> {
                &&& le(ord, v[0], v[pivot as int])
                &&& le(ord, v[pivot as int], v[count - 1])
                &&& 3 <= count ==> median_of(ord, v[pivot as int], u[0], u[pivot as int], u[count - 1])
            }
            &&& ranks_by(*comp, ord, w as nat) && ord(u[pivot as int], u[0]) >= 0 && ord(u[count - 1], u[pivot as int]) >= 0
                ==> final(base)@ == old(base)@
        }),
{
    let pivot = count / 2;
    let last = count - 1;
    let ghost v1 = elements(base@, w as nat, first as int, count as nat);
    if compare(base, w, first, count, pivot, 0, comp, Ghost(ord)) < 0 {
        swap(base, w, first, count, pivot, 0);
        proof {
            lemma_swap_multiset(v1, pivot as int, 0);
        }
    }
    let ghost v2 = elements(base@, w as nat, first as int, count as nat);
    proof {
        if follows(*comp, ord, w as nat) {
            lemma_flip(ord, v1[pivot as int], v1[0]);
            crate::order::lemma_refl(ord, v1[0]);
            assert(le(ord, v2[0], v2[pivot as int]));
        }
    }
    if compare(base, w, first, count, last, pivot, comp, Ghost(ord)) < 0 {
        swap(base, w, first, count, pivot, last);
        let ghost v3 = elements(base@, w as nat, first as int, count as nat);
        proof {
            lemma_swap_multiset(v2, pivot as int, last as int);
        }
        if compare(base, w, first, count, pivot, 0, comp, Ghost(ord)) < 0 {
            swap(base, w, first, count, pivot, 0);
            proof {
                lemma_swap_multiset(v3, pivot as int, 0);
            }
        }
        proof {
            if follows(*comp, ord, w as nat) {
                lemma_flip(ord, v2[last as int], v2[pivot as int]);
                lemma_flip(ord, v3[pivot as int], v3[0]);
                crate::order::lemma_refl(ord, v3[0]);
                crate::order::lemma_refl(ord, v2[last as int]);
            }
        }
    } else {
        proof {
            if follows(*comp, ord, w as nat) {
                lemma_flip(ord, v2[last as int], v2[pivot as int]);
            }
        }
    }
    proof {
        let v = elements(base@, w as nat, first as int, count as nat);
        if 3 <= count {
            assert(rearranges3(v[0], v[pivot as int], v[last as int], v1[0], v1[pivot as int], v1[last as int]));
        }
    }
    pivot
}

/// Three-way partition of the range around the median of its first, middle
/// and last elements. Returns `(i, n, pivot)`: the pivot ends at index
/// `pivot` in `[i, n]`; the elements before `i` rank no later than it (those
/// after the first, strictly before it), those in `[i, n]` rank equal to it,
/// and those after `n` rank no earlier than it (those before the last,
/// strictly after it). When all elements rank equal nothing moves and the
/// result is `(1, count - 2, _)`.
fn partition<F: Fn(&[u8], &[u8]) -> i32>(
    base: &mut [u8],
    w: usize,
    first: usize,
    count: usize,
    comp: &F,
    Ghost(ord): Ghost<spec_fn(Seq<u8>, Seq<u8>) -> int>,
) -> (r: (usize, usize, usize))
    requires
        3 <= count,
        first + count <= usize::MAX,
        (first + count) * w <= old(base)@.len(),
        callable(*comp, w as nat),
    ensures
        1 <= r.0 <= r.1 + 1 <= count - 1,
        r.2 < count,
        unchanged_outside(old(base)@, final(base)@, first * w, (first + count) * w),
        elements(final(base)@, w as nat, first as int, count as nat).to_multiset()
            == elements(old(base)@, w as nat, first as int, count as nat).to_multiset(),
        follows(*comp, ord, w as nat) ==> ({
            let v = elements(final(base)@, w as nat, first as int, count as nat);
            let u = elements(old(base)@, w as nat, first as int, count as nat);
            let p = v[r.2 as int];
            &&& r.0 <= r.2 <= r.1
            &&& median_of(ord, p, u[0], u[count as int / 2], u[count - 1])
            &&& forall|k: int| 0 <= k < r.0 ==> #[trigger] ord(v[k], p) <= 0
            &&& forall|k: int| 1 <= k < r.0 ==> #[trigger] ord(v[k], p) < 0
            &&& forall|k: int| r.0 <= k <= r.1 ==> #[trigger] ord(v[k], p) == 0
            &&& forall|k: int| r.1 < k < count ==> #[trigger] ord(v[k], p) >= 0
            &&& forall|k: int| r.1 < k < count - 1 ==> #[trigger] ord(v[k], p) > 0
            &&& crate::order::split_at(ord, v, r.0 as int)
            &&& crate::order::split_at(ord, v, r.1 + 1)
            &&& sorted_range(ord, v, r.0 as int, r.1 + 1)
        }),
        ranks_by(*comp, ord, w as nat) && (forall|x: int, y: int|
            0 <= x < count && 0 <= y < count ==> #[trigger] ord(
                elements(old(base)@, w as nat, first as int, count as nat)[x],
                elements(old(base)@, w as nat, first as int, count as nat)[y],
            ) == 0) ==> r.0 == 1 && r.1 == count - 2 && final(base)@ == old(base)@,
{
    let ghost orig = base@;
    let ghost v0 = elements(orig, w as nat, first as int, count as nat);
    let ghost same = ranks_by(*comp, ord, w as nat) && (forall|x: int, y: int|
        0 <= x < count && 0 <= y < count ==> #[trigger] ord(v0[x], v0[y]) == 0);
    proof {
        if same {
            assert(ord(v0[count as int / 2], v0[0]) == 0);
            assert(ord(v0[count - 1], v0[count as int / 2]) == 0);
        }
    }
    let mut pivot = median_of_three(base, w, first, count, comp, Ghost(ord));
    let ghost pv = elements(base@, w as nat, first as int, count as nat)[pivot as int];
    let ghost mv = elements(base@, w as nat, first as int, count as nat);
    let mut i: usize = 1;
    let mut j: usize = 1;
    let mut n: usize = count - 2;
    while j <= n
        invariant
            1 <= i <= j <= n + 1 <= count - 1,
            pivot < count,
            first + count <= usize::MAX,
            (first + count) * w <= orig.len(),
            callable(*comp, w as nat),
            v0 == elements(orig, w as nat, first as int, count as nat),
            unchanged_outside(orig, base@, first * w, (first + count) * w),
            elements(base@, w as nat, first as int, count as nat).to_multiset() == v0.to_multiset(),
            same == (ranks_by(*comp, ord, w as nat) && (forall|x: int, y: int|
                0 <= x < count && 0 <= y < count ==> #[trigger] ord(v0[x], v0[y]) == 0)),
            same ==> i == 1 && n == count - 2 && base@ == orig,
            follows(*comp, ord, w as nat) ==> median_of(ord, pv, v0[0], v0[count as int / 2], v0[count - 1]),
            follows(*comp, ord, w as nat) ==> ({
                let v = elements(base@, w as nat, first as int, count as nat);
                &&& v[pivot as int] == pv
                &&& i <= pivot <= n
                &&& forall|p: int| 1 <= p < i ==> #[trigger] ord(v[p], pv) < 0
                &&& forall|p: int| n < p < count - 1 ==> #[trigger] ord(v[p], pv) > 0
                &&& forall|p: int| 0 <= p < i ==> #[trigger] le(ord, v[p], pv)
                &&& forall|p: int|
                    #![trigger le(ord, v[p], pv)]
                    #![trigger le(ord, pv, v[p])]
                    i <= p < j ==> le(ord, v[p], pv) && le(ord, pv, v[p])
                &&& forall|p: int| n < p < count ==> #[trigger] le(ord, pv, v[p])
            }),
        decreases n + 1 - j,
    {
        let ghost v = elements(base@, w as nat, first as int, count as nat);
        let c = compare(base, w, first, count, j, pivot, comp, Ghost(ord));
        proof {
            if same {
                assert(v == v0);
                assert(ord(v0[j as int], v0[pivot as int]) == 0);
            }
            if follows(*comp, ord, w as nat) {
                crate::order::lemma_refl(ord, pv);
                lemma_flip(ord, v[j as int], pv);
            }
        }
        if c < 0 {
            swap(base, w, first, count, i, j);
            proof {
                lemma_swap_multiset(v, i as int, j as int);
                let nv = elements(base@, w as nat, first as int, count as nat);
                if follows(*comp, ord, w as nat) {
                    assert forall|p: int|
                        #![trigger le(ord, nv[p], pv)]
                        #![trigger le(ord, pv, nv[p])]
                        i + 1 <= p < j + 1 implies le(ord, nv[p], pv) && le(ord, pv, nv[p]) by {
                        if p == j {
                            assert(le(ord, v[i as int], pv) && le(ord, pv, v[i as int]));
                        } else {
                            assert(le(ord, v[p], pv) && le(ord, pv, v[p]));
                        }
                    }
                    assert forall|p: int| 0 <= p < i + 1 implies #[trigger] le(ord, nv[p], pv) by {
                        if p < i {
                            assert(le(ord, v[p], pv));
                        }
                    }
                    assert forall|p: int| 1 <= p < i + 1 implies #[trigger] ord(nv[p], pv) < 0 by {
                        if p < i {
                            assert(ord(v[p], pv) < 0);
                        }
                    }
                    assert forall|p: int| n < p < count - 1 implies #[trigger] ord(nv[p], pv) > 0 by {
                        assert(ord(v[p], pv) > 0);
                    }
                    assert forall|p: int| n < p < count implies #[trigger] le(ord, pv, nv[p]) by {
                        assert(le(ord, pv, v[p]));
                    }
                }
            }
            if i == pivot {
                pivot = j;
            }
            i = i + 1;
            j = j + 1;
        } else if c > 0 {
            swap(base, w, first, count, j, n);
            proof {
                lemma_swap_multiset(v, j as int, n as int);
                let nv = elements(base@, w as nat, first as int, count as nat);
                if follows(*comp, ord, w as nat) {
                    assert forall|p: int| n - 1 < p < count implies #[trigger] le(ord, pv, nv[p]) by {
                        if p > n {
                            assert(le(ord, pv, v[p]));
                        }
                    }
                    assert forall|p: int| 0 <= p < i implies #[trigger] le(ord, nv[p], pv) by {
                        assert(le(ord, v[p], pv));
                    }
                    assert forall|p: int| 1 <= p < i implies #[trigger] ord(nv[p], pv) < 0 by {
                        assert(ord(v[p], pv) < 0);
                    }
                    assert forall|p: int| n - 1 < p < count - 1 implies #[trigger] ord(nv[p], pv) > 0 by {
                        if p > n {
                            assert(ord(v[p], pv) > 0);
                        }
                    }
                    assert forall|p: int|
                        #![trigger le(ord, nv[p], pv)]
                        #![trigger le(ord, pv, nv[p])]
                        i <= p < j implies le(ord, nv[p], pv) && le(ord, pv, nv[p]) by {
                        assert(le(ord, v[p], pv) && le(ord, pv, v[p]));
                    }
                }
            }
            if n == pivot {
                pivot = j;
            }
            n = n - 1;
        } else {
            j = j + 1;
        }
    }
    proof {
        let v = elements(base@, w as nat, first as int, count as nat);
        if follows(*comp, ord, w as nat) {
            assert forall|p: int, q: int| 0 <= p < i <= q < count implies #[trigger] le(ord, v[p], v[q]) by {
                assert(le(ord, v[p], pv));
                assert(le(ord, pv, v[q]));
                lemma_trans(ord, v[p], pv, v[q]);
            }
            assert forall|p: int, q: int| 0 <= p < n + 1 <= q < count implies #[trigger] le(ord, v[p], v[q]) by {
                assert(le(ord, v[p], pv));
                assert(le(ord, pv, v[q]));
                lemma_trans(ord, v[p], pv, v[q]);
            }
            assert forall|p: int, q: int| i <= p < q < n + 1 implies #[trigger] le(ord, v[p], v[q]) by {
                assert(le(ord, v[p], pv));
                assert(le(ord, pv, v[q]));
                lemma_trans(ord, v[p], pv, v[q]);
            }
            assert forall|k: int| i <= k <= n implies #[trigger] ord(v[k], pv) == 0 by {
                assert(le(ord, v[k], pv) && le(ord, pv, v[k]));
                lemma_flip(ord, v[k], pv);
            }
            assert forall|k: int| n < k < count implies #[trigger] ord(v[k], pv) >= 0 by {
                assert(le(ord, pv, v[k]));
                lemma_flip(ord, v[k], pv);
            }
            assert forall|k: int| 0 <= k < i implies #[trigger] ord(v[k], pv) <= 0 by {
                assert(le(ord, v[k], pv));
            }
        }
    }
    (i, n, pivot)
}

} // verus!

verus! {

/// Work done on the sub-range of `m` elements at offset `a` of a range: the
/// rest of the range and everything outside it stay, and the elements of the
/// sub-range are the sub-range's slice of the range's elements.
proof fn lemma_sub_step(old: Seq<u8>, new: Seq<u8>, w: nat, first: int, count: nat, a: int, m: nat)
    requires
        0 <= first,
        0 <= a,
        a + m <= count,
        (first + count) * w <= old.len(),
        unchanged_outside(old, new, (first + a) * w, (first + a + m) * w),
        elements(new, w, first + a, m).to_multiset() == elements(old, w, first + a, m).to_multiset(),
    ensures
        unchanged_outside(old, new, first * w, (first + count) * w),
        permuted_within(elements(old, w, first, count), elements(new, w, first, count), a, a + m),
        elements(new, w, first, count).subrange(a, a + m) == elements(new, w, first + a, m),
        elements(new, w, first, count).to_multiset() == elements(old, w, first, count).to_multiset(),
{
    crate::elements::lemma_frame(old, new, w, first, count, a, m);
    crate::elements::lemma_sub_elements(old, w, first, count, a, m);
    crate::elements::lemma_sub_elements(new, w, first, count, a, m);
    crate::perm::lemma_permuted_within_whole(
        elements(old, w, first, count),
        elements(new, w, first, count),
        a,
        a + m,
    );
}

/// Introsort over the range of `count` elements that starts at element
/// `first`. Each partitioning step spends one unit of `maxdepth`; a range
/// met with no budget left is heapsorted. The smaller side of a partition is
/// sorted by a recursive call and the larger one by the next turn of the
/// loop, and every recursive call holds a smaller budget, so calls nest at
/// most `maxdepth` deep.
pub(crate) fn introsort_helper<F: Fn(&[u8], &[u8]) -> i32>(
    base: &mut [u8],
    w: usize,
    first: usize,
    count: usize,
    maxdepth: usize,
    comp: &F,
    Ghost(ord): Ghost<spec_fn(Seq<u8>, Seq<u8>) -> int>,
)
    requires
        first + count <= usize::MAX,
        (first + count) * w <= old(base)@.len(),
        callable(*comp, w as nat),
    ensures
        unchanged_outside(old(base)@, final(base)@, first * w, (first + count) * w),
        elements(final(base)@, w as nat, first as int, count as nat).to_multiset()
            == elements(old(base)@, w as nat, first as int, count as nat).to_multiset(),
        follows(*comp, ord, w as nat) ==> sorted_range(
            ord,
            elements(final(base)@, w as nat, first as int, count as nat),
            0,
            count as int,
        ),
    decreases maxdepth,
{
    let ghost orig = base@;
    let ghost v0 = elements(orig, w as nat, first as int, count as nat);
    let mut cur_first = first;
    let mut cur_count = count;
    let mut depth = maxdepth;
    loop
        invariant
            orig == old(base)@,
            first <= cur_first,
            cur_first + cur_count <= first + count,
            first + count <= usize::MAX,
            (first + count) * w <= orig.len(),
            depth <= maxdepth,
            callable(*comp, w as nat),
            v0 == elements(orig, w as nat, first as int, count as nat),
            unchanged_outside(orig, base@, first * w, (first + count) * w),
            elements(base@, w as nat, first as int, count as nat).to_multiset() == v0.to_multiset(),
            follows(*comp, ord, w as nat) ==> ({
                let v = elements(base@, w as nat, first as int, count as nat);
                let a = cur_first - first;
                let b = cur_first - first + cur_count;
                &&& sorted_range(ord, v, 0, a)
                &&& sorted_range(ord, v, b, count as int)
                &&& crate::order::split_at(ord, v, a)
                &&& crate::order::split_at(ord, v, b)
            }),
        decreases depth,
    {
        let ghost v = elements(base@, w as nat, first as int, count as nat);
        let ghost before = base@;
        let ghost a = cur_first - first;
        let ghost b = cur_first - first + cur_count;
        proof {
            crate::elements::lemma_mul_le(cur_first + cur_count, first + count, w as int);
        }
        if cur_count < INSERTION_THRESHOLD || depth == 0 {
            if cur_count < INSERTION_THRESHOLD {
                insertion_sort(base, w, cur_first, cur_count, comp, Ghost(ord));
            } else {
                heapsort_at(base, w, cur_first, cur_count, comp, Ghost(ord));
            }
            proof {
                assert(cur_first == first + a);
                lemma_sub_step(before, base@, w as nat, first as int, count as nat, a, cur_count as nat);
                let nv = elements(base@, w as nat, first as int, count as nat);
                if follows(*comp, ord, w as nat) {
                    crate::perm::lemma_sorted_kept(ord, v, nv, a, b, 0, a);
                    crate::perm::lemma_sorted_kept(ord, v, nv, a, b, b, count as int);
                    crate::perm::lemma_split_kept(ord, v, nv, a, b, a);
                    crate::perm::lemma_split_kept(ord, v, nv, a, b, b);
                    crate::perm::lemma_sorted_lift(ord, nv, a, cur_count as int, 0, cur_count as int);
                    crate::perm::lemma_sorted_concat(ord, nv, 0, a, b);
                    crate::perm::lemma_sorted_concat(ord, nv, 0, b, count as int);
                }
            }
            return;
        }
        let (i, n, _pivot) = partition(base, w, cur_first, cur_count, comp, Ghost(ord));
        let ghost v1 = elements(base@, w as nat, first as int, count as nat);
        let ghost mid = base@;
        proof {
            assert(cur_first == first + a);
            lemma_sub_step(before, mid, w as nat, first as int, count as nat, a, cur_count as nat);
            if follows(*comp, ord, w as nat) {
                crate::perm::lemma_sorted_kept(ord, v, v1, a, b, 0, a);
                crate::perm::lemma_sorted_kept(ord, v, v1, a, b, b, count as int);
                crate::perm::lemma_split_kept(ord, v, v1, a, b, a);
                crate::perm::lemma_split_kept(ord, v, v1, a, b, b);
                crate::perm::lemma_split_lift(ord, v1, a, cur_count as int, i as int);
                crate::perm::lemma_split_lift(ord, v1, a, cur_count as int, n + 1);
                crate::perm::lemma_sorted_lift(ord, v1, a, cur_count as int, i as int, n + 1);
            }
        }
        depth = depth - 1;
        if i < cur_count - n {
            proof {
                crate::elements::lemma_mul_le(cur_first + i, first + count, w as int);
            }
            introsort_helper(base, w, cur_first, i, depth, comp, Ghost(ord));
            proof {
                lemma_sub_step(mid, base@, w as nat, first as int, count as nat, a, i as nat);
                let nv = elements(base@, w as nat, first as int, count as nat);
                if follows(*comp, ord, w as nat) {
                    crate::perm::lemma_sorted_kept(ord, v1, nv, a, a + i, 0, a);
                    crate::perm::lemma_sorted_kept(ord, v1, nv, a, a + i, b, count as int);
                    crate::perm::lemma_sorted_kept(ord, v1, nv, a, a + i, a + i, a + n + 1);
                    crate::perm::lemma_split_kept(ord, v1, nv, a, a + i, a);
                    crate::perm::lemma_split_kept(ord, v1, nv, a, a + i, a + i);
                    crate::perm::lemma_split_kept(ord, v1, nv, a, a + i, a + n + 1);
                    crate::perm::lemma_split_kept(ord, v1, nv, a, a + i, b);
                    crate::perm::lemma_sorted_lift(ord, nv, a, i as int, 0, i as int);
                    crate::perm::lemma_sorted_concat(ord, nv, 0, a, a + i);
                    crate::perm::lemma_sorted_concat(ord, nv, 0, a + i, a + n + 1);
                }
            }
            cur_first = cur_first + n + 1;
            cur_count = cur_count - (n + 1);
        } else {
            proof {
                crate::elements::lemma_mul_le(cur_first + cur_count, first + count, w as int);
            }
            introsort_helper(base, w, cur_first + n + 1, cur_count - (n + 1), depth, comp, Ghost(ord));
            proof {
                let r = a + n + 1;
                assert(cur_first + n + 1 == first + r);
                lemma_sub_step(mid, base@, w as nat, first as int, count as nat, r, (cur_count - (n + 1)) as nat);
                let nv = elements(base@, w as nat, first as int, count as nat);
                if follows(*comp, ord, w as nat) {
                    crate::perm::lemma_sorted_kept(ord, v1, nv, r, b, 0, a);
                    crate::perm::lemma_sorted_kept(ord, v1, nv, r, b, b, count as int);
                    crate::perm::lemma_sorted_kept(ord, v1, nv, r, b, a + i, r);
                    crate::perm::lemma_split_kept(ord, v1, nv, r, b, a);
                    crate::perm::lemma_split_kept(ord, v1, nv, r, b, a + i);
                    crate::perm::lemma_split_kept(ord, v1, nv, r, b, r);
                    crate::perm::lemma_split_kept(ord, v1, nv, r, b, b);
                    crate::perm::lemma_sorted_lift(ord, nv, r, b - r, 0, b - r);
                    crate::perm::lemma_sorted_concat(ord, nv, r, b, count as int);
                    crate::perm::lemma_sorted_concat(ord, nv, a + i, r, count as int);
                }
            }
            cur_count = i;
        }
    }
}

} // verus!

verus! {

/// Multiplies the base-2 logarithm of the length into the depth budget.
pub const MAXDEPTH_MULTIPLIER: usize = 2;

/// The floor of the base-2 logarithm of `n` (zero for `n <= 1`).
pub open spec fn log2(n: nat) -> nat
    decreases n,
{
    if n <= 1 {
        0
    } else {
        1 + log2(n / 2)
    }
}

proof fn lemma_log2_small(n: nat)
    requires
        1 <= n,
    ensures
        2 * log2(n) <= n,
    decreases n,
{
    if n >= 4 {
        lemma_log2_small(n / 2);
    } else if n >= 2 {
        assert(log2(n / 2) == 0);
    }
}

/// The depth budget for `n` elements: `2 * floor(log2(n))`.
pub(crate) fn depth_budget(n: usize) -> (r: usize)
    requires
        1 <= n,
    ensures
        r == MAXDEPTH_MULTIPLIER * log2(n as nat),
{
    proof {
        lemma_log2_small(n as nat);
    }
    let mut m = n;
    let mut r: usize = 0;
    while m > 1
        invariant
            1 <= m <= n,
            r + 2 * log2(m as nat) == 2 * log2(n as nat),
            2 * log2(n as nat) <= n,
        decreases m,
    {
        m = m / 2;
        r = r + 2;
    }
    r
}

/// Sorts in place the first `nel` elements of `width` bytes in `base` with the
/// comparator `compar`, as C's `qsort`.
///
/// Whatever the comparator does, the elements are only rearranged and the
/// bytes after them are left alone. With no comparator, or with fewer than
/// two elements, the buffer is untouched and the comparator never called.
/// With a valid comparator the elements come out in order; if the comparator
/// ranks only identical elements equal, an ordered buffer comes out as it went in.
pub fn qsort<F: Fn(&[u8], &[u8]) -> i32>(
    base: &mut [u8],
    nel: usize,
    width: usize,
    compar: Option<F>,
)
    requires
        nel * width <= old(base)@.len(),
        compar matches Some(f) ==> callable(f, width as nat),
    ensures
        unchanged_outside(old(base)@, final(base)@, 0, nel * width),
        elements(final(base)@, width as nat, 0, nel as nat).to_multiset()
            == elements(old(base)@, width as nat, 0, nel as nat).to_multiset(),
        compar is None || nel <= 1 ==> final(base)@ == old(base)@,
        compar matches Some(f) ==> (consistent(f, width as nat) ==> sorted_under(
            f,
            elements(final(base)@, width as nat, 0, nel as nat),
        )),
        compar matches Some(f) ==> (strictly_sorted_under(
            f,
            elements(old(base)@, width as nat, 0, nel as nat),
            width as nat,
        ) ==> final(base)@ == old(base)@),
{
    if let Some(comp) = compar {
        if nel > 1 {
            let ghost ord = pick_ranking(comp, elements(base@, width as nat, 0, nel as nat), width as nat);
            let maxdepth = depth_budget(nel);
            introsort_helper(base, width, 0, nel, maxdepth, &comp, Ghost(ord));
            proof {
                settle_sorted(comp, ord, old(base)@, base@, width as nat, nel as nat);
            }
        }
    }
}

/// Some ranking that `f` computes consistently on `w`-byte elements, if any.
pub open spec fn valid_witness<F: Fn(&[u8], &[u8]) -> i32>(f: F, w: nat) -> spec_fn(Seq<u8>, Seq<u8>) -> int {
    choose|ord: spec_fn(Seq<u8>, Seq<u8>) -> int| ranks_by(f, ord, w) && total_preorder_on(ord, w)
}

/// Some ranking that `f` computes consistently on `w`-byte elements, that
/// ranks only identical ones equal and that orders `s`, if any.
pub open spec fn strict_witness<F: Fn(&[u8], &[u8]) -> i32>(
    f: F,
    s: Seq<Seq<u8>>,
    w: nat,
) -> spec_fn(Seq<u8>, Seq<u8>) -> int {
    choose|ord: spec_fn(Seq<u8>, Seq<u8>) -> int|
        ranks_by(f, ord, w) && total_preorder_on(ord, w) && antisymmetric_on(ord, w) && sorted_by(ord, s)
}

/// The ranking the engine is run under: a witness of validity, chosen to
/// order `s` strictly whenever one such exists, widened to all sequences.
pub open spec fn pick_ranking<F: Fn(&[u8], &[u8]) -> i32>(f: F, s: Seq<Seq<u8>>, w: nat) -> spec_fn(
    Seq<u8>,
    Seq<u8>,
) -> int {
    if strictly_sorted_under(f, s, w) {
        widen(strict_witness(f, s, w), w)
    } else {
        widen(valid_witness(f, w), w)
    }
}

/// What a sorted run under the ranking `pick_ranking(f, old elements, w)` gives.
proof fn settle_sorted<F: Fn(&[u8], &[u8]) -> i32>(
    f: F,
    ord: spec_fn(Seq<u8>, Seq<u8>) -> int,
    old: Seq<u8>,
    new: Seq<u8>,
    w: nat,
    n: nat,
)
    requires
        ord == pick_ranking(f, elements(old, w, 0, n), w),
        n * w <= old.len(),
        unchanged_outside(old, new, 0, (n * w) as int),
        elements(new, w, 0, n).to_multiset() == elements(old, w, 0, n).to_multiset(),
        follows(f, ord, w) ==> sorted_range(ord, elements(new, w, 0, n), 0, n as int),
    ensures
        follows(f, ord, w) || !consistent(f, w),
        consistent(f, w) ==> sorted_under(f, elements(new, w, 0, n)),
        strictly_sorted_under(f, elements(old, w, 0, n), w) ==> new == old,
{
    let v = elements(new, w, 0, n);
    let v0 = elements(old, w, 0, n);
    crate::elements::lemma_elements_width(new, w, 0, n);
    crate::elements::lemma_elements_width(old, w, 0, n);
    if strictly_sorted_under(f, v0, w) {
        let o = strict_witness(f, v0, w);
        crate::order::lemma_widen(f, o, w);
        assert(sorted_by(ord, v0));
        assert(consistent(f, w));
    } else if consistent(f, w) {
        crate::order::lemma_widen(f, valid_witness(f, w), w);
    }
    if consistent(f, w) {
        assert(follows(f, ord, w));
        crate::order::lemma_sorted_range_sorted_by(ord, v);
        crate::order::lemma_sorted_under(f, ord, v, w);
        if strictly_sorted_under(f, v0, w) {
            crate::order::lemma_sorted_by_sorted_range(ord, v0);
            crate::perm::lemma_sorted_unique(ord, v, v0, w);
            crate::elements::lemma_elements_determine(old, new, w, n);
        }
    }
}

} // verus!

verus! {

/// Sorting copies of one element leaves the buffer as it was: a rearrangement
/// of the first `nel` elements that keeps the bytes after them, as `qsort` and
/// `qsort_r` promise, is the buffer itself when those elements are all equal.
pub proof fn lemma_copies_stay(old: Seq<u8>, new: Seq<u8>, width: nat, nel: nat)
    requires
        nel * width <= old.len(),
        forall|i: int, j: int|
            0 <= i < nel && 0 <= j < nel ==> #[trigger] elements(old, width, 0, nel)[i]
                == #[trigger] elements(old, width, 0, nel)[j],
        unchanged_outside(old, new, 0, (nel * width) as int),
        elements(new, width, 0, nel).to_multiset() == elements(old, width, 0, nel).to_multiset(),
    ensures
        new == old,
{
    broadcast use vstd::seq_lib::to_multiset_contains;

    let v = elements(new, width, 0, nel);
    let v0 = elements(old, width, 0, nel);
    assert forall|k: int| 0 <= k < nel implies #[trigger] v[k] == v0[k] by {
        assert(v.contains(v[k]));
        assert(v.to_multiset().count(v[k]) > 0);
        assert(v0.contains(v[k]));
        let src = choose|s: int| 0 <= s < v0.len() && v0[s] == v[k];
        assert(v0[src] == v0[k]);
    }
    assert(v =~= v0);
    crate::elements::lemma_elements_determine(old, new, width, nel);
}

} // verus!
