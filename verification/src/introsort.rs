use vstd::prelude::*;
use crate::seq_facts::{
    lemma_middle_multiset, lemma_multiset_all, lemma_points_eq_from_skip, lemma_points_eq_from_take,
    lemma_skip_more, lemma_swap_to_multiset, lemma_take_less, sorted_i32, swap_seq,
};
use crate::sort_utils::insertion_sort_range_numeric;

verus! {

/// Whether position `c` of a binary heap lies in the subtree rooted at
/// `root`, following parent links `(c - 1) / 2`.
pub open spec fn in_subtree(root: int, c: int) -> bool
    decreases (if c > root {
        c - root
    } else {
        0
    }),
    when 0 <= root
{
    if c < root {
        false
    } else if c == root {
        true
    } else {
        in_subtree(root, (c - 1) / 2)
    }
}

/// Subtree positions do not precede their root.
proof fn lemma_subtree_ge(root: int, c: int)
    requires
        0 <= root,
        in_subtree(root, c),
    ensures
        c >= root,
{
}

/// Subtree membership is transitive.
proof fn lemma_subtree_trans(outer: int, inner: int, c: int)
    requires
        0 <= outer,
        0 <= inner,
        in_subtree(outer, inner),
        in_subtree(inner, c),
    ensures
        in_subtree(outer, c),
    decreases (if c > inner {
        c - inner
    } else {
        0
    }),
{
    if c != inner {
        lemma_subtree_ge(inner, c);
        lemma_subtree_trans(outer, inner, (c - 1) / 2);
    }
}

/// In a span where every child below `root`'s level respects its
/// parent, every member of `top`'s subtree is at most `top`, for any
/// `top` above `root`.
proof fn lemma_subtree_bound(s: Seq<i32>, start: int, size: int, root: int, top: int, c: int)
    requires
        0 <= start,
        start + size <= s.len(),
        0 <= root < size,
        root < top < size,
        0 <= c < size,
        in_subtree(top, c),
        forall|e: int| 1 <= e < size && (e - 1) / 2 > root ==> s[start + (e - 1) / 2] >= (#[trigger] s[start + e]),
    ensures
        s[start + c] <= s[start + top],
    decreases (if c > top {
        c - top
    } else {
        0
    }),
{
    if c != top {
        lemma_subtree_ge(top, c);
        let parent = (c - 1) / 2;
        assert(in_subtree(top, parent));
        lemma_subtree_ge(top, parent);
        assert(parent > root);
        assert(s[start + parent] >= s[start + c]);
        lemma_subtree_bound(s, start, size, root, top, parent);
    }
}

/// In a full heap every position is at most the root.
proof fn lemma_heap_root_bound(s: Seq<i32>, start: int, size: int, c: int)
    requires
        0 <= start,
        start + size <= s.len(),
        0 <= c < size,
        forall|e: int| 1 <= e < size ==> s[start + (e - 1) / 2] >= (#[trigger] s[start + e]),
    ensures
        s[start + c] <= s[start],
    decreases c,
{
    if c > 0 {
        assert(s[start + (c - 1) / 2] >= s[start + c]);
        lemma_heap_root_bound(s, start, size, (c - 1) / 2);
    }
}

/// One sift-down step composes: if the root was swapped with its
/// largest child and the child's subtree was then rebuilt, the whole
/// subtree of the root is in heap order again, untouched positions kept
/// and subtree values drawn from the subtree.
#[verifier::rlimit(100)]
#[verifier::spinoff_prover]
proof fn lemma_sift_step(
    pre: Seq<i32>,
    mid: Seq<i32>,
    g: Seq<i32>,
    start: int,
    size: int,
    ri: int,
    li: int,
)
    requires
        0 <= start,
        start + size <= pre.len(),
        mid.len() == pre.len(),
        g.len() == pre.len(),
        0 <= ri < size,
        ri < li < size,
        li == 2 * ri + 1 || li == 2 * ri + 2,
        mid == swap_seq(pre, start + ri, start + li),
        pre[start + li] >= pre[start + ri],
        2 * ri + 1 < size ==> pre[start + li] >= pre[start + 2 * ri + 1],
        2 * ri + 2 < size ==> pre[start + li] >= pre[start + 2 * ri + 2],
        forall|c: int|
            1 <= c < size && (c - 1) / 2 > ri ==> pre[start + (c - 1) / 2] >= (
            #[trigger] pre[start + c]),
        forall|c: int|
            1 <= c < size && (c - 1) / 2 >= li ==> g[start + (c - 1) / 2] >= (
            #[trigger] g[start + c]),
        forall|c: int| 0 <= c < size && !in_subtree(li, c) ==> (#[trigger] g[start + c]) == mid[start
            + c],
        forall|c: int|
            0 <= c < size && in_subtree(li, c) ==> exists|d: int|
                0 <= d < size && in_subtree(li, d) && (#[trigger] g[start + c]) == mid[start + d],
    ensures
        forall|c: int|
            1 <= c < size && (c - 1) / 2 >= ri ==> g[start + (c - 1) / 2] >= (
            #[trigger] g[start + c]),
        forall|c: int| 0 <= c < size && !in_subtree(ri, c) ==> (#[trigger] g[start + c]) == pre[start
            + c],
        forall|c: int|
            0 <= c < size && in_subtree(ri, c) ==> exists|d: int|
                0 <= d < size && in_subtree(ri, d) && (#[trigger] g[start + c]) == pre[start + d],
{
    assert((li - 1) / 2 == ri);
    assert(in_subtree(ri, ri));
    assert(in_subtree(ri, li));
    assert(!in_subtree(li, ri)) by {
        if in_subtree(li, ri) {
            lemma_subtree_ge(li, ri);
        }
    }
    assert(g[start + ri] == mid[start + ri]);
    assert(mid[start + ri] == pre[start + li]);
    // every value now in the subtree of largest is bounded by the new
    // root value
    assert forall|c: int| 0 <= c < size && in_subtree(li, c) implies (#[trigger] g[start + c])
        <= g[start + ri] by {
        let d = choose|d: int| 0 <= d < size && in_subtree(li, d) && g[start + c] == mid[start + d];
        if d == li {
            assert(mid[start + d] == pre[start + ri]);
        } else {
            lemma_subtree_ge(li, d);
            assert(mid[start + d] == pre[start + d]);
            lemma_subtree_bound(pre, start, size, ri, li, d);
        }
    }
    // the full ordering below root
    assert forall|c: int|
        1 <= c < size && (c - 1) / 2 >= ri implies g[start + (c - 1) / 2] >= (
    #[trigger] g[start + c]) by {
        let par = (c - 1) / 2;
        if par == ri {
            assert(c == 2 * ri + 1 || c == 2 * ri + 2);
            if c == li {
                assert(in_subtree(li, c));
                assert(g[start + c] <= g[start + ri]);
            } else {
                assert(!in_subtree(li, c)) by {
                    if in_subtree(li, c) && c != li {
                        lemma_subtree_ge(li, (c - 1) / 2);
                    }
                }
                assert(g[start + c] == mid[start + c]);
                assert(mid[start + c] == pre[start + c]);
                assert(pre[start + c] <= pre[start + li]);
            }
        } else if in_subtree(li, par) {
            lemma_subtree_ge(li, par);
        } else {
            assert(par > ri);
            assert(!in_subtree(li, c)) by {
                if in_subtree(li, c) {
                    assert(c != li) by {
                        if c == li {
                            assert((li - 1) / 2 == ri);
                        }
                    }
                    lemma_subtree_ge(li, c);
                }
            }
            assert(g[start + c] == mid[start + c]);
            assert(g[start + par] == mid[start + par]);
            assert(mid[start + c] == pre[start + c]);
            assert(mid[start + par] == pre[start + par]);
        }
    }
    // untouched positions
    assert forall|c: int| 0 <= c < size && !in_subtree(ri, c) implies (#[trigger] g[start + c])
        == pre[start + c] by {
        assert(!in_subtree(li, c)) by {
            if in_subtree(li, c) {
                lemma_subtree_trans(ri, li, c);
            }
        }
        assert(g[start + c] == mid[start + c]);
        assert(c != ri && c != li);
        assert(mid[start + c] == pre[start + c]);
    }
    // subtree values come from the subtree
    assert forall|c: int| 0 <= c < size && in_subtree(ri, c) implies exists|d: int|
        0 <= d < size && in_subtree(ri, d) && (#[trigger] g[start + c]) == pre[start + d] by {
        if c == ri {
            assert(g[start + c] == pre[start + li]);
        } else if in_subtree(li, c) {
            let d = choose|d: int|
                0 <= d < size && in_subtree(li, d) && g[start + c] == mid[start + d];
            if d == li {
                assert(g[start + c] == pre[start + ri]);
            } else {
                lemma_subtree_ge(li, d);
                assert(g[start + c] == pre[start + d]);
                lemma_subtree_trans(ri, li, d);
            }
        } else {
            assert(g[start + c] == mid[start + c]);
            assert(c != ri && c != li);
            assert(g[start + c] == pre[start + c]);
        }
    }
}

/// Sifts the value at `root` down its subtree until every child below
/// `root`'s level respects its parent.  Positions outside the subtree
/// are untouched, and the subtree keeps drawing its values from itself.
#[verifier::rlimit(100)]
#[verifier::spinoff_prover]
fn heapify(arr: &mut Vec<i32>, start: usize, size: usize, root: usize)
    requires
        root < size,
        start + size <= old(arr)@.len(),
        forall|c: int|
            1 <= c < size && (c - 1) / 2 > root ==> old(arr)@[start + (c - 1) / 2] >= (
            #[trigger] old(arr)@[start + c]),
    ensures
        final(arr)@.len() == old(arr)@.len(),
        final(arr)@.to_multiset() == old(arr)@.to_multiset(),
        final(arr)@.take(start as int) == old(arr)@.take(start as int),
        final(arr)@.skip(start + size) == old(arr)@.skip(start + size),
        forall|c: int|
            1 <= c < size && (c - 1) / 2 >= root ==> final(arr)@[start + (c - 1) / 2] >= (
            #[trigger] final(arr)@[start + c]),
        forall|c: int|
            0 <= c < size && !in_subtree(root as int, c) ==> (#[trigger] final(arr)@[start + c])
                == old(arr)@[start + c],
        forall|c: int|
            0 <= c < size && in_subtree(root as int, c) ==> exists|d: int|
                0 <= d < size && in_subtree(root as int, d) && (#[trigger] final(arr)@[start + c])
                    == old(arr)@[start + d],
    decreases size - root,
{
    let ghost pre = arr@;
    let n = arr.len();
    let mut largest = root;
    if root < size / 2 {
        proof {
            assert(2 * root + 1 < size);
        }
        let left = 2 * root + 1;
        if arr[start + left] > arr[start + largest] {
            largest = left;
        }
        if left + 1 < size {
            if arr[start + left + 1] > arr[start + largest] {
                largest = left + 1;
            }
        }
    }
    if largest == root {
        proof {
            assert forall|c: int|
                0 <= c < size && in_subtree(root as int, c) implies exists|d: int|
                0 <= d < size && in_subtree(root as int, d) && (#[trigger] arr@[start + c])
                    == pre[start + d] by {
                assert(arr@[start + c] == pre[start + c]);
            }
            assert forall|c: int|
                1 <= c < size && (c - 1) / 2 >= root implies arr@[start + (c - 1) / 2] >= (
            #[trigger] arr@[start + c]) by {
                if (c - 1) / 2 == root {
                    assert(c == 2 * root + 1 || c == 2 * root + 2);
                }
            }
        }
        return ;
    }
    let a = arr[start + root];
    let b = arr[start + largest];
    arr.set(start + root, b);
    arr.set(start + largest, a);
    let ghost mid = arr@;
    proof {
        assert(mid =~= swap_seq(pre, start + root, start + largest));
        lemma_swap_to_multiset(pre, start + root, start + largest);
        assert(mid.take(start as int) =~= pre.take(start as int));
        assert(mid.skip(start + size) =~= pre.skip(start + size));
        assert forall|c: int|
            1 <= c < size && (c - 1) / 2 > largest implies mid[start + (c - 1) / 2] >= (
        #[trigger] mid[start + c]) by {
            assert((c - 1) / 2 > root);
            assert(mid[start + c] == pre[start + c]);
            assert(mid[start + (c - 1) / 2] == pre[start + (c - 1) / 2]);
        }
    }
    heapify(arr, start, size, largest);
    proof {
        lemma_sift_step(
            pre,
            mid,
            arr@,
            start as int,
            size as int,
            root as int,
            largest as int,
        );
        assert(arr@.take(start as int) =~= pre.take(start as int));
        lemma_skip_more(arr@, mid, start + size, start + size);
        assert(arr@.skip(start + size) =~= pre.skip(start + size));
    }
}

/// Heapsort of `arr[start..end]`: builds a max-heap, then repeatedly
/// moves the root behind the shrinking heap.
#[verifier::rlimit(100)]
#[verifier::spinoff_prover]
pub(crate) fn heapsort_range(arr: &mut Vec<i32>, start: usize, end: usize)
    requires
        start <= end <= old(arr)@.len(),
    ensures
        final(arr)@.len() == old(arr)@.len(),
        final(arr)@.take(start as int) == old(arr)@.take(start as int),
        final(arr)@.skip(end as int) == old(arr)@.skip(end as int),
        final(arr)@.to_multiset() == old(arr)@.to_multiset(),
        sorted_i32(final(arr)@.subrange(start as int, end as int)),
{
    let ghost init = arr@;
    let size = end - start;
    if size <= 1 {
        return ;
    }
    let mut i = size / 2;
    while i > 0
        invariant
            i <= size / 2,
            size == end - start,
            start <= end <= arr@.len(),
            arr@.len() == init.len(),
            arr@.take(start as int) == init.take(start as int),
            arr@.skip(end as int) == init.skip(end as int),
            arr@.to_multiset() == init.to_multiset(),
            forall|c: int|
                1 <= c < size && (c - 1) / 2 >= i ==> arr@[start + (c - 1) / 2] >= (
                #[trigger] arr@[start + c]),
        decreases i,
    {
        i = i - 1;
        let ghost pre = arr@;
        heapify(arr, start, size, i);
        proof {
            assert(arr@.take(start as int) =~= init.take(start as int));
            lemma_skip_more(arr@, pre, start + size, end as int);
        }
    }
    let mut h = size;
    while h > 1
        invariant
            1 <= h <= size,
            size == end - start,
            start <= end <= arr@.len(),
            arr@.len() == init.len(),
            arr@.take(start as int) == init.take(start as int),
            arr@.skip(end as int) == init.skip(end as int),
            arr@.to_multiset() == init.to_multiset(),
            // heap over the first h positions
            forall|c: int|
                1 <= c < h ==> arr@[start + (c - 1) / 2] >= (#[trigger] arr@[start + c]),
            // sorted, settled tail
            forall|p: int, q: int|
                h <= p < q < size ==> (#[trigger] arr@[start + p]) <= (#[trigger] arr@[start + q]),
            // the heap is bounded by the tail
            forall|p: int, q: int|
                0 <= p < h <= q < size ==> (#[trigger] arr@[start + p]) <= (
                #[trigger] arr@[start + q]),
        decreases h,
    {
        h = h - 1;
        let ghost pre = arr@;
        proof {
            lemma_heap_root_bound(pre, start as int, h as int + 1, h as int);
            assert forall|c: int| 0 <= c < h + 1 implies (#[trigger] pre[start + c]) <= pre[
                start as int] by {
                lemma_heap_root_bound(pre, start as int, h as int + 1, c);
            }
        }
        let a = arr[start];
        let b = arr[start + h];
        arr.set(start, b);
        arr.set(start + h, a);
        let ghost mid = arr@;
        proof {
            assert(mid =~= swap_seq(pre, start as int, start + h));
            lemma_swap_to_multiset(pre, start as int, start + h);
            assert(mid.take(start as int) =~= pre.take(start as int));
            assert(mid.skip(end as int) =~= pre.skip(end as int));
        }
        heapify(arr, start, h, 0);
        proof {
            let g = arr@;
            assert(g.take(start as int) =~= init.take(start as int));
            lemma_points_eq_from_skip(g, mid, start as int + h as int);
            lemma_skip_more(g, mid, start + h, end as int);
            assert(g.skip(end as int) =~= init.skip(end as int));
            // values in the rebuilt heap still come from the old heap,
            // so they stay bounded by the freshly settled element
            assert forall|c: int| 0 <= c < h implies (#[trigger] g[start + c]) <= g[start as int
                + h as int] by {
                assert(in_subtree(0, c)) by {
                    lemma_in_subtree_root(c);
                }
                let d = choose|d: int|
                    0 <= d < h && in_subtree(0, d) && g[start + c] == mid[start + d];
                if d == 0 {
                    assert(mid[start + d] == pre[start + h]);
                    assert(pre[start + h] <= pre[start as int]);
                } else {
                    assert(mid[start + d] == pre[start + d]);
                    assert(pre[start + d] <= pre[start as int]);
                }
                assert(g[start + h] == mid[start + h]);
                assert(mid[start + h] == pre[start as int]);
            }
            assert forall|p: int, q: int|
                h <= p < q < size implies (#[trigger] g[start + p]) <= (
            #[trigger] g[start + q]) by {
                assert(g[start + p] == mid[start + p]);
                assert(g[start + q] == mid[start + q]);
                if p > h {
                    assert(mid[start + p] == pre[start + p]);
                }
                if q > h {
                    assert(mid[start + q] == pre[start + q]);
                }
                if p == h {
                    assert(mid[start + h] == pre[start as int]);
                    assert(pre[start as int] <= pre[start + q]);
                }
            }
            assert forall|p: int, q: int|
                0 <= p < h <= q < size implies (#[trigger] g[start + p]) <= (
            #[trigger] g[start + q]) by {
                assert(g[start + p] <= g[start + h]);
                if q > h {
                    assert(g[start + q] == mid[start + q]);
                    assert(mid[start + q] == pre[start + q]);
                    assert(g[start + h] == pre[start as int]);
                    assert(pre[start as int] <= pre[start + q]);
                }
            }
        }
    }
    proof {
        assert forall|p: int, q: int|
            0 <= p < q < size implies (#[trigger] arr@[start + p]) <= (
        #[trigger] arr@[start + q]) by {
            if p < 1 && q >= 1 {
                assert(arr@[start + p] <= arr@[start + q]);
            }
        }
        assert forall|x: int, y: int|
            0 <= x < y < size implies arr@.subrange(start as int, end as int)[x] <= arr@.subrange(
            start as int,
            end as int,
        )[y] by {
            assert(arr@.subrange(start as int, end as int)[x] == arr@[start + x]);
            assert(arr@.subrange(start as int, end as int)[y] == arr@[start + y]);
        }
    }
}

/// Every position lies in the subtree of the heap's root.
proof fn lemma_in_subtree_root(c: int)
    requires
        c >= 0,
    ensures
        in_subtree(0, c),
    decreases c,
{
    if c > 0 {
        lemma_in_subtree_root((c - 1) / 2);
    }
}

/// Moves the last element of `arr[start..end]` into its sorted position:
/// everything before the returned index is at most the pivot, everything
/// after it strictly greater.
fn partition_range(arr: &mut Vec<i32>, start: usize, end: usize) -> (pi: usize)
    requires
        start < end <= old(arr)@.len(),
    ensures
        start <= pi < end,
        final(arr)@.len() == old(arr)@.len(),
        final(arr)@.take(start as int) == old(arr)@.take(start as int),
        final(arr)@.skip(end as int) == old(arr)@.skip(end as int),
        final(arr)@.to_multiset() == old(arr)@.to_multiset(),
        forall|p: int| start <= p < pi ==> (#[trigger] final(arr)@[p]) <= final(arr)@[pi as int],
        forall|p: int| pi < p < end ==> (#[trigger] final(arr)@[p]) > final(arr)@[pi as int],
{
    let ghost init = arr@;
    let pivot = arr[end - 1];
    let mut i = start;
    let mut j = start;
    while j < end - 1
        invariant
            start <= i <= j <= end - 1,
            start < end <= arr@.len(),
            arr@.len() == init.len(),
            arr@.take(start as int) == init.take(start as int),
            arr@.skip(end as int) == init.skip(end as int),
            arr@.to_multiset() == init.to_multiset(),
            arr@[end - 1] == pivot,
            forall|p: int| start <= p < i ==> (#[trigger] arr@[p]) <= pivot,
            forall|p: int| i <= p < j ==> (#[trigger] arr@[p]) > pivot,
        decreases end - 1 - j,
    {
        if arr[j] <= pivot {
            let ghost pre = arr@;
            let a = arr[i];
            let b = arr[j];
            arr.set(i, b);
            arr.set(j, a);
            proof {
                assert(arr@ =~= swap_seq(pre, i as int, j as int));
                lemma_swap_to_multiset(pre, i as int, j as int);
                assert(arr@.take(start as int) =~= pre.take(start as int));
                assert(arr@.skip(end as int) =~= pre.skip(end as int));
            }
            i = i + 1;
        }
        j = j + 1;
    }
    let ghost pre = arr@;
    let a = arr[i];
    let b = arr[end - 1];
    arr.set(i, b);
    arr.set(end - 1, a);
    proof {
        assert(arr@ =~= swap_seq(pre, i as int, end as int - 1));
        lemma_swap_to_multiset(pre, i as int, end as int - 1);
        assert(arr@.take(start as int) =~= pre.take(start as int));
        assert(arr@.skip(end as int) =~= pre.skip(end as int));
    }
    i
}

/// The introspective recursion: quicksort by default, insertion sort on
/// small spans, heapsort once the depth budget is spent.
fn introsort_util(arr: &mut Vec<i32>, start: usize, end: usize, max_depth: usize)
    requires
        start <= end <= old(arr)@.len(),
    ensures
        final(arr)@.len() == old(arr)@.len(),
        final(arr)@.take(start as int) == old(arr)@.take(start as int),
        final(arr)@.skip(end as int) == old(arr)@.skip(end as int),
        final(arr)@.to_multiset() == old(arr)@.to_multiset(),
        sorted_i32(final(arr)@.subrange(start as int, end as int)),
    decreases end - start,
{
    let ghost init = arr@;
    let size = end - start;
    if size <= 1 {
        return ;
    }
    if size <= 16 {
        insertion_sort_range_numeric(arr, start, end);
        return ;
    }
    if max_depth == 0 {
        heapsort_range(arr, start, end);
        return ;
    }
    let pivot = partition_range(arr, start, end);
    let ghost b1 = arr@;
    let ghost pivot_val = b1[pivot as int];
    introsort_util(arr, start, pivot, max_depth - 1);
    let ghost b2 = arr@;
    proof {
        lemma_points_eq_from_skip(b2, b1, pivot as int);
        lemma_middle_multiset(b2, b1, start as int, pivot as int);
        lemma_multiset_all(
            b1.subrange(start as int, pivot as int),
            b2.subrange(start as int, pivot as int),
            |x: i32| x <= pivot_val,
        );
        lemma_take_less(b2, b1, start as int, start as int);
        assert(b2.take(start as int) =~= init.take(start as int));
        lemma_skip_more(b2, b1, pivot as int, end as int);
        assert(b2.skip(end as int) =~= init.skip(end as int));
    }
    introsort_util(arr, pivot + 1, end, max_depth - 1);
    let ghost b3 = arr@;
    proof {
        lemma_points_eq_from_take(b3, b2, pivot as int + 1);
        lemma_middle_multiset(b3, b2, pivot as int + 1, end as int);
        lemma_multiset_all(
            b2.subrange(pivot as int + 1, end as int),
            b3.subrange(pivot as int + 1, end as int),
            |x: i32| x > pivot_val,
        );
        lemma_take_less(b3, b2, pivot as int + 1, start as int);
        assert(b3.take(start as int) =~= init.take(start as int));
        assert(b3.skip(end as int) =~= init.skip(end as int));
        assert forall|x: int, y: int|
            0 <= x < y < end - start implies b3.subrange(start as int, end as int)[x]
            <= b3.subrange(start as int, end as int)[y] by {
            let p = start + x;
            let q = start + y;
            assert(b3.subrange(start as int, end as int)[x] == b3[p]);
            assert(b3.subrange(start as int, end as int)[y] == b3[q]);
            if p < pivot {
                assert(b2.subrange(start as int, pivot as int)[p - start] == b2[p]);
                assert(b3[p] == b2[p]);
                assert(b3[p] <= pivot_val);
            } else if p > pivot {
                assert(b3.subrange(pivot as int + 1, end as int)[p - pivot - 1] == b3[p]);
                assert(b3[p] > pivot_val);
            }
            if q < pivot {
                assert(b2.subrange(start as int, pivot as int)[q - start] == b2[q]);
                assert(b3[q] == b2[q]);
                assert(b3[q] <= pivot_val);
            } else if q > pivot {
                assert(b3.subrange(pivot as int + 1, end as int)[q - pivot - 1] == b3[q]);
                assert(b3[q] > pivot_val);
            }
            assert(b3[pivot as int] == b2[pivot as int]);
            assert(b2[pivot as int] == b1[pivot as int]);
            if p < pivot {
                // left values sit below the pivot, which sits below the right
                assert(b3[p] <= pivot_val);
            }
        }
    }
}

/// Introspective sort over a fresh array: quicksort with an insertion
/// floor and a heapsort escape once the recursion depth passes twice the
/// binary logarithm of the length.  The result is the sorted arrangement
/// of the input.
pub fn introsort(arr: Vec<i32>) -> (r: Vec<i32>)
    ensures
        r@.to_multiset() == arr@.to_multiset(),
        sorted_i32(r@),
{
    if arr.len() <= 1 {
        return arr;
    }
    let mut work = arr;
    let n = work.len();
    let mut m = n;
    let mut depth: usize = 0;
    while m > 1 && depth < 64
        invariant
            depth <= 64,
        decreases m,
    {
        m = m / 2;
        depth = depth + 1;
    }
    let max_depth = depth * 2;
    introsort_util(&mut work, 0, n, max_depth);
    proof {
        assert(work@.subrange(0, n as int) =~= work@);
    }
    work
}

} // verus!
