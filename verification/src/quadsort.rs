use vstd::prelude::*;
use crate::seq_facts::{
    lemma_skip_more, lemma_subrange_eq_from_take, lemma_take_less,
    lemma_to_multiset_distributes_over_add, sorted_i32,
};
use crate::sort_utils::{copy_range, insertion_sort_range_numeric};

verus! {

/// Merges two sorted arrays into one sorted array holding the elements
/// of both.
fn merge_two_sorted(left: &Vec<i32>, right: &Vec<i32>) -> (r: Vec<i32>)
    requires
        sorted_i32(left@),
        sorted_i32(right@),
    ensures
        r@.len() == left@.len() + right@.len(),
        r@.to_multiset() == (left@ + right@).to_multiset(),
        sorted_i32(r@),
{
    broadcast use lemma_to_multiset_distributes_over_add;

    let mut r: Vec<i32> = Vec::new();
    let mut i: usize = 0;
    let mut j: usize = 0;
    proof {
        assert(left@.take(0) + right@.take(0) =~= Seq::<i32>::empty());
        assert(r@ =~= Seq::<i32>::empty());
    }
    while i < left.len() || j < right.len()
        invariant
            i <= left@.len(),
            j <= right@.len(),
            r@.len() == i + j,
            sorted_i32(left@),
            sorted_i32(right@),
            sorted_i32(r@),
            forall|p: int| 0 <= p < r@.len() && i < left@.len() ==> r@[p] <= left@[i as int],
            forall|p: int| 0 <= p < r@.len() && j < right@.len() ==> r@[p] <= right@[j as int],
            r@.to_multiset() == (left@.take(i as int) + right@.take(j as int)).to_multiset(),
        decreases left@.len() + right@.len() - i - j,
    {
        let take_left: bool = if i < left.len() && j < right.len() {
            left[i] <= right[j]
        } else {
            i < left.len()
        };
        let ghost pre_r = r@;
        if take_left {
            r.push(left[i]);
            proof {
                broadcast use vstd::seq_lib::group_to_multiset_ensures;
                broadcast use vstd::multiset::group_multiset_axioms;
                broadcast use lemma_to_multiset_distributes_over_add;

                assert(left@.take(i + 1) =~= left@.take(i as int).push(left@[i as int]));
                assert(left@.take(i as int).push(left@[i as int]).to_multiset() == left@.take(
                    i as int,
                ).to_multiset().insert(left@[i as int]));
                assert(r@.to_multiset() == pre_r.to_multiset().insert(left@[i as int]));
                assert((left@.take(i + 1) + right@.take(j as int)).to_multiset()
                    =~= r@.to_multiset());
            }
            i = i + 1;
        } else {
            r.push(right[j]);
            proof {
                broadcast use vstd::seq_lib::group_to_multiset_ensures;
                broadcast use vstd::multiset::group_multiset_axioms;
                broadcast use lemma_to_multiset_distributes_over_add;

                assert(right@.take(j + 1) =~= right@.take(j as int).push(right@[j as int]));
                assert(right@.take(j as int).push(right@[j as int]).to_multiset() == right@.take(
                    j as int,
                ).to_multiset().insert(right@[j as int]));
                assert(r@.to_multiset() == pre_r.to_multiset().insert(right@[j as int]));
                assert((left@.take(i as int) + right@.take(j + 1)).to_multiset()
                    =~= r@.to_multiset());
            }
            j = j + 1;
        }
    }
    proof {
        assert(left@.take(left@.len() as int) =~= left@);
        assert(right@.take(right@.len() as int) =~= right@);
    }
    r
}

/// Merges four adjacent sorted quarters of `arr[start..end]` into one
/// sorted span, pairwise.
fn merge_four_parts(
    arr: &mut Vec<i32>,
    start: usize,
    mid1: usize,
    mid2: usize,
    mid3: usize,
    end: usize,
)
    requires
        start <= mid1 <= mid2 <= mid3 <= end <= old(arr)@.len(),
        sorted_i32(old(arr)@.subrange(start as int, mid1 as int)),
        sorted_i32(old(arr)@.subrange(mid1 as int, mid2 as int)),
        sorted_i32(old(arr)@.subrange(mid2 as int, mid3 as int)),
        sorted_i32(old(arr)@.subrange(mid3 as int, end as int)),
    ensures
        final(arr)@.len() == old(arr)@.len(),
        final(arr)@.take(start as int) == old(arr)@.take(start as int),
        final(arr)@.skip(end as int) == old(arr)@.skip(end as int),
        final(arr)@.to_multiset() == old(arr)@.to_multiset(),
        sorted_i32(final(arr)@.subrange(start as int, end as int)),
{
    broadcast use lemma_to_multiset_distributes_over_add;

    let ghost init = arr@;
    let a = copy_range(arr, start, mid1);
    let b = copy_range(arr, mid1, mid2);
    let c = copy_range(arr, mid2, mid3);
    let d = copy_range(arr, mid3, end);
    let t1 = merge_two_sorted(&a, &b);
    let t2 = merge_two_sorted(&c, &d);
    let merged = merge_two_sorted(&t1, &t2);
    proof {
        assert((a@ + b@) + (c@ + d@) =~= a@ + b@ + c@ + d@);
        assert(init.subrange(start as int, end as int) =~= a@ + b@ + c@ + d@);
        assert(merged@.to_multiset() == init.subrange(start as int, end as int).to_multiset());
    }
    let mut w: usize = 0;
    let count = merged.len();
    while w < count
        invariant
            w <= count,
            count == end - start,
            start <= end <= arr@.len(),
            arr@.len() == init.len(),
            merged@.len() == count,
            arr@.take(start as int) == init.take(start as int),
            arr@.skip(end as int) == init.skip(end as int),
            forall|p: int| 0 <= p < w ==> #[trigger] arr@[start + p] == merged@[p],
            forall|p: int| w <= p < count ==> #[trigger] arr@[start + p] == init[start + p],
        decreases count - w,
    {
        let ghost pre = arr@;
        let value = merged[w];
        arr.set(start + w, value);
        proof {
            assert(arr@.take(start as int) =~= pre.take(start as int));
            assert(arr@.skip(end as int) =~= pre.skip(end as int));
        }
        w = w + 1;
    }
    proof {
        assert forall|x: int| 0 <= x < count implies arr@.subrange(start as int, end as int)[x]
            == merged@[x] by {
            assert(arr@[start + x] == merged@[x]);
        }
        assert(arr@.subrange(start as int, end as int) =~= merged@);
        assert(arr@ =~= arr@.take(start as int) + arr@.subrange(start as int, end as int)
            + arr@.skip(end as int));
        assert(init =~= init.take(start as int) + init.subrange(start as int, end as int)
            + init.skip(end as int));
        assert(arr@.to_multiset() =~= init.to_multiset()) by {
            broadcast use vstd::multiset::group_multiset_axioms;
            broadcast use lemma_to_multiset_distributes_over_add;
        }
    }
}

/// Sorts `arr[start..end]` by splitting it into four quarters, sorting
/// each, and merging them pairwise; small spans go through insertion
/// sort.
fn quad_sort_recursive(arr: &mut Vec<i32>, start: usize, end: usize)
    requires
        start <= end <= old(arr)@.len(),
    ensures
        final(arr)@.len() == old(arr)@.len(),
        final(arr)@.take(start as int) == old(arr)@.take(start as int),
        final(arr)@.skip(end as int) == old(arr)@.skip(end as int),
        final(arr)@.to_multiset() == old(arr)@.to_multiset(),
        sorted_i32(final(arr)@.subrange(start as int, end as int)),
    decreases end - start,
{
    let size = end - start;
    if size <= 1 {
        return ;
    }
    if size <= 32 {
        insertion_sort_range_numeric(arr, start, end);
        return ;
    }
    let quarter = size / 4;
    let mid1 = start + quarter;
    let mid2 = start + 2 * quarter;
    let mid3 = start + 3 * quarter;
    let ghost s0 = arr@;
    quad_sort_recursive(arr, start, mid1);
    let ghost s1 = arr@;
    quad_sort_recursive(arr, mid1, mid2);
    let ghost s2 = arr@;
    quad_sort_recursive(arr, mid2, mid3);
    let ghost s3 = arr@;
    quad_sort_recursive(arr, mid3, end);
    let ghost s4 = arr@;
    proof {
        // each earlier quarter is untouched by the later calls
        lemma_subrange_eq_from_take(s2, s1, mid1 as int, start as int, mid1 as int);
        lemma_subrange_eq_from_take(s3, s2, mid2 as int, start as int, mid1 as int);
        lemma_subrange_eq_from_take(s4, s3, mid3 as int, start as int, mid1 as int);
        lemma_subrange_eq_from_take(s3, s2, mid2 as int, mid1 as int, mid2 as int);
        lemma_subrange_eq_from_take(s4, s3, mid3 as int, mid1 as int, mid2 as int);
        lemma_subrange_eq_from_take(s4, s3, mid3 as int, mid2 as int, mid3 as int);
        assert(sorted_i32(s4.subrange(start as int, mid1 as int)));
        assert(sorted_i32(s4.subrange(mid1 as int, mid2 as int)));
        assert(sorted_i32(s4.subrange(mid2 as int, mid3 as int)));
        assert(sorted_i32(s4.subrange(mid3 as int, end as int)));
        // frames compose across the four calls
        lemma_take_less(s2, s1, mid1 as int, start as int);
        lemma_take_less(s3, s2, mid2 as int, start as int);
        lemma_take_less(s4, s3, mid3 as int, start as int);
        assert(s4.take(start as int) =~= s0.take(start as int));
        lemma_skip_more(s1, s0, mid1 as int, end as int);
        lemma_skip_more(s2, s1, mid2 as int, end as int);
        lemma_skip_more(s3, s2, mid3 as int, end as int);
        assert(s4.skip(end as int) =~= s0.skip(end as int));
    }
    merge_four_parts(arr, start, mid1, mid2, mid3, end);
    proof {
        assert(arr@.take(start as int) =~= s0.take(start as int));
        assert(arr@.skip(end as int) =~= s0.skip(end as int));
    }
}

/// A four-way merge sort over a fresh array: the result is sorted and
/// holds exactly the elements of the input.
pub fn quad_sort(arr: Vec<i32>) -> (r: Vec<i32>)
    ensures
        r@.to_multiset() == arr@.to_multiset(),
        sorted_i32(r@),
{
    if arr.len() <= 1 {
        return arr;
    }
    let mut work = arr;
    let n = work.len();
    quad_sort_recursive(&mut work, 0, n);
    proof {
        assert(work@.subrange(0, n as int) =~= work@);
    }
    work
}

} // verus!
