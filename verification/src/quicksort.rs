use vstd::prelude::*;
use crate::seq_facts::{
    lemma_multiset_all, lemma_swap_to_multiset, lemma_to_multiset_distributes_over_add,
    sorted_i32, swap_seq,
};
use crate::sort_utils::copy_range;

verus! {

/// Moves the last element into its sorted position: afterwards
/// everything before `idx` is at most `arr[idx]` and everything after it
/// is strictly greater.
fn partition(arr: &mut Vec<i32>) -> (idx: usize)
    requires
        old(arr)@.len() >= 1,
    ensures
        final(arr)@.len() == old(arr)@.len(),
        final(arr)@.to_multiset() == old(arr)@.to_multiset(),
        idx < final(arr)@.len(),
        forall|p: int| 0 <= p < idx ==> final(arr)@[p] <= final(arr)@[idx as int],
        forall|p: int| idx < p < final(arr)@.len() ==> final(arr)@[p] > final(arr)@[idx as int],
{
    let len = arr.len();
    let pivot = arr[len - 1];
    let mut i: usize = 0;
    let mut j: usize = 0;
    while j < len - 1
        invariant
            i <= j <= len - 1,
            len == arr@.len(),
            len >= 1,
            arr@.to_multiset() == old(arr)@.to_multiset(),
            arr@[len - 1] == pivot,
            forall|p: int| 0 <= p < i ==> arr@[p] <= pivot,
            forall|p: int| i <= p < j ==> arr@[p] > pivot,
        decreases len - 1 - j,
    {
        if arr[j] <= pivot {
            let ghost pre = arr@;
            let a = arr[i];
            let b = arr[j];
            arr.set(i, b);
            arr.set(j, a);
            proof {
                assert(arr@ =~= swap_seq(pre, i as int, j as int));
                lemma_swap_to_multiset(pre, i as int, j as int);
            }
            i = i + 1;
        }
        j = j + 1;
    }
    let ghost pre = arr@;
    let a = arr[i];
    let b = arr[len - 1];
    arr.set(i, b);
    arr.set(len - 1, a);
    proof {
        assert(arr@ =~= swap_seq(pre, i as int, len - 1));
        lemma_swap_to_multiset(pre, i as int, len - 1);
    }
    i
}

/// Quicksort over a fresh array: the result is sorted and holds exactly
/// the elements of the input.
pub fn quick_sort(arr: Vec<i32>) -> (r: Vec<i32>)
    ensures
        r@.to_multiset() == arr@.to_multiset(),
        sorted_i32(r@),
    decreases arr@.len(),
{
    broadcast use lemma_to_multiset_distributes_over_add;

    if arr.len() <= 1 {
        return arr;
    }
    let mut work = arr;
    let pivot_index = partition(&mut work);
    let pivot_val = work[pivot_index];
    let n = work.len();
    let left = copy_range(&work, 0, pivot_index);
    let right = copy_range(&work, pivot_index + 1, n);
    let ghost work_snap = work@;
    proof {
        assert(work_snap =~= left@ + seq![pivot_val] + right@);
    }
    let mut result = quick_sort(left);
    let ghost left_sorted = result@;
    result.push(pivot_val);
    let mut rs = quick_sort(right);
    let ghost right_sorted = rs@;
    result.append(&mut rs);
    proof {
        assert(result@ =~= left_sorted + seq![pivot_val] + right_sorted);
        assert(result@.to_multiset() == work_snap.to_multiset());
        lemma_multiset_all(left@, left_sorted, |x: i32| x <= pivot_val);
        lemma_multiset_all(right@, right_sorted, |x: i32| x > pivot_val);
        assert forall|p: int, q: int| 0 <= p < q < result@.len() implies result@[p]
            <= result@[q] by {
            let ll = left_sorted.len() as int;
            if p < ll {
                assert(result@[p] == left_sorted[p]);
            } else if p > ll {
                assert(result@[p] == right_sorted[p - ll - 1]);
            }
            if q < ll {
                assert(result@[q] == left_sorted[q]);
            } else if q > ll {
                assert(result@[q] == right_sorted[q - ll - 1]);
            }
        }
    }
    result
}

} // verus!
