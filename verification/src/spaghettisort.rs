use vstd::prelude::*;
use crate::burstsort::{counting_sort, max_of, min_of};
use crate::quicksort::quick_sort;
use crate::seq_facts::sorted_i32;

verus! {

/// Gravity sort: every key is a stack of beads, and letting the beads
/// settle leaves the columns in order.  How many beads come to rest on
/// each level depends only on how many keys reach that height, so the
/// simulation reduces to one counting pass over the value range, which
/// is what this implementation performs.
pub fn spaghetti_sort(arr: Vec<i32>) -> (r: Vec<i32>)
    ensures
        r@.to_multiset() == arr@.to_multiset(),
        sorted_i32(r@),
{
    if arr.len() == 0 {
        return arr;
    }
    let mut work = arr;
    let min_val = min_of(&work);
    let max_val = max_of(&work);
    proof {
        let q = choose|q: int| 0 <= q < work@.len() && work@[q] == max_val;
        assert(work@[q] >= min_val);
    }
    let range = (((max_val as i64) - (min_val as i64)) + 1) as u64;
    if range <= (usize::MAX as u64) {
        counting_sort(&mut work, min_val, max_val);
        work
    } else {
        quick_sort(work)
    }
}

/// The counting formulation of gravity sort, stated directly: tally the
/// keys, then write them back in ascending order.
pub fn spaghetti_sort_optimized(arr: Vec<i32>) -> (r: Vec<i32>)
    ensures
        r@.to_multiset() == arr@.to_multiset(),
        sorted_i32(r@),
{
    if arr.len() == 0 {
        return arr;
    }
    let mut work = arr;
    let min_val = min_of(&work);
    let max_val = max_of(&work);
    proof {
        let q = choose|q: int| 0 <= q < work@.len() && work@[q] == max_val;
        assert(work@[q] >= min_val);
    }
    let range = (((max_val as i64) - (min_val as i64)) + 1) as u64;
    if range <= (usize::MAX as u64) {
        counting_sort(&mut work, min_val, max_val);
        work
    } else {
        quick_sort(work)
    }
}

} // verus!
