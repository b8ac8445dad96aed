use vstd::prelude::*;
use vstd::multiset::Multiset;
use crate::quicksort::quick_sort;
use crate::seq_facts::sorted_i32;
use crate::sort_utils::insertion_sort_numeric;

verus! {

/// The number of elements of `m` whose value lies in `[min, min + k)`.
pub(crate) open spec fn sum_counts(m: Multiset<i32>, min: int, k: nat) -> int
    decreases k,
{
    if k == 0 {
        0
    } else {
        sum_counts(m, min, (k - 1) as nat) + m.count((min + k - 1) as i32)
    }
}

pub(crate) proof fn lemma_sum_counts_mono(m: Multiset<i32>, min: int, k1: nat, k2: nat)
    requires
        k1 <= k2,
    ensures
        sum_counts(m, min, k1) <= sum_counts(m, min, k2),
    decreases k2,
{
    if k1 < k2 {
        lemma_sum_counts_mono(m, min, k1, (k2 - 1) as nat);
    }
}

proof fn lemma_sum_counts_outside(m: Multiset<i32>, min: int, k: nat, x: i32)
    requires
        x < min || x >= min + k,
        min >= i32::MIN,
        min + k - 1 <= i32::MAX,
    ensures
        sum_counts(m.insert(x), min, k) == sum_counts(m, min, k),
    decreases k,
{
    broadcast use vstd::multiset::group_multiset_axioms;

    if k > 0 {
        lemma_sum_counts_outside(m, min, (k - 1) as nat, x);
    }
}

proof fn lemma_sum_counts_insert(m: Multiset<i32>, min: int, k: nat, x: i32)
    requires
        min <= x < min + k,
        min + k - 1 <= i32::MAX,
        min >= i32::MIN,
    ensures
        sum_counts(m.insert(x), min, k) == sum_counts(m, min, k) + 1,
    decreases k,
{
    broadcast use vstd::multiset::group_multiset_axioms;

    if x == (min + k - 1) as i32 {
        lemma_sum_counts_outside(m, min, (k - 1) as nat, x);
    } else {
        lemma_sum_counts_insert(m, min, (k - 1) as nat, x);
    }
}

proof fn lemma_sum_counts_empty(min: int, k: nat)
    ensures
        sum_counts(Multiset::<i32>::empty(), min, k) == 0,
    decreases k,
{
    broadcast use vstd::multiset::group_multiset_axioms;

    if k > 0 {
        lemma_sum_counts_empty(min, (k - 1) as nat);
    }
}

/// A sequence whose values all lie in `[min, min + k)` has as many
/// elements as its per-value counts over that interval.
pub(crate) proof fn lemma_sum_counts_total(s: Seq<i32>, min: int, k: nat)
    requires
        forall|i: int| 0 <= i < s.len() ==> min <= #[trigger] s[i] < min + k,
        min >= i32::MIN,
        min + k - 1 <= i32::MAX,
    ensures
        sum_counts(s.to_multiset(), min, k) == s.len(),
    decreases s.len(),
{
    broadcast use vstd::seq_lib::group_to_multiset_ensures;

    if s.len() == 0 {
        assert(s.to_multiset() =~= Multiset::<i32>::empty());
        lemma_sum_counts_empty(min, k);
    } else {
        let d = s.drop_last();
        assert(s =~= d.push(s.last()));
        lemma_sum_counts_total(d, min, k);
        assert(s.to_multiset() == d.to_multiset().insert(s.last()));
        lemma_sum_counts_insert(d.to_multiset(), min, k, s.last());
    }
}

/// Finds the largest value.
pub(crate) fn max_of(arr: &Vec<i32>) -> (m: i32)
    requires
        arr@.len() >= 1,
    ensures
        forall|i: int| 0 <= i < arr@.len() ==> arr@[i] <= m,
        arr@.contains(m),
{
    let mut m = arr[0];
    let mut i: usize = 1;
    while i < arr.len()
        invariant
            1 <= i <= arr@.len(),
            forall|p: int| 0 <= p < i ==> arr@[p] <= m,
            arr@.contains(m),
        decreases arr@.len() - i,
    {
        if arr[i] > m {
            m = arr[i];
        }
        i = i + 1;
    }
    m
}

/// Finds the smallest value.
pub(crate) fn min_of(arr: &Vec<i32>) -> (m: i32)
    requires
        arr@.len() >= 1,
    ensures
        forall|i: int| 0 <= i < arr@.len() ==> arr@[i] >= m,
        arr@.contains(m),
{
    let mut m = arr[0];
    let mut i: usize = 1;
    while i < arr.len()
        invariant
            1 <= i <= arr@.len(),
            forall|p: int| 0 <= p < i ==> arr@[p] >= m,
            arr@.contains(m),
        decreases arr@.len() - i,
    {
        if arr[i] < m {
            m = arr[i];
        }
        i = i + 1;
    }
    m
}

/// Counting sort over the value interval `[min_val, max_val]`: the array
/// is rewritten as the sorted arrangement of its own elements.
#[verifier::rlimit(60)]
pub(crate) fn counting_sort(arr: &mut Vec<i32>, min_val: i32, max_val: i32)
    requires
        min_val <= max_val,
        (max_val as int) - (min_val as int) + 1 <= usize::MAX,
        forall|i: int| 0 <= i < old(arr)@.len() ==> min_val <= #[trigger] old(arr)@[i] <= max_val,
    ensures
        final(arr)@.len() == old(arr)@.len(),
        final(arr)@.to_multiset() == old(arr)@.to_multiset(),
        sorted_i32(final(arr)@),
{
    broadcast use vstd::multiset::group_multiset_axioms;
    broadcast use vstd::seq_lib::group_to_multiset_ensures;

    let ghost init = arr@;
    let ghost m0 = init.to_multiset();
    let ghost gmin = min_val as int;
    let n = arr.len();
    let range = ((max_val as i64) - (min_val as i64) + 1) as usize;
    let mut count: Vec<usize> = vec![0; range];
    let mut i: usize = 0;
    while i < n
        invariant
            i <= n,
            n == arr@.len(),
            arr@ == init,
            count@.len() == range,
            range == (max_val as int) - gmin + 1,
            gmin == min_val as int,
            min_val <= max_val,
            forall|p: int| 0 <= p < init.len() ==> min_val <= #[trigger] init[p] <= max_val,
            forall|v: int| 0 <= v < range ==> #[trigger] count@[v] <= i,
            forall|v: int|
                0 <= v < range ==> #[trigger] count@[v] == init.take(i as int).to_multiset().count(
                    (gmin + v) as i32,
                ),
        decreases n - i,
    {
        let x = arr[i];
        let idx = ((x as i64) - (min_val as i64)) as usize;
        let c = count[idx];
        count.set(idx, c + 1);
        proof {
            broadcast use vstd::multiset::group_multiset_axioms;
            broadcast use vstd::seq_lib::group_to_multiset_ensures;

            assert(init.take(i + 1) =~= init.take(i as int).push(init[i as int]));
            assert forall|v: int| 0 <= v < range implies #[trigger] count@[v] == init.take(
                i + 1,
            ).to_multiset().count((gmin + v) as i32) by {
                assert(init.take(i as int).push(init[i as int]).to_multiset() == init.take(
                    i as int,
                ).to_multiset().insert(init[i as int]));
                assert(init.take(i + 1).to_multiset() == init.take(
                    i as int,
                ).to_multiset().insert(init[i as int]));
                if v != idx {
                    assert((gmin + v) as i32 != x);
                }
            }
        }
        i = i + 1;
    }
    proof {
        assert(init.take(n as int) =~= init);
        lemma_sum_counts_total(init, gmin, range as nat);
    }
    let mut index: usize = 0;
    let mut v: usize = 0;
    while v < range
        invariant
            v <= range,
            n == arr@.len(),
            count@.len() == range,
            range == (max_val as int) - gmin + 1,
            gmin == min_val as int,
            min_val <= max_val,
            sum_counts(m0, gmin, range as nat) == n,
            m0 == init.to_multiset(),
            forall|u: int| 0 <= u < range ==> #[trigger] count@[u] == m0.count((gmin + u) as i32),
            index == sum_counts(m0, gmin, v as nat),
            index <= n,
            forall|p: int| 0 <= p < index ==> gmin <= #[trigger] arr@[p] < gmin + v,
            forall|p: int, q: int| 0 <= p < q < index ==> arr@[p] <= arr@[q],
            forall|u: int|
                0 <= u < range ==> arr@.take(index as int).to_multiset().count(
                    #[trigger] ((gmin + u) as i32),
                ) == (if u < v {
                    m0.count((gmin + u) as i32)
                } else {
                    0
                }),
        decreases range - v,
    {
        let c = count[v];
        let value = ((min_val as i64) + (v as i64)) as i32;
        proof {
            lemma_sum_counts_mono(m0, gmin, (v + 1) as nat, range as nat);
        }
        let mut w: usize = 0;
        while w < c
            invariant
                w <= c,
                n == arr@.len(),
                v < range,
                range == (max_val as int) - gmin + 1,
                gmin == min_val as int,
                c == m0.count((gmin + v) as i32),
                value == (gmin + v) as i32,
                gmin <= gmin + v <= max_val as int,
                sum_counts(m0, gmin, (v + 1) as nat) <= n,
                index == sum_counts(m0, gmin, v as nat) + w,
                forall|p: int| 0 <= p < index ==> gmin <= #[trigger] arr@[p] <= gmin + v,
                forall|p: int, q: int| 0 <= p < q < index ==> arr@[p] <= arr@[q],
                forall|u: int|
                    0 <= u < range ==> arr@.take(index as int).to_multiset().count(
                        #[trigger] ((gmin + u) as i32),
                    ) == (if u < v {
                        m0.count((gmin + u) as i32) as int
                    } else if u == v {
                        w as int
                    } else {
                        0
                    }),
            decreases c - w,
        {
            proof {
                assert(index < n);
            }
            let ghost pre = arr@;
            arr.set(index, value);
            proof {
                broadcast use vstd::multiset::group_multiset_axioms;
                broadcast use vstd::seq_lib::group_to_multiset_ensures;

                assert(arr@.take(index + 1) =~= pre.take(index as int).push(value));
                assert forall|u: int| 0 <= u < range implies arr@.take(index + 1).to_multiset().count(
                    #[trigger] ((gmin + u) as i32),
                ) == (if u < v {
                    m0.count((gmin + u) as i32) as int
                } else if u == v {
                    w + 1
                } else {
                    0
                }) by {
                    assert(pre.take(index as int).push(value).to_multiset() == pre.take(
                        index as int,
                    ).to_multiset().insert(value));
                    assert(arr@.take(index + 1).to_multiset() == pre.take(
                        index as int,
                    ).to_multiset().insert(value));
                    assert(pre.take(index as int) =~= arr@.take(index as int));
                    if u != v {
                        assert((gmin + u) as i32 != value);
                    }
                }
            }
            index = index + 1;
            w = w + 1;
        }
        v = v + 1;
    }
    proof {
        assert(index == n) by {
            assert(index == sum_counts(m0, gmin, range as nat));
        }
        assert(arr@.take(n as int) =~= arr@);
        assert(arr@.to_multiset() =~= m0) by {
            assert forall|x: i32| arr@.to_multiset().count(x) == m0.count(x) by {
                if min_val <= x && x <= max_val {
                    let u = (x as int) - gmin;
                    assert(0 <= u < range);
                    assert((gmin + u) as i32 == x);
                    assert(arr@.take(n as int).to_multiset().count((gmin + u) as i32)
                        == m0.count((gmin + u) as i32));
                } else {
                    assert(arr@.to_multiset().count(x) == 0) by {
                        if arr@.to_multiset().count(x) > 0 {
                            assert(arr@.contains(x));
                            let q = choose|q: int| 0 <= q < arr@.len() && arr@[q] == x;
                            assert(gmin <= arr@[q] < gmin + range);
                        }
                    }
                    assert(m0.count(x) == 0) by {
                        if m0.count(x) > 0 {
                            assert(init.contains(x));
                            let q = choose|q: int| 0 <= q < init.len() && init[q] == x;
                            assert(min_val <= init[q] <= max_val);
                        }
                    }
                }
            }
        }
    }
}

/// A hybrid over value distributions: small arrays go through insertion
/// sort, narrow value ranges through counting sort, and everything else
/// through quicksort.  The result is always the sorted arrangement of
/// the input.
pub fn burst_sort(arr: Vec<i32>) -> (r: Vec<i32>)
    ensures
        r@.to_multiset() == arr@.to_multiset(),
        sorted_i32(r@),
{
    if arr.len() <= 1 {
        return arr;
    }
    let mut work = arr;
    if work.len() <= 10 {
        insertion_sort_numeric(&mut work);
        return work;
    }
    let max_val = max_of(&work);
    let min_val = min_of(&work);
    let range = ((max_val as i64) - (min_val as i64)) + 1;
    if range <= 256 {
        counting_sort(&mut work, min_val, max_val);
        work
    } else {
        quick_sort(work)
    }
}

} // verus!
