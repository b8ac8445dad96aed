use vstd::prelude::*;
use crate::seq_facts::lemma_to_multiset_distributes_over_add;

verus! {

/// The arrangement `1, 2, ..., n`.
pub open spec fn one_to_n(n: nat) -> Seq<i32> {
    Seq::new(n, |i: int| (i + 1) as i32)
}

/// One pancake flip: the first `k` entries reversed, the rest untouched.
pub open spec fn flip(s: Seq<i32>, k: int) -> Seq<i32> {
    if 1 <= k <= s.len() {
        s.subrange(0, k).reverse() + s.skip(k)
    } else {
        s
    }
}

/// The arrangement after performing every recorded flip, oldest first.
pub open spec fn apply_flips(s: Seq<i32>, flips: Seq<i32>) -> Seq<i32>
    decreases flips.len(),
{
    if flips.len() == 0 {
        s
    } else {
        apply_flips(flip(s, flips.first() as int), flips.drop_first())
    }
}

proof fn lemma_apply_flips_push(s: Seq<i32>, flips: Seq<i32>, k: i32)
    ensures
        apply_flips(s, flips.push(k)) == flip(apply_flips(s, flips), k as int),
    decreases flips.len(),
{
    let fp = flips.push(k);
    if flips.len() == 0 {
        assert(fp.first() == k);
        assert(fp.drop_first() =~= Seq::<i32>::empty());
        assert(apply_flips(s, fp) == apply_flips(flip(s, k as int), fp.drop_first()));
        assert(apply_flips(flip(s, k as int), fp.drop_first()) == flip(s, k as int));
        assert(apply_flips(s, flips) == s);
    } else {
        assert(fp.drop_first() =~= flips.drop_first().push(k));
        assert(fp.first() == flips.first());
        assert(apply_flips(s, fp) == apply_flips(flip(s, flips.first() as int), fp.drop_first()));
        assert(apply_flips(s, flips) == apply_flips(
            flip(s, flips.first() as int),
            flips.drop_first(),
        ));
        lemma_apply_flips_push(flip(s, flips.first() as int), flips.drop_first(), k);
    }
}

proof fn lemma_flip_multiset(s: Seq<i32>, k: int)
    ensures
        flip(s, k).to_multiset() == s.to_multiset(),
{
    broadcast use vstd::multiset::group_multiset_axioms;
    broadcast use lemma_to_multiset_distributes_over_add;

    if 1 <= k <= s.len() {
        s.subrange(0, k).lemma_reverse_to_multiset();
        assert(s =~= s.subrange(0, k) + s.skip(k));
        assert(flip(s, k).to_multiset() =~= s.to_multiset());
    }
}

/// Finds an index holding the value `x`.
fn find_value(arr: &Vec<i32>, x: i32) -> (f: usize)
    requires
        arr@.contains(x),
    ensures
        f < arr@.len(),
        arr@[f as int] == x,
{
    let mut f: usize = 0;
    while f < arr.len()
        invariant
            f <= arr@.len(),
            arr@.contains(x),
            forall|p: int| 0 <= p < f ==> arr@[p] != x,
        decreases arr@.len() - f,
    {
        if arr[f] == x {
            return f;
        }
        f = f + 1;
    }
    proof {
        let w = choose|w: int| 0 <= w < arr@.len() && arr@[w] == x;
        assert(false);
    }
    0
}

/// Reverses `arr[0..k]` in place.
fn flip_prefix(arr: &mut Vec<i32>, k: usize)
    requires
        1 <= k <= old(arr)@.len(),
    ensures
        final(arr)@ == flip(old(arr)@, k as int),
{
    let mut l: usize = 0;
    let mut r = k - 1;
    while l < r
        invariant
            l + r == k - 1,
            r < k <= arr@.len(),
            arr@.len() == old(arr)@.len(),
            forall|p: int| 0 <= p < l ==> #[trigger] arr@[p] == old(arr)@[k - 1 - p],
            forall|p: int| r < p < k ==> #[trigger] arr@[p] == old(arr)@[k - 1 - p],
            forall|p: int| l <= p <= r ==> #[trigger] arr@[p] == old(arr)@[p],
            forall|p: int| k <= p < arr@.len() ==> #[trigger] arr@[p] == old(arr)@[p],
        decreases r,
    {
        let a = arr[l];
        let b = arr[r];
        arr.set(l, b);
        arr.set(r, a);
        l = l + 1;
        r = r - 1;
    }
    proof {
        assert forall|p: int| 0 <= p < arr@.len() implies #[trigger] arr@[p] == flip(
            old(arr)@,
            k as int,
        )[p] by {
            if p < k {
                if l <= p <= r {
                    assert(p == l);
                }
                assert(flip(old(arr)@, k as int)[p] == old(arr)@[k - 1 - p]);
            } else {
                assert(flip(old(arr)@, k as int)[p] == old(arr)@[p]);
            }
        }
        assert(arr@ =~= flip(old(arr)@, k as int));
    }
}

/// Pancake sort over a permutation of `1..=n`: the result is not the
/// sorted store but the list of prefix-flip sizes that sorts it.
/// Performing the recorded flips in order turns the input into
/// `1, 2, ..., n`.
pub fn pancake_sort(arr: Vec<i32>) -> (r: Vec<i32>)
    requires
        arr@.to_multiset() == one_to_n(arr@.len() as nat).to_multiset(),
        arr@.len() <= i32::MAX,
    ensures
        forall|t: int| 0 <= t < r@.len() ==> 1 <= #[trigger] r@[t] <= arr@.len(),
        apply_flips(arr@, r@) == one_to_n(arr@.len() as nat),
{
    broadcast use vstd::seq_lib::group_to_multiset_ensures;

    let mut work = arr;
    let ghost init = work@;
    let n = work.len();
    let mut ans: Vec<i32> = Vec::new();
    let mut j: usize = n;
    proof {
        assert(apply_flips(init, ans@) == init);
    }
    while j > 0
        invariant
            j <= n,
            n == work@.len(),
            n == init.len(),
            n <= i32::MAX,
            work@ == apply_flips(init, ans@),
            work@.to_multiset() == one_to_n(n as nat).to_multiset(),
            forall|p: int| j <= p < n ==> #[trigger] work@[p] == p + 1,
            forall|t: int| 0 <= t < ans@.len() ==> 1 <= #[trigger] ans@[t] <= n,
        decreases j,
    {
        proof {
            broadcast use vstd::seq_lib::group_to_multiset_ensures;

            assert(work@.contains(j as i32)) by {
                assert(one_to_n(n as nat)[j - 1] == j as i32);
                assert(one_to_n(n as nat).contains(j as i32));
                assert(one_to_n(n as nat).to_multiset().count(j as i32) > 0);
                assert(work@.to_multiset().count(j as i32) > 0);
            }
        }
        let f = find_value(&work, j as i32);
        proof {
            assert(f < j) by {
                if f >= j {
                    assert(work@[f as int] == f + 1);
                }
            }
        }
        if f != j - 1 {
            let ghost pre = work@;
            let ghost pre_ans = ans@;
            ans.push((f + 1) as i32);
            ans.push(j as i32);
            flip_prefix(&mut work, f + 1);
            let ghost mid = work@;
            flip_prefix(&mut work, j);
            proof {
                broadcast use vstd::seq_lib::group_to_multiset_ensures;

                lemma_apply_flips_push(init, pre_ans, (f + 1) as i32);
                lemma_apply_flips_push(init, pre_ans.push((f + 1) as i32), j as i32);
                assert(ans@ =~= pre_ans.push((f + 1) as i32).push(j as i32));
                assert(work@ == apply_flips(init, ans@));
                lemma_flip_multiset(pre, f + 1);
                lemma_flip_multiset(mid, j as int);
                // the value j now leads the prefix, then lands at j - 1
                assert(mid[0] == pre[f as int]);
                assert(work@[j - 1] == mid[0]);
                assert forall|p: int| j - 1 <= p < n implies #[trigger] work@[p] == p + 1 by {
                    if p >= j {
                        assert(mid[p] == pre[p]);
                        assert(work@[p] == mid[p]);
                    }
                }
            }
        }
        j = j - 1;
    }
    proof {
        assert(work@ =~= one_to_n(n as nat));
    }
    ans
}

} // verus!
