use vstd::prelude::*;
use vstd::multiset::Multiset;
use crate::events::{
    apply_ops_keys, emit_color, emit_overwrite, emitted, no_done, ops_wf, Operation,
};
use crate::models::{key_seq, sorted_keys, SortBar, Tag};
use crate::seq_facts::lemma_key_seq_update;
use crate::sort_utils::push_keeps_stream_facts;

verus! {

/// The largest key a store may hold before the counting strategy backs
/// off: a guard against absurd tally tables.
pub const MAX_SAFE_SIZE: usize = 10000;

/// The number of keys of `m` below `k`.
spec fn key_tally(m: Multiset<usize>, k: nat) -> int
    decreases k,
{
    if k == 0 {
        0
    } else {
        key_tally(m, (k - 1) as nat) + m.count((k - 1) as usize)
    }
}

proof fn lemma_key_tally_mono(m: Multiset<usize>, k1: nat, k2: nat)
    requires
        k1 <= k2,
    ensures
        key_tally(m, k1) <= key_tally(m, k2),
    decreases k2,
{
    if k1 < k2 {
        lemma_key_tally_mono(m, k1, (k2 - 1) as nat);
    }
}

proof fn lemma_key_tally_outside(m: Multiset<usize>, k: nat, x: usize)
    requires
        x >= k,
    ensures
        key_tally(m.insert(x), k) == key_tally(m, k),
    decreases k,
{
    broadcast use vstd::multiset::group_multiset_axioms;

    if k > 0 {
        lemma_key_tally_outside(m, (k - 1) as nat, x);
    }
}

proof fn lemma_key_tally_insert(m: Multiset<usize>, k: nat, x: usize)
    requires
        x < k,
        k <= usize::MAX + 1,
    ensures
        key_tally(m.insert(x), k) == key_tally(m, k) + 1,
    decreases k,
{
    broadcast use vstd::multiset::group_multiset_axioms;

    if x == (k - 1) as usize {
        lemma_key_tally_outside(m, (k - 1) as nat, x);
    } else {
        lemma_key_tally_insert(m, (k - 1) as nat, x);
    }
}

proof fn lemma_key_tally_empty(k: nat)
    ensures
        key_tally(Multiset::<usize>::empty(), k) == 0,
    decreases k,
{
    broadcast use vstd::multiset::group_multiset_axioms;

    if k > 0 {
        lemma_key_tally_empty((k - 1) as nat);
    }
}

/// A key sequence bounded by `k` has as many entries as its per-key
/// counts below `k`.
proof fn lemma_key_tally_total(s: Seq<usize>, k: nat)
    requires
        forall|i: int| 0 <= i < s.len() ==> (#[trigger] s[i]) < k,
        k <= usize::MAX + 1,
    ensures
        key_tally(s.to_multiset(), k) == s.len(),
    decreases s.len(),
{
    broadcast use vstd::seq_lib::group_to_multiset_ensures;

    if s.len() == 0 {
        assert(s.to_multiset() =~= Multiset::<usize>::empty());
        lemma_key_tally_empty(k);
    } else {
        let d = s.drop_last();
        assert(s =~= d.push(s.last()));
        lemma_key_tally_total(d, k);
        assert(s.to_multiset() == d.to_multiset().insert(s.last()));
        lemma_key_tally_insert(d.to_multiset(), k, s.last());
    }
}

/// Counting sort over the keys, recording one `Overwrite` per placement.
/// If any key exceeds the safe tally bound the store is left untouched
/// after a sweep of reset tags, exactly as the guard demands; otherwise
/// the keys end sorted, none created or dropped, tags staying with
/// their positions.
#[verifier::rlimit(100)]
#[verifier::spinoff_prover]
pub fn counting_sort_visual(bars: &mut Vec<SortBar>, ops: &mut Vec<Operation>)
    ensures
        final(bars)@.len() == old(bars)@.len(),
        (forall|i: int| 0 <= i < old(bars)@.len() ==> (#[trigger] old(bars)@[i]).value
            <= MAX_SAFE_SIZE) ==> sorted_keys(final(bars)@) && key_seq(final(bars)@).to_multiset()
            == key_seq(old(bars)@).to_multiset(),
        (exists|i: int|
            0 <= i < old(bars)@.len() && (#[trigger] old(bars)@[i]).value > MAX_SAFE_SIZE)
            ==> final(bars)@ == old(bars)@,
        old(ops)@.is_prefix_of(final(ops)@),
        ops_wf(emitted(old(ops)@, final(ops)@), old(bars)@.len() as nat),
        no_done(emitted(old(ops)@, final(ops)@)),
        apply_ops_keys(key_seq(old(bars)@), emitted(old(ops)@, final(ops)@)) == key_seq(
            final(bars)@,
        ),
{
    broadcast use vstd::multiset::group_multiset_axioms;
    broadcast use vstd::seq_lib::group_to_multiset_ensures;

    let ghost init = bars@;
    let ghost ops0 = ops@;
    proof {
        assert(emitted(ops0, ops@) =~= Seq::<Operation>::empty());
        assert(ops0.is_prefix_of(ops@));
    }
    let n = bars.len();
    if n <= 1 {
        return ;
    }
    // find the largest key
    let mut max_val: usize = 0;
    let mut i: usize = 0;
    while i < n
        invariant
            i <= n,
            n == bars@.len(),
            bars@ == init,
            forall|p: int| 0 <= p < i ==> (#[trigger] bars@[p]).value <= max_val,
            max_val == 0 || exists|p: int| 0 <= p < i && (#[trigger] bars@[p]).value == max_val,
        decreases n - i,
    {
        if bars[i].value > max_val {
            max_val = bars[i].value;
        }
        i = i + 1;
    }
    if max_val > MAX_SAFE_SIZE {
        // back off, repainting only
        let mut t: usize = 0;
        while t < n
            invariant
                t <= n,
                n == bars@.len(),
                bars@ == init,
                ops0.is_prefix_of(ops@),
                ops_wf(emitted(ops0, ops@), init.len() as nat),
                no_done(emitted(ops0, ops@)),
                apply_ops_keys(key_seq(init), emitted(ops0, ops@)) == key_seq(bars@),
            decreases n - t,
        {
            proof {
                push_keeps_stream_facts(
                    init,
                    ops0,
                    ops@,
                    Operation::SetColor(t, Tag::white()),
                    bars@,
                );
            }
            emit_color(ops, t, Tag::white());
            t = t + 1;
        }
        return ;
    }
    let ghost keys0 = key_seq(init);
    let ghost m0 = keys0.to_multiset();
    let range = max_val + 1;
    let mut count: Vec<usize> = vec![0; range];
    let mut i: usize = 0;
    while i < n
        invariant
            i <= n,
            n == bars@.len(),
            bars@ == init,
            keys0 == key_seq(init),
            count@.len() == range,
            range == max_val + 1,
            forall|p: int| 0 <= p < n ==> (#[trigger] init[p]).value <= max_val,
            forall|v: int| 0 <= v < range ==> (#[trigger] count@[v]) <= i,
            forall|v: int|
                0 <= v < range ==> (#[trigger] count@[v]) == keys0.take(
                    i as int,
                ).to_multiset().count(v as usize),
        decreases n - i,
    {
        let x = bars[i].value;
        let c = count[x];
        count.set(x, c + 1);
        proof {
            broadcast use vstd::multiset::group_multiset_axioms;
            broadcast use vstd::seq_lib::group_to_multiset_ensures;

            assert(keys0[i as int] == init[i as int].value);
            assert(keys0.take(i + 1) =~= keys0.take(i as int).push(keys0[i as int]));
            assert(keys0.take(i as int).push(keys0[i as int]).to_multiset() == keys0.take(
                i as int,
            ).to_multiset().insert(keys0[i as int]));
            assert forall|v: int| 0 <= v < range implies (#[trigger] count@[v]) == keys0.take(
                i + 1,
            ).to_multiset().count(v as usize) by {
                if v != x {
                    assert((v as usize) != keys0[i as int]);
                }
            }
        }
        i = i + 1;
    }
    proof {
        assert(keys0.take(n as int) =~= keys0);
        assert forall|p: int| 0 <= p < keys0.len() implies (#[trigger] keys0[p]) < range as nat by {
            assert(keys0[p] == init[p].value);
        }
        lemma_key_tally_total(keys0, range as nat);
    }
    // write the keys back in ascending order
    let mut index: usize = 0;
    let mut v: usize = 0;
    while v < range
        invariant
            v <= range,
            n == bars@.len(),
            bars@.len() == init.len(),
            count@.len() == range,
            range == max_val + 1,
            keys0 == key_seq(init),
            m0 == keys0.to_multiset(),
            key_tally(m0, range as nat) == n,
            forall|u: int| 0 <= u < range ==> (#[trigger] count@[u]) == m0.count(u as usize),
            index == key_tally(m0, v as nat),
            index <= n,
            forall|p: int| 0 <= p < index ==> (#[trigger] bars@[p]).value < v,
            forall|p: int, q: int|
                0 <= p < q < index ==> (#[trigger] bars@[p]).value <= (#[trigger] bars@[q]).value,
            forall|u: int|
                0 <= u < range ==> key_seq(bars@).take(index as int).to_multiset().count(
                    #[trigger] (u as usize),
                ) == (if u < v {
                    m0.count(u as usize) as int
                } else {
                    0
                }),
            ops0.is_prefix_of(ops@),
            ops_wf(emitted(ops0, ops@), init.len() as nat),
            no_done(emitted(ops0, ops@)),
            apply_ops_keys(key_seq(init), emitted(ops0, ops@)) == key_seq(bars@),
        decreases range - v,
    {
        let c = count[v];
        proof {
            lemma_key_tally_mono(m0, (v + 1) as nat, range as nat);
        }
        let mut w: usize = 0;
        while w < c
            invariant
                w <= c,
                n == bars@.len(),
                bars@.len() == init.len(),
                v < range,
                range == max_val + 1,
                keys0 == key_seq(init),
                m0 == keys0.to_multiset(),
                c == m0.count(v as usize),
                key_tally(m0, (v + 1) as nat) <= n,
                index == key_tally(m0, v as nat) + w,
                forall|p: int| 0 <= p < index ==> (#[trigger] bars@[p]).value <= v,
                forall|p: int, q: int|
                    0 <= p < q < index ==> (#[trigger] bars@[p]).value <= (
                    #[trigger] bars@[q]).value,
                forall|u: int|
                    0 <= u < range ==> key_seq(bars@).take(index as int).to_multiset().count(
                        #[trigger] (u as usize),
                    ) == (if u < v {
                        m0.count(u as usize) as int
                    } else if u == v {
                        w as int
                    } else {
                        0
                    }),
                ops0.is_prefix_of(ops@),
                ops_wf(emitted(ops0, ops@), init.len() as nat),
                no_done(emitted(ops0, ops@)),
                apply_ops_keys(key_seq(init), emitted(ops0, ops@)) == key_seq(bars@),
            decreases c - w,
        {
            proof {
                assert(index < n);
            }
            let ghost pre = bars@;
            let tag_here = bars[index].color;
            let b = SortBar { value: v, color: tag_here };
            proof {
                push_keeps_stream_facts(init, ops0, ops@, Operation::Overwrite(index, b), bars@);
            }
            emit_overwrite(bars, ops, index, b);
            proof {
                broadcast use vstd::multiset::group_multiset_axioms;
                broadcast use vstd::seq_lib::group_to_multiset_ensures;

                lemma_key_seq_update(pre, index as int, b);
                assert(key_seq(bars@) =~= key_seq(pre).update(index as int, v));
                assert(key_seq(bars@).take(index + 1) =~= key_seq(pre).take(index as int).push(v));
                assert(key_seq(pre).take(index as int).push(v).to_multiset() == key_seq(
                    pre,
                ).take(index as int).to_multiset().insert(v));
                assert(key_seq(pre).take(index as int) =~= key_seq(bars@).take(index as int));
                assert forall|u: int|
                    0 <= u < range implies key_seq(bars@).take(index + 1).to_multiset().count(
                    #[trigger] (u as usize),
                ) == (if u < v {
                    m0.count(u as usize) as int
                } else if u == v {
                    w + 1
                } else {
                    0
                }) by {
                    if u != v {
                        assert((u as usize) != v);
                    }
                }
            }
            index = index + 1;
            w = w + 1;
        }
        v = v + 1;
    }
    proof {
        assert(index == n) by {
            assert(index == key_tally(m0, range as nat));
        }
        assert(key_seq(bars@).take(n as int) =~= key_seq(bars@));
        assert(key_seq(bars@).to_multiset() =~= m0) by {
            assert forall|x: usize| key_seq(bars@).to_multiset().count(x) == m0.count(x) by {
                if x < range {
                    let u = x as int;
                    assert(key_seq(bars@).take(n as int).to_multiset().count(u as usize)
                        == m0.count(u as usize));
                } else {
                    assert(key_seq(bars@).to_multiset().count(x) == 0) by {
                        if key_seq(bars@).to_multiset().count(x) > 0 {
                            assert(key_seq(bars@).contains(x));
                            let q = choose|q: int|
                                0 <= q < key_seq(bars@).len() && key_seq(bars@)[q] == x;
                            assert(bars@[q].value < range);
                        }
                    }
                    assert(m0.count(x) == 0) by {
                        if m0.count(x) > 0 {
                            assert(keys0.contains(x));
                            let q = choose|q: int| 0 <= q < keys0.len() && keys0[q] == x;
                            assert(keys0[q] == init[q].value);
                            assert(init[q].value <= max_val);
                        }
                    }
                }
            }
        }
        assert(sorted_keys(bars@));
    }
}

} // verus!
