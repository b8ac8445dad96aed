use vstd::prelude::*;
use vstd::seq_lib::*;
use crate::events::{
    apply_ops_keys, compose_stream_facts, emit_compare, emit_overwrite, emit_swap, emitted,
    no_done, op_wf, ops_wf, Operation,
};
use crate::models::{
    key_class, key_seq, same_key_classes, sorted_key_range, sorted_keys, SortBar,
};
use crate::seq_facts::{
    lemma_class_push_left, lemma_class_push_right, lemma_key_seq_swap, lemma_key_seq_update,
    lemma_same_classes_to_multiset, lemma_same_classes_trans, lemma_skip_more,
    lemma_swap_preserves_classes, lemma_to_multiset_distributes_over_add, swap_seq,
};
use crate::sort_utils::{insertion_sort_range_visual, push_keeps_stream_facts};

verus! {

/// The minimum run length for a store of `n` elements: `n` itself when
/// `n` is small, otherwise a value between 32 and 64 chosen so that
/// `n / min_run` is close to a power of two.
pub fn compute_min_run(n: usize) -> (r: usize)
    ensures
        n < 64 ==> r == n,
        n >= 64 ==> 32 <= r <= 64,
        n >= 1 ==> r >= 1,
{
    let mut m = n;
    let mut r: usize = 0;
    while m >= 64
        invariant
            r <= 1,
            m <= n,
            n < 64 ==> m == n && r == 0,
            n >= 64 ==> m >= 32,
        decreases m,
    {
        if m % 2 == 1 {
            r = 1;
        }
        m = m / 2;
    }
    m + r
}

/// Merges the adjacent sorted spans `bars[left..mid]` and
/// `bars[mid..right]` into one sorted span, stably: every key class of
/// the store is preserved, so equal keys keep their relative order and
/// the left span wins ties.  One `Compare` is recorded per comparison
/// and one `Overwrite` per placement.
pub fn stable_merge(
    bars: &mut Vec<SortBar>,
    left: usize,
    mid: usize,
    right: usize,
    ops: &mut Vec<Operation>,
)
    requires
        left <= mid <= right <= old(bars)@.len(),
        sorted_key_range(old(bars)@, left as int, mid as int),
        sorted_key_range(old(bars)@, mid as int, right as int),
    ensures
        final(bars)@.len() == old(bars)@.len(),
        final(bars)@.take(left as int) == old(bars)@.take(left as int),
        final(bars)@.skip(right as int) == old(bars)@.skip(right as int),
        same_key_classes(final(bars)@, old(bars)@),
        final(bars)@.to_multiset() == old(bars)@.to_multiset(),
        sorted_key_range(final(bars)@, left as int, right as int),
        old(ops)@.is_prefix_of(final(ops)@),
        ops_wf(emitted(old(ops)@, final(ops)@), old(bars)@.len() as nat),
        no_done(emitted(old(ops)@, final(ops)@)),
        apply_ops_keys(key_seq(old(bars)@), emitted(old(ops)@, final(ops)@)) == key_seq(
            final(bars)@,
        ),
{
    broadcast use Seq::lemma_filter_push;
    broadcast use Seq::filter_distributes_over_add;

    let ghost init = bars@;
    let ghost ops0 = ops@;
    let llen = mid - left;
    let rlen = right - mid;
    // Snapshot both spans.
    let mut lbuf: Vec<SortBar> = Vec::new();
    let mut t = left;
    while t < mid
        invariant
            left <= t <= mid <= bars@.len(),
            bars@ == init,
            lbuf@ == init.subrange(left as int, t as int),
        decreases mid - t,
    {
        let b = bars[t];
        lbuf.push(b);
        proof {
            assert(lbuf@ =~= init.subrange(left as int, t + 1));
        }
        t = t + 1;
    }
    let mut rbuf: Vec<SortBar> = Vec::new();
    let mut u = mid;
    while u < right
        invariant
            mid <= u <= right <= bars@.len(),
            bars@ == init,
            rbuf@ == init.subrange(mid as int, u as int),
        decreases right - u,
    {
        let b = bars[u];
        rbuf.push(b);
        proof {
            assert(rbuf@ =~= init.subrange(mid as int, u + 1));
        }
        u = u + 1;
    }
    let ghost lsnap = lbuf@;
    let ghost rsnap = rbuf@;
    proof {
        assert(lsnap.len() == llen && rsnap.len() == rlen);
    }

    let mut i: usize = 0;
    let mut j: usize = 0;
    let mut k = left;
    while i < llen || j < rlen
        invariant
            i <= llen,
            j <= rlen,
            k == left + i + j,
            llen == mid - left,
            rlen == right - mid,
            left <= mid <= right <= bars@.len(),
            bars@.len() == init.len(),
            lbuf@ == lsnap,
            rbuf@ == rsnap,
            lsnap == init.subrange(left as int, mid as int),
            rsnap == init.subrange(mid as int, right as int),
            sorted_key_range(init, left as int, mid as int),
            sorted_key_range(init, mid as int, right as int),
            bars@.take(left as int) == init.take(left as int),
            bars@.skip(k as int) == init.skip(k as int),
            // output so far is sorted and below both pending heads
            sorted_key_range(bars@, left as int, k as int),
            forall|p: int|
                left <= p < k && i < llen ==> bars@[p].value <= lsnap[i as int].value,
            forall|p: int|
                left <= p < k && j < rlen ==> bars@[p].value <= rsnap[j as int].value,
            // ties favour the left span: consumed right keys are strictly
            // below the pending left head
            forall|m: int| 0 <= m < j && i < llen ==> rsnap[m].value < lsnap[i as int].value,
            // stability: the output holds exactly the consumed prefixes,
            // class by class
            forall|c: usize|
                #[trigger] key_class(bars@.subrange(left as int, k as int), c) == key_class(
                    lsnap.take(i as int),
                    c,
                ) + key_class(rsnap.take(j as int), c),
            // event stream
            ops0.is_prefix_of(ops@),
            ops_wf(emitted(ops0, ops@), init.len() as nat),
            no_done(emitted(ops0, ops@)),
            apply_ops_keys(key_seq(init), emitted(ops0, ops@)) == key_seq(bars@),
        decreases llen + rlen - i - j,
    {
        let ghost pre = bars@;
        let take_left: bool;
        if i < llen && j < rlen {
            proof {
                push_keeps_stream_facts(
                    init,
                    ops0,
                    ops@,
                    Operation::Compare((left + i) as usize, (mid + j) as usize),
                    bars@,
                );
            }
            emit_compare(ops, left + i, mid + j);
            take_left = lbuf[i].value <= rbuf[j].value;
        } else {
            take_left = i < llen;
        }
        if take_left {
            let b = lbuf[i];
            proof {
                push_keeps_stream_facts(init, ops0, ops@, Operation::Overwrite(k, b), bars@);
            }
            emit_overwrite(bars, ops, k, b);
            proof {
                lemma_key_seq_update(pre, k as int, b);
                assert(key_seq(bars@) =~= key_seq(pre).update(k as int, b.value as usize));
                assert(bars@.take(left as int) =~= pre.take(left as int));
                assert(bars@.skip(k + 1) =~= pre.skip(k + 1));
                lemma_skip_more(pre, init, k as int, k + 1);
                assert(bars@.subrange(left as int, k + 1) =~= pre.subrange(
                    left as int,
                    k as int,
                ).push(b));
                assert(lsnap.take(i + 1) =~= lsnap.take(i as int).push(b));
                lemma_class_push_left(
                    pre.subrange(left as int, k as int),
                    lsnap.take(i as int),
                    rsnap.take(j as int),
                    b,
                );
            }
            i = i + 1;
        } else {
            let b = rbuf[j];
            proof {
                push_keeps_stream_facts(init, ops0, ops@, Operation::Overwrite(k, b), bars@);
            }
            emit_overwrite(bars, ops, k, b);
            proof {
                lemma_key_seq_update(pre, k as int, b);
                assert(key_seq(bars@) =~= key_seq(pre).update(k as int, b.value as usize));
                assert(bars@.take(left as int) =~= pre.take(left as int));
                assert(bars@.skip(k + 1) =~= pre.skip(k + 1));
                lemma_skip_more(pre, init, k as int, k + 1);
                assert(bars@.subrange(left as int, k + 1) =~= pre.subrange(
                    left as int,
                    k as int,
                ).push(b));
                assert(rsnap.take(j + 1) =~= rsnap.take(j as int).push(b));
                lemma_class_push_right(
                    pre.subrange(left as int, k as int),
                    lsnap.take(i as int),
                    rsnap.take(j as int),
                    b,
                );
            }
            j = j + 1;
        }
        k = k + 1;
    }
    proof {
        assert(k == right);
        assert(lsnap.take(llen as int) =~= lsnap);
        assert(rsnap.take(rlen as int) =~= rsnap);
        // global classes: outside parts unchanged, the merged region holds
        // the classes of the two spans
        assert(same_key_classes(bars@, init)) by {
            assert forall|c: usize| #[trigger] key_class(bars@, c) == key_class(init, c) by {
                let p = |e: SortBar| e.value == c;
                assert(bars@ =~= bars@.take(left as int) + bars@.subrange(
                    left as int,
                    right as int,
                ) + bars@.skip(right as int));
                assert(init =~= init.take(left as int) + lsnap + rsnap + init.skip(right as int));
                assert(key_class(bars@.subrange(left as int, right as int), c) == key_class(
                    lsnap,
                    c,
                ) + key_class(rsnap, c));
                assert(bars@.skip(right as int) =~= init.skip(right as int));
                assert((bars@.take(left as int) + bars@.subrange(left as int, right as int)
                    + bars@.skip(right as int)).filter(p) == (init.take(left as int) + (lsnap
                    + rsnap) + init.skip(right as int)).filter(p)) by {
                    assert((lsnap + rsnap).filter(p) == lsnap.filter(p) + rsnap.filter(p));
                    assert(bars@.take(left as int).filter(p) == init.take(left as int).filter(p));
                }
                assert(init.take(left as int) + (lsnap + rsnap) + init.skip(right as int) =~= init);
            }
        }
        lemma_same_classes_to_multiset(bars@, init);
        assert(bars@.skip(right as int) =~= init.skip(right as int));
    }
}

/// Length of a pending run.
pub open spec fn run_len(r: (usize, usize)) -> int {
    r.1 - r.0
}

/// Run `t` ends where run `t + 1` begins.
pub open spec fn adjacent_at(runs: Seq<(usize, usize)>, t: int) -> bool {
    runs[t].1 == runs[t + 1].0
}

/// Run `t` is longer than run `t + 1`.
pub open spec fn pair_ok(runs: Seq<(usize, usize)>, t: int) -> bool {
    run_len(runs[t]) > run_len(runs[t + 1])
}

/// Run `t` is longer than runs `t + 1` and `t + 2` together.
pub open spec fn triple_ok(runs: Seq<(usize, usize)>, t: int) -> bool {
    run_len(runs[t]) > run_len(runs[t + 1]) + run_len(runs[t + 2])
}

/// The pending runs tile the scanned prefix `[0, scanned)` of a store of
/// `n` elements: non-empty, adjacent, oldest first.
pub open spec fn runs_chain(runs: Seq<(usize, usize)>, scanned: int, n: int) -> bool {
    &&& (runs.len() == 0 ==> scanned == 0)
    &&& (runs.len() > 0 ==> runs[0].0 == 0 && runs[runs.len() - 1].1 == scanned)
    &&& (forall|t: int| 0 <= t < runs.len() ==> (#[trigger] runs[t]).0 < runs[t].1 <= n)
    &&& (forall|t: int| 0 <= t < runs.len() - 1 ==> #[trigger] adjacent_at(runs, t))
}

/// Every pending run is a sorted span of the store.
pub open spec fn runs_sorted(runs: Seq<(usize, usize)>, s: Seq<SortBar>) -> bool {
    forall|t: int|
        0 <= t < runs.len() ==> sorted_key_range(
            s,
            (#[trigger] runs[t]).0 as int,
            runs[t].1 as int,
        )
}

/// The merge discipline over the pending-run stack: every run is longer
/// than the one after it, and longer than the next two together.  While
/// this holds the stack stays logarithmic in the store length.
pub open spec fn merge_invariant(runs: Seq<(usize, usize)>) -> bool {
    &&& (forall|t: int| 0 <= t && t + 1 < runs.len() ==> #[trigger] pair_ok(runs, t))
    &&& (forall|t: int| 0 <= t && t + 2 < runs.len() ==> #[trigger] triple_ok(runs, t))
}

/// In a chain, earlier runs end no later than later runs begin.
proof fn lemma_chain_ordered(runs: Seq<(usize, usize)>, scanned: int, n: int, t: int, u: int)
    requires
        runs_chain(runs, scanned, n),
        0 <= t < u < runs.len(),
    ensures
        runs[t].1 <= runs[u].0,
    decreases u - t,
{
    assert(adjacent_at(runs, t));
    if t + 1 < u {
        assert(runs[t + 1].0 < runs[t + 1].1);
        lemma_chain_ordered(runs, scanned, n, t + 1, u);
    }
}

/// In a chain, every run ends within the scanned prefix.
proof fn lemma_chain_bounded(runs: Seq<(usize, usize)>, scanned: int, n: int, t: int)
    requires
        runs_chain(runs, scanned, n),
        0 <= t < runs.len(),
    ensures
        runs[t].1 <= scanned,
{
    if t < runs.len() - 1 {
        lemma_chain_ordered(runs, scanned, n, t, runs.len() - 1);
        assert(runs[runs.len() - 1].0 < runs[runs.len() - 1].1);
    }
}

/// Scans the pending runs for a violation of the merge discipline.
/// `None` means the discipline holds everywhere.
fn find_violation(
    runs: &Vec<(usize, usize)>,
    Ghost(scanned): Ghost<int>,
    Ghost(n): Ghost<int>,
) -> (r: Option<usize>)
    requires
        runs_chain(runs@, scanned, n),
        n <= usize::MAX,
    ensures
        match r {
            Option::None => merge_invariant(runs@),
            Option::Some(v) => v + 1 < runs@.len(),
        },
{
    let m = runs.len();
    let mut t: usize = 0;
    while t < m
        invariant
            t <= m,
            m == runs@.len(),
            runs_chain(runs@, scanned, n),
            n <= usize::MAX,
            forall|u: int| 0 <= u < t && u + 1 < m ==> #[trigger] pair_ok(runs@, u),
            forall|u: int| 0 <= u < t && u + 2 < m ==> #[trigger] triple_ok(runs@, u),
        decreases m - t,
    {
        if t + 1 < m {
            let lt = runs[t].1 - runs[t].0;
            let lu = runs[t + 1].1 - runs[t + 1].0;
            if lt <= lu {
                return Option::Some(t);
            }
            proof {
                assert(pair_ok(runs@, t as int));
            }
            if t + 2 < m {
                proof {
                    assert(adjacent_at(runs@, t as int + 1));
                    assert(runs@[t as int + 2].1 <= n);
                }
                let lv = runs[t + 2].1 - runs[t + 2].0;
                if lt <= lu + lv {
                    return Option::Some(t);
                }
                proof {
                    assert(triple_ok(runs@, t as int));
                }
            }
        }
        t = t + 1;
    }
    Option::None
}

/// After replacing pending runs `a` and `a + 1` by their union, the
/// stack still tiles the scanned prefix and every span is sorted.
proof fn lemma_merge_at_shape(
    pre_runs: Seq<(usize, usize)>,
    new_runs: Seq<(usize, usize)>,
    pre_bars: Seq<SortBar>,
    new_bars: Seq<SortBar>,
    a: int,
    scanned: int,
)
    requires
        runs_chain(pre_runs, scanned, pre_bars.len() as int),
        runs_sorted(pre_runs, pre_bars),
        0 <= a,
        a + 1 < pre_runs.len(),
        new_runs == pre_runs.take(a).push((pre_runs[a].0, pre_runs[a + 1].1)) + pre_runs.skip(
            a + 2,
        ),
        new_bars.len() == pre_bars.len(),
        new_bars.take(pre_runs[a].0 as int) == pre_bars.take(pre_runs[a].0 as int),
        new_bars.skip(pre_runs[a + 1].1 as int) == pre_bars.skip(pre_runs[a + 1].1 as int),
        sorted_key_range(new_bars, pre_runs[a].0 as int, pre_runs[a + 1].1 as int),
    ensures
        runs_chain(new_runs, scanned, pre_bars.len() as int),
        runs_sorted(new_runs, new_bars),
        pre_runs[a + 1].1 <= scanned,
{
    let lo = pre_runs[a].0;
    let hi = pre_runs[a + 1].1;
    assert(adjacent_at(pre_runs, a));
    assert(runs_chain(new_runs, scanned, pre_bars.len() as int)) by {
        assert forall|t: int| 0 <= t < new_runs.len() implies (#[trigger] new_runs[t]).0
            < new_runs[t].1 <= pre_bars.len() by {
            if t < a {
                assert(new_runs[t] == pre_runs[t]);
            } else if t > a {
                assert(new_runs[t] == pre_runs[t + 1]);
            } else {
                assert(pre_runs[a].0 < pre_runs[a].1);
                assert(pre_runs[a + 1].0 < pre_runs[a + 1].1);
            }
        }
        assert forall|t: int| 0 <= t < new_runs.len() - 1 implies #[trigger] adjacent_at(
            new_runs,
            t,
        ) by {
            if t < a - 1 {
                assert(new_runs[t] == pre_runs[t]);
                assert(new_runs[t + 1] == pre_runs[t + 1]);
                assert(adjacent_at(pre_runs, t));
            } else if t == a - 1 {
                assert(new_runs[t] == pre_runs[t]);
                assert(adjacent_at(pre_runs, a - 1));
            } else if t == a {
                assert(new_runs[t + 1] == pre_runs[t + 2]);
                assert(adjacent_at(pre_runs, a + 1));
            } else {
                assert(new_runs[t] == pre_runs[t + 1]);
                assert(new_runs[t + 1] == pre_runs[t + 2]);
                assert(adjacent_at(pre_runs, t + 1));
            }
        }
        if new_runs.len() > 0 {
            if a != 0 {
                assert(new_runs[0] == pre_runs[0]);
            }
            if a + 1 == pre_runs.len() - 1 {
                assert(new_runs[new_runs.len() - 1] == new_runs[a]);
            } else {
                assert(new_runs[new_runs.len() - 1] == pre_runs[pre_runs.len() - 1]);
            }
        }
    }
    assert(runs_sorted(new_runs, new_bars)) by {
        assert forall|t: int| 0 <= t < new_runs.len() implies sorted_key_range(
            new_bars,
            (#[trigger] new_runs[t]).0 as int,
            new_runs[t].1 as int,
        ) by {
            if t < a {
                assert(new_runs[t] == pre_runs[t]);
                lemma_chain_ordered(pre_runs, scanned, pre_bars.len() as int, t, a);
                assert forall|x: int| new_runs[t].0 <= x < new_runs[t].1 implies new_bars[x]
                    == pre_bars[x] by {
                    assert(new_bars.take(lo as int)[x] == pre_bars.take(lo as int)[x]);
                }
            } else if t > a {
                assert(new_runs[t] == pre_runs[t + 1]);
                lemma_chain_ordered(pre_runs, scanned, pre_bars.len() as int, a + 1, t + 1);
                assert forall|x: int| new_runs[t].0 <= x < new_runs[t].1 implies new_bars[x]
                    == pre_bars[x] by {
                    assert(new_bars.skip(hi as int)[x - hi] == pre_bars.skip(hi as int)[x - hi]);
                }
            }
        }
    }
    lemma_chain_bounded(pre_runs, scanned, pre_bars.len() as int, a + 1);
}

/// Merges the adjacent pending runs `a` and `a + 1`, replacing the two
/// stack entries by one.
fn merge_at(
    bars: &mut Vec<SortBar>,
    runs: &mut Vec<(usize, usize)>,
    ops: &mut Vec<Operation>,
    a: usize,
    Ghost(scanned): Ghost<int>,
)
    requires
        runs_chain(old(runs)@, scanned, old(bars)@.len() as int),
        runs_sorted(old(runs)@, old(bars)@),
        a + 1 < old(runs)@.len(),
    ensures
        final(bars)@.len() == old(bars)@.len(),
        final(runs)@.len() == old(runs)@.len() - 1,
        runs_chain(final(runs)@, scanned, old(bars)@.len() as int),
        runs_sorted(final(runs)@, final(bars)@),
        same_key_classes(final(bars)@, old(bars)@),
        final(bars)@.skip(scanned) == old(bars)@.skip(scanned),
        old(ops)@.is_prefix_of(final(ops)@),
        ops_wf(emitted(old(ops)@, final(ops)@), old(bars)@.len() as nat),
        no_done(emitted(old(ops)@, final(ops)@)),
        apply_ops_keys(key_seq(old(bars)@), emitted(old(ops)@, final(ops)@)) == key_seq(
            final(bars)@,
        ),
{
    let ghost init = bars@;
    let ghost pre_runs = runs@;
    let m = runs.len();
    let lo = runs[a].0;
    let md = runs[a].1;
    let hi = runs[a + 1].1;
    proof {
        assert(adjacent_at(pre_runs, a as int));
        assert(pre_runs[a as int].0 < pre_runs[a as int].1);
        assert(pre_runs[a as int + 1].0 < pre_runs[a as int + 1].1);
        assert(lo < md < hi <= init.len());
    }
    stable_merge(bars, lo, md, hi, ops);
    runs.set(a, (lo, hi));
    let _ = runs.remove(a + 1);
    proof {
        assert(runs@ =~= pre_runs.take(a as int).push((lo, hi)) + pre_runs.skip(a + 2));
        lemma_merge_at_shape(pre_runs, runs@, init, bars@, a as int, scanned);
        lemma_skip_more(bars@, init, hi as int, scanned);
    }
}

/// Restores the merge discipline after a push: while any violation
/// remains, merges the pair of adjacent runs that the discipline calls
/// for (the smaller outer neighbour first), replacing two pending runs
/// by one.
fn collapse_runs(
    bars: &mut Vec<SortBar>,
    runs: &mut Vec<(usize, usize)>,
    ops: &mut Vec<Operation>,
    Ghost(scanned): Ghost<int>,
)
    requires
        runs_chain(old(runs)@, scanned, old(bars)@.len() as int),
        runs_sorted(old(runs)@, old(bars)@),
    ensures
        final(bars)@.len() == old(bars)@.len(),
        runs_chain(final(runs)@, scanned, old(bars)@.len() as int),
        runs_sorted(final(runs)@, final(bars)@),
        merge_invariant(final(runs)@),
        same_key_classes(final(bars)@, old(bars)@),
        final(bars)@.to_multiset() == old(bars)@.to_multiset(),
        final(bars)@.skip(scanned) == old(bars)@.skip(scanned),
        old(ops)@.is_prefix_of(final(ops)@),
        ops_wf(emitted(old(ops)@, final(ops)@), old(bars)@.len() as nat),
        no_done(emitted(old(ops)@, final(ops)@)),
        apply_ops_keys(key_seq(old(bars)@), emitted(old(ops)@, final(ops)@)) == key_seq(
            final(bars)@,
        ),
{
    let ghost init = bars@;
    let ghost ops0 = ops@;
    let nb = bars.len();
    proof {
        assert(emitted(ops0, ops@) =~= Seq::<Operation>::empty());
        assert(ops0.is_prefix_of(ops@));
        if old(runs)@.len() > 0 {
            lemma_chain_bounded(old(runs)@, scanned, init.len() as int, 0);
            assert(old(runs)@[0].0 < old(runs)@[0].1);
            assert(old(runs)@[old(runs)@.len() - 1].1 == scanned);
            lemma_chain_bounded(
                old(runs)@,
                scanned,
                init.len() as int,
                old(runs)@.len() - 1,
            );
        }
        assert(0 <= scanned <= init.len());
    }
    let mut settled = false;
    while !settled
        invariant
            bars@.len() == init.len(),
            init.len() == nb,
            0 <= scanned <= init.len(),
            runs_chain(runs@, scanned, init.len() as int),
            runs_sorted(runs@, bars@),
            same_key_classes(bars@, init),
            bars@.skip(scanned) == init.skip(scanned),
            settled ==> merge_invariant(runs@),
            ops0.is_prefix_of(ops@),
            ops_wf(emitted(ops0, ops@), init.len() as nat),
            no_done(emitted(ops0, ops@)),
            apply_ops_keys(key_seq(init), emitted(ops0, ops@)) == key_seq(bars@),
        decreases runs@.len() + (if settled {
            0int
        } else {
            1int
        }),
    {
        let found = find_violation(runs, Ghost(scanned), Ghost(init.len() as int));
        match found {
            Option::None => {
                settled = true;
            },
            Option::Some(v) => {
                let a: usize;
                let m = runs.len();
                let lt = runs[v].1 - runs[v].0;
                if v + 2 < m {
                    proof {
                        assert(adjacent_at(runs@, v as int + 1));
                        assert(runs@[v as int + 2].1 <= init.len());
                    }
                    let lv = runs[v + 2].1 - runs[v + 2].0;
                    let lu = runs[v + 1].1 - runs[v + 1].0;
                    if lt <= lu + lv && lt >= lv {
                        a = v + 1;
                    } else {
                        a = v;
                    }
                } else {
                    a = v;
                }
                let ghost pre_bars = bars@;
                let ghost pre_ops = ops@;
                merge_at(bars, runs, ops, a, Ghost(scanned));
                proof {
                    lemma_same_classes_trans(bars@, pre_bars, init);
                    compose_stream_facts(init, ops0, pre_ops, ops@, pre_bars, bars@);
                }
            },
        }
    }
    proof {
        lemma_same_classes_to_multiset(bars@, init);
    }
}

/// Reverses `bars[lo..=hi]`, a span whose keys are strictly descending,
/// by exchanging outer pairs; one `Swap` is recorded per exchange so the
/// consumer sees the reversal.  Strict descent means no two elements of
/// the span share a key, so every key class is preserved.
fn reverse_span(bars: &mut Vec<SortBar>, lo: usize, hi: usize, ops: &mut Vec<Operation>)
    requires
        lo <= hi < old(bars)@.len(),
        forall|p: int, q: int|
            lo <= p < q <= hi ==> (#[trigger] old(bars)@[p]).value > (#[trigger] old(
                bars,
            )@[q]).value,
    ensures
        final(bars)@.len() == old(bars)@.len(),
        final(bars)@.take(lo as int) == old(bars)@.take(lo as int),
        final(bars)@.skip(hi as int + 1) == old(bars)@.skip(hi as int + 1),
        same_key_classes(final(bars)@, old(bars)@),
        sorted_key_range(final(bars)@, lo as int, hi as int + 1),
        old(ops)@.is_prefix_of(final(ops)@),
        ops_wf(emitted(old(ops)@, final(ops)@), old(bars)@.len() as nat),
        no_done(emitted(old(ops)@, final(ops)@)),
        apply_ops_keys(key_seq(old(bars)@), emitted(old(ops)@, final(ops)@)) == key_seq(
            final(bars)@,
        ),
{
    let ghost init = bars@;
    let ghost ops0 = ops@;
    proof {
        assert(emitted(ops0, ops@) =~= Seq::<Operation>::empty());
        assert(ops0.is_prefix_of(ops@));
    }
    let mut l = lo;
    let mut r = hi;
    while l < r
        invariant
            lo <= l,
            r <= hi < bars@.len(),
            l + r == lo + hi,
            bars@.len() == init.len(),
            bars@.take(lo as int) == init.take(lo as int),
            bars@.skip(hi as int + 1) == init.skip(hi as int + 1),
            same_key_classes(bars@, init),
            forall|p: int, q: int|
                lo <= p < q <= hi ==> (#[trigger] init[p]).value > (#[trigger] init[q]).value,
            forall|p: int| lo <= p < l ==> (#[trigger] bars@[p]) == init[lo + hi - p],
            forall|p: int| r < p <= hi ==> (#[trigger] bars@[p]) == init[lo + hi - p],
            forall|p: int| l <= p <= r ==> (#[trigger] bars@[p]) == init[p],
            ops0.is_prefix_of(ops@),
            ops_wf(emitted(ops0, ops@), init.len() as nat),
            no_done(emitted(ops0, ops@)),
            apply_ops_keys(key_seq(init), emitted(ops0, ops@)) == key_seq(bars@),
        decreases r,
    {
        let ghost pre = bars@;
        proof {
            push_keeps_stream_facts(init, ops0, ops@, Operation::Swap(l, r), bars@);
        }
        emit_swap(bars, ops, l, r);
        proof {
            assert(bars@ =~= swap_seq(pre, l as int, r as int));
            lemma_key_seq_swap(pre, l as int, r as int);
            assert(key_seq(bars@) =~= swap_seq(key_seq(pre), l as int, r as int));
            assert(pre[l as int] == init[l as int]);
            assert(pre[r as int] == init[r as int]);
            lemma_swap_preserves_classes(pre, l as int, r as int);
            lemma_same_classes_trans(bars@, pre, init);
            assert(bars@.take(lo as int) =~= pre.take(lo as int));
            assert(bars@.skip(hi as int + 1) =~= pre.skip(hi as int + 1));
        }
        l = l + 1;
        r = r - 1;
    }
    proof {
        assert forall|p: int| lo <= p <= hi implies (#[trigger] bars@[p]) == init[lo + hi
            - p] by {
            if l <= p <= r {
                assert(p == l);
            }
        }
        assert(sorted_key_range(bars@, lo as int, hi as int + 1));
    }
}

/// Pushing a freshly detected (or extended) run keeps the stack tiling
/// the scanned prefix, which now ends where the new run ends.
proof fn lemma_push_run_shape(
    pre_runs: Seq<(usize, usize)>,
    new_runs: Seq<(usize, usize)>,
    pre_bars: Seq<SortBar>,
    new_bars: Seq<SortBar>,
    r: (usize, usize),
    n: int,
)
    requires
        runs_chain(pre_runs, r.0 as int, n),
        runs_sorted(pre_runs, pre_bars),
        new_runs == pre_runs.push(r),
        r.0 < r.1 <= n,
        new_bars.len() == pre_bars.len(),
        pre_bars.len() == n,
        new_bars.take(r.0 as int) == pre_bars.take(r.0 as int),
        sorted_key_range(new_bars, r.0 as int, r.1 as int),
    ensures
        runs_chain(new_runs, r.1 as int, n),
        runs_sorted(new_runs, new_bars),
{
    let m = pre_runs.len() as int;
    assert(runs_chain(new_runs, r.1 as int, n)) by {
        assert forall|t: int| 0 <= t < new_runs.len() implies (#[trigger] new_runs[t]).0
            < new_runs[t].1 <= n by {
            if t < m {
                assert(new_runs[t] == pre_runs[t]);
            }
        }
        assert forall|t: int| 0 <= t < new_runs.len() - 1 implies #[trigger] adjacent_at(
            new_runs,
            t,
        ) by {
            if t < m - 1 {
                assert(new_runs[t] == pre_runs[t]);
                assert(new_runs[t + 1] == pre_runs[t + 1]);
                assert(adjacent_at(pre_runs, t));
            } else {
                assert(new_runs[t] == pre_runs[m - 1]);
                assert(new_runs[t + 1] == r);
                assert(pre_runs[m - 1].1 == r.0);
            }
        }
        if m > 0 {
            assert(new_runs[0] == pre_runs[0]);
        }
    }
    assert(runs_sorted(new_runs, new_bars)) by {
        assert forall|t: int| 0 <= t < new_runs.len() implies sorted_key_range(
            new_bars,
            (#[trigger] new_runs[t]).0 as int,
            new_runs[t].1 as int,
        ) by {
            if t < m {
                assert(new_runs[t] == pre_runs[t]);
                lemma_chain_bounded(pre_runs, r.0 as int, n, t);
                assert forall|x: int| new_runs[t].0 <= x < new_runs[t].1 implies new_bars[x]
                    == pre_bars[x] by {
                    assert(0 <= x);
                    assert(x < pre_runs[t].1);
                    assert(pre_runs[t].1 <= r.0);
                    assert(new_bars.take(r.0 as int)[x] == new_bars[x]);
                    assert(pre_bars.take(r.0 as int)[x] == pre_bars[x]);
                    assert(new_bars.take(r.0 as int)[x] == pre_bars.take(r.0 as int)[x]);
                }
            }
        }
    }
}

/// The adaptive hybrid sort: natural runs are detected left to right
/// (descending runs reversed in place), short runs are extended to the
/// minimum run length by bounded insertion sort when enough input
/// remains, completed runs are pushed onto the pending-run stack under
/// the merge discipline, and the drain phase merges what is left.  The
/// sort is stable: every key class of the store is preserved.
pub fn tim_sort(bars: &mut Vec<SortBar>, ops: &mut Vec<Operation>)
    ensures
        final(bars)@.len() == old(bars)@.len(),
        sorted_keys(final(bars)@),
        same_key_classes(final(bars)@, old(bars)@),
        final(bars)@.to_multiset() == old(bars)@.to_multiset(),
        old(ops)@.is_prefix_of(final(ops)@),
        ops_wf(emitted(old(ops)@, final(ops)@), old(bars)@.len() as nat),
        no_done(emitted(old(ops)@, final(ops)@)),
        apply_ops_keys(key_seq(old(bars)@), emitted(old(ops)@, final(ops)@)) == key_seq(
            final(bars)@,
        ),
{
    let ghost init = bars@;
    let ghost ops0 = ops@;
    let n = bars.len();
    proof {
        assert(emitted(ops0, ops@) =~= Seq::<Operation>::empty());
        assert(ops0.is_prefix_of(ops@));
    }
    if n <= 1 {
        return ;
    }
    let min_run = compute_min_run(n);
    let mut runs: Vec<(usize, usize)> = Vec::new();
    let mut i: usize = 0;
    while i < n
        invariant
            i <= n,
            n == bars@.len(),
            bars@.len() == init.len(),
            1 <= min_run <= n,
            runs_chain(runs@, i as int, n as int),
            runs_sorted(runs@, bars@),
            merge_invariant(runs@),
            same_key_classes(bars@, init),
            bars@.skip(i as int) == init.skip(i as int),
            ops0.is_prefix_of(ops@),
            ops_wf(emitted(ops0, ops@), init.len() as nat),
            no_done(emitted(ops0, ops@)),
            apply_ops_keys(key_seq(init), emitted(ops0, ops@)) == key_seq(bars@),
        decreases n - i,
    {
        let ghost iter_bars = bars@;
        let ghost iter_ops = ops@;
        let run_start = i;
        let run_end: usize;
        if i + 1 < n && bars[i].value <= bars[i + 1].value {
            // ascending natural run
            let mut e = i + 1;
            while e + 1 < n && bars[e].value <= bars[e + 1].value
                invariant
                    run_start < e < n,
                    n == bars@.len(),
                    bars@ == iter_bars,
                    forall|p: int, q: int|
                        run_start <= p < q <= e ==> (#[trigger] bars@[p]).value <= (
                        #[trigger] bars@[q]).value,
                decreases n - e,
            {
                e = e + 1;
            }
            run_end = e + 1;
        } else if i + 1 < n {
            // strictly descending natural run, reversed once detected
            let mut e = i + 1;
            while e + 1 < n && bars[e].value > bars[e + 1].value
                invariant
                    run_start < e < n,
                    n == bars@.len(),
                    bars@ == iter_bars,
                    forall|p: int, q: int|
                        run_start <= p < q <= e ==> (#[trigger] bars@[p]).value > (
                        #[trigger] bars@[q]).value,
                decreases n - e,
            {
                e = e + 1;
            }
            reverse_span(bars, run_start, e, ops);
            proof {
                lemma_same_classes_trans(bars@, iter_bars, init);
                compose_stream_facts(init, ops0, iter_ops, ops@, iter_bars, bars@);
            }
            run_end = e + 1;
        } else {
            run_end = i + 1;
        }
        proof {
            assert(sorted_key_range(bars@, run_start as int, run_end as int));
            assert(bars@.skip(run_end as int) == init.skip(run_end as int)) by {
                assert forall|x: int| 0 <= x < bars@.len() - run_end implies bars@.skip(
                    run_end as int,
                )[x] == init.skip(run_end as int)[x] by {
                    assert(bars@[run_end + x] == iter_bars[run_end + x]) by {
                        if i + 1 < n && run_end + x > run_start {
                            assert(bars@.skip(run_end as int)[x] == bars@[run_end + x]);
                        }
                    }
                    assert(iter_bars.skip(i as int)[run_end + x - i] == init.skip(
                        i as int,
                    )[run_end + x - i]);
                }
            }
            assert(bars@.take(run_start as int) == iter_bars.take(run_start as int));
            assert(runs_sorted(runs@, bars@)) by {
                assert forall|t: int| 0 <= t < runs@.len() implies sorted_key_range(
                    bars@,
                    (#[trigger] runs@[t]).0 as int,
                    runs@[t].1 as int,
                ) by {
                    lemma_chain_bounded(runs@, i as int, n as int, t);
                    assert forall|x: int| runs@[t].0 <= x < runs@[t].1 implies (
                    #[trigger] bars@[x]) == iter_bars[x] by {
                        assert(0 <= x);
                        assert(x < runs@[t].1);
                        assert(runs@[t].1 <= i);
                        assert(bars@.take(run_start as int)[x] == bars@[x]);
                        assert(iter_bars.take(run_start as int)[x] == iter_bars[x]);
                        assert(bars@.take(run_start as int)[x] == iter_bars.take(
                            run_start as int,
                        )[x]);
                    }
                }
            }
        }
        let ghost det_bars = bars@;
        let ghost det_ops = ops@;
        let final_end: usize;
        if run_end - run_start < min_run && n - run_start >= min_run {
            let extend_to = run_start + min_run;
            insertion_sort_range_visual(bars, run_start, extend_to, ops);
            proof {
                lemma_same_classes_trans(bars@, det_bars, init);
                compose_stream_facts(init, ops0, det_ops, ops@, det_bars, bars@);
            }
            final_end = extend_to;
        } else {
            final_end = run_end;
        }
        proof {
            assert(sorted_key_range(bars@, run_start as int, final_end as int));
            assert(bars@.skip(final_end as int) == init.skip(final_end as int)) by {
                if final_end != run_end {
                    lemma_skip_more(bars@, det_bars, final_end as int, final_end as int);
                    assert forall|x: int| 0 <= x < bars@.len() - final_end implies bars@.skip(
                        final_end as int,
                    )[x] == init.skip(final_end as int)[x] by {
                        assert(bars@.skip(final_end as int)[x] == det_bars.skip(
                            final_end as int,
                        )[x]);
                        assert(det_bars.skip(run_end as int)[final_end + x - run_end]
                            == init.skip(run_end as int)[final_end + x - run_end]);
                    }
                }
            }
            assert(runs_sorted(runs@, bars@)) by {
                assert forall|t: int| 0 <= t < runs@.len() implies sorted_key_range(
                    bars@,
                    (#[trigger] runs@[t]).0 as int,
                    runs@[t].1 as int,
                ) by {
                    lemma_chain_bounded(runs@, i as int, n as int, t);
                    assert forall|x: int| runs@[t].0 <= x < runs@[t].1 implies (
                    #[trigger] bars@[x]) == det_bars[x] by {
                        assert(0 <= x);
                        assert(x < runs@[t].1);
                        assert(runs@[t].1 <= i);
                        assert(bars@.take(run_start as int)[x] == bars@[x]);
                        assert(det_bars.take(run_start as int)[x] == det_bars[x]);
                        assert(bars@.take(run_start as int)[x] == det_bars.take(
                            run_start as int,
                        )[x]);
                    }
                }
            }
        }
        let ghost pre_push_runs = runs@;
        runs.push((run_start, final_end));
        proof {
            assert(runs@ =~= pre_push_runs.push((run_start, final_end)));
            lemma_push_run_shape(
                pre_push_runs,
                runs@,
                bars@,
                bars@,
                (run_start, final_end),
                n as int,
            );
        }
        let ghost pre_col_bars = bars@;
        let ghost pre_col_ops = ops@;
        collapse_runs(bars, &mut runs, ops, Ghost(final_end as int));
        proof {
            lemma_same_classes_trans(bars@, pre_col_bars, init);
            compose_stream_facts(init, ops0, pre_col_ops, ops@, pre_col_bars, bars@);
            assert(bars@.skip(final_end as int) == pre_col_bars.skip(final_end as int));
            assert(bars@.skip(final_end as int) =~= init.skip(final_end as int));
        }
        i = final_end;
    }
    // drain: merge the top two pending runs until one spans the store
    while runs.len() > 1
        invariant
            n == bars@.len(),
            bars@.len() == init.len(),
            runs_chain(runs@, n as int, n as int),
            runs_sorted(runs@, bars@),
            same_key_classes(bars@, init),
            ops0.is_prefix_of(ops@),
            ops_wf(emitted(ops0, ops@), init.len() as nat),
            no_done(emitted(ops0, ops@)),
            apply_ops_keys(key_seq(init), emitted(ops0, ops@)) == key_seq(bars@),
        decreases runs@.len(),
    {
        let a = runs.len() - 2;
        let ghost pre_bars = bars@;
        let ghost pre_ops = ops@;
        merge_at(bars, &mut runs, ops, a, Ghost(n as int));
        proof {
            lemma_same_classes_trans(bars@, pre_bars, init);
            compose_stream_facts(init, ops0, pre_ops, ops@, pre_bars, bars@);
        }
    }
    proof {
        assert(runs@.len() == 1);
        assert(runs@[0].0 == 0 && runs@[0].1 == n);
        assert(sorted_key_range(bars@, 0, n as int));
        assert(sorted_keys(bars@));
        lemma_same_classes_to_multiset(bars@, init);
    }
}

} // verus!
