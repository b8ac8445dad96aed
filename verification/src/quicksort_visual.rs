use vstd::prelude::*;
use crate::events::{
    apply_ops_keys, compose_stream_facts, emit_color, emit_compare, emit_swap, emitted, no_done,
    ops_wf, Operation,
};
use crate::models::{key_seq, sorted_key_range, sorted_keys, SortBar, Tag};
use crate::seq_facts::{
    lemma_key_seq_swap, lemma_middle_multiset, lemma_multiset_all, lemma_points_eq_from_skip,
    lemma_points_eq_from_take, lemma_skip_more, lemma_swap_to_multiset, lemma_take_less, swap_seq,
};
use crate::sort_utils::push_keeps_stream_facts;

verus! {

/// Partitions `bars[lo..hi]` around its last key: afterwards the keys
/// before the returned index are strictly smaller, those after it at
/// least as large.
fn partition_visual(bars: &mut Vec<SortBar>, lo: usize, hi: usize, ops: &mut Vec<Operation>) -> (pi:
    usize)
    requires
        lo < hi <= old(bars)@.len(),
    ensures
        lo <= pi < hi,
        final(bars)@.len() == old(bars)@.len(),
        final(bars)@.take(lo as int) == old(bars)@.take(lo as int),
        final(bars)@.skip(hi as int) == old(bars)@.skip(hi as int),
        final(bars)@.to_multiset() == old(bars)@.to_multiset(),
        forall|p: int|
            lo <= p < pi ==> (#[trigger] final(bars)@[p]).value < final(bars)@[pi as int].value,
        forall|p: int|
            pi < p < hi ==> (#[trigger] final(bars)@[p]).value >= final(bars)@[pi as int].value,
        old(ops)@.is_prefix_of(final(ops)@),
        ops_wf(emitted(old(ops)@, final(ops)@), old(bars)@.len() as nat),
        no_done(emitted(old(ops)@, final(ops)@)),
        apply_ops_keys(key_seq(old(bars)@), emitted(old(ops)@, final(ops)@)) == key_seq(
            final(bars)@,
        ),
{
    let ghost init = bars@;
    let ghost ops0 = ops@;
    proof {
        assert(emitted(ops0, ops@) =~= Seq::<Operation>::empty());
        assert(ops0.is_prefix_of(ops@));
    }
    let pivot_value = bars[hi - 1].value;
    let mut i = lo;
    let mut j = lo;
    while j < hi - 1
        invariant
            lo <= i <= j <= hi - 1,
            lo < hi <= bars@.len(),
            bars@.len() == init.len(),
            bars@.take(lo as int) == init.take(lo as int),
            bars@.skip(hi as int) == init.skip(hi as int),
            bars@.to_multiset() == init.to_multiset(),
            bars@[hi - 1].value == pivot_value,
            forall|p: int| lo <= p < i ==> (#[trigger] bars@[p]).value < pivot_value,
            forall|p: int| i <= p < j ==> (#[trigger] bars@[p]).value >= pivot_value,
            ops0.is_prefix_of(ops@),
            ops_wf(emitted(ops0, ops@), init.len() as nat),
            no_done(emitted(ops0, ops@)),
            apply_ops_keys(key_seq(init), emitted(ops0, ops@)) == key_seq(bars@),
        decreases hi - 1 - j,
    {
        proof {
            push_keeps_stream_facts(
                init,
                ops0,
                ops@,
                Operation::Compare(j, (hi - 1) as usize),
                bars@,
            );
        }
        emit_compare(ops, j, hi - 1);
        if bars[j].value < pivot_value {
            let ghost pre = bars@;
            proof {
                push_keeps_stream_facts(init, ops0, ops@, Operation::Swap(i, j), bars@);
            }
            emit_swap(bars, ops, i, j);
            proof {
                assert(bars@ =~= swap_seq(pre, i as int, j as int));
                lemma_key_seq_swap(pre, i as int, j as int);
                assert(key_seq(bars@) =~= swap_seq(key_seq(pre), i as int, j as int));
                lemma_swap_to_multiset(pre, i as int, j as int);
                assert(bars@.take(lo as int) =~= pre.take(lo as int));
                assert(bars@.skip(hi as int) =~= pre.skip(hi as int));
            }
            i = i + 1;
        }
        proof {
            push_keeps_stream_facts(init, ops0, ops@, Operation::SetColor(j, Tag::white()), bars@);
        }
        emit_color(ops, j, Tag::white());
        j = j + 1;
    }
    let ghost pre = bars@;
    proof {
        push_keeps_stream_facts(init, ops0, ops@, Operation::Swap(i, (hi - 1) as usize), bars@);
    }
    emit_swap(bars, ops, i, hi - 1);
    proof {
        assert(bars@ =~= swap_seq(pre, i as int, hi as int - 1));
        lemma_key_seq_swap(pre, i as int, hi as int - 1);
        assert(key_seq(bars@) =~= swap_seq(key_seq(pre), i as int, hi as int - 1));
        lemma_swap_to_multiset(pre, i as int, hi as int - 1);
        assert(bars@.take(lo as int) =~= pre.take(lo as int));
        assert(bars@.skip(hi as int) =~= pre.skip(hi as int));
    }
    i
}

/// Recursive quicksort of `bars[lo..hi]`.
fn quick_sort_recursive(bars: &mut Vec<SortBar>, lo: usize, hi: usize, ops: &mut Vec<Operation>)
    requires
        lo <= hi <= old(bars)@.len(),
    ensures
        final(bars)@.len() == old(bars)@.len(),
        final(bars)@.take(lo as int) == old(bars)@.take(lo as int),
        final(bars)@.skip(hi as int) == old(bars)@.skip(hi as int),
        final(bars)@.to_multiset() == old(bars)@.to_multiset(),
        sorted_key_range(final(bars)@, lo as int, hi as int),
        old(ops)@.is_prefix_of(final(ops)@),
        ops_wf(emitted(old(ops)@, final(ops)@), old(bars)@.len() as nat),
        no_done(emitted(old(ops)@, final(ops)@)),
        apply_ops_keys(key_seq(old(bars)@), emitted(old(ops)@, final(ops)@)) == key_seq(
            final(bars)@,
        ),
    decreases hi - lo,
{
    let ghost init = bars@;
    let ghost ops0 = ops@;
    if hi - lo < 2 {
        proof {
            assert(emitted(ops0, ops@) =~= Seq::<Operation>::empty());
            assert(ops0.is_prefix_of(ops@));
        }
        return ;
    }
    let pi = partition_visual(bars, lo, hi, ops);
    let ghost b1 = bars@;
    let ghost o1 = ops@;
    let ghost pivot_key = b1[pi as int].value;
    quick_sort_recursive(bars, lo, pi, ops);
    let ghost b2 = bars@;
    let ghost o2 = ops@;
    proof {
        compose_stream_facts(init, ops0, o1, ops@, b1, bars@);
        lemma_points_eq_from_skip(b2, b1, pi as int);
        // the left span is still strictly below the pivot
        lemma_middle_multiset(b2, b1, lo as int, pi as int);
        lemma_multiset_all(
            b1.subrange(lo as int, pi as int),
            b2.subrange(lo as int, pi as int),
            |b: SortBar| b.value < pivot_key,
        );
        lemma_take_less(b2, b1, lo as int, lo as int);
        assert(b2.take(lo as int) =~= init.take(lo as int));
        lemma_skip_more(b1, init, hi as int, hi as int);
        assert(b2.skip(hi as int) =~= init.skip(hi as int)) by {
            lemma_skip_more(b2, b1, pi as int, hi as int);
        }
    }
    quick_sort_recursive(bars, pi + 1, hi, ops);
    let ghost b3 = bars@;
    let ghost o3 = ops@;
    proof {
        compose_stream_facts(init, ops0, o2, ops@, b2, bars@);
        lemma_points_eq_from_take(b3, b2, pi as int + 1);
        // the right span is still at least the pivot
        lemma_middle_multiset(b3, b2, pi as int + 1, hi as int);
        lemma_multiset_all(
            b2.subrange(pi as int + 1, hi as int),
            b3.subrange(pi as int + 1, hi as int),
            |b: SortBar| b.value >= pivot_key,
        );
        lemma_take_less(b3, b2, pi as int + 1, lo as int);
        assert(b3.take(lo as int) =~= init.take(lo as int));
        assert(b3.skip(hi as int) =~= init.skip(hi as int));
        // assemble sortedness of the whole span
        assert forall|p: int, q: int|
            lo <= p < q < hi && 0 <= p && q < b3.len() implies (#[trigger] b3[p]).value <= (
        #[trigger] b3[q]).value by {
            if p < pi {
                assert(b2.subrange(lo as int, pi as int)[p - lo] == b2[p]);
                assert(b3[p] == b2[p]);
                assert(b3[p].value < pivot_key);
            } else if p > pi {
                assert(b3.subrange(pi as int + 1, hi as int)[p - pi - 1] == b3[p]);
                assert(b3[p].value >= pivot_key);
            }
            if q < pi {
                assert(b2.subrange(lo as int, pi as int)[q - lo] == b2[q]);
                assert(b3[q] == b2[q]);
                assert(b3[q].value < pivot_key);
            } else if q > pi {
                assert(b3.subrange(pi as int + 1, hi as int)[q - pi - 1] == b3[q]);
                assert(b3[q].value >= pivot_key);
            }
            assert(b3[pi as int] == b2[pi as int]);
            assert(b2[pi as int] == b1[pi as int]);
        }
    }
}

/// Quicksort of the whole store, ending with a sweep of reset tags.
/// Long-distance swaps may reorder equal keys, so only the multiset of
/// elements is promised, not stability.
pub fn quick_sort_visual(bars: &mut Vec<SortBar>, ops: &mut Vec<Operation>)
    ensures
        final(bars)@.len() == old(bars)@.len(),
        sorted_keys(final(bars)@),
        final(bars)@.to_multiset() == old(bars)@.to_multiset(),
        old(ops)@.is_prefix_of(final(ops)@),
        ops_wf(emitted(old(ops)@, final(ops)@), old(bars)@.len() as nat),
        no_done(emitted(old(ops)@, final(ops)@)),
        apply_ops_keys(key_seq(old(bars)@), emitted(old(ops)@, final(ops)@)) == key_seq(
            final(bars)@,
        ),
{
    let ghost init = bars@;
    let ghost ops0 = ops@;
    let n = bars.len();
    quick_sort_recursive(bars, 0, n, ops);
    let mut i: usize = 0;
    while i < n
        invariant
            i <= n,
            n == bars@.len(),
            bars@.len() == init.len(),
            bars@.to_multiset() == init.to_multiset(),
            sorted_keys(bars@),
            ops0.is_prefix_of(ops@),
            ops_wf(emitted(ops0, ops@), init.len() as nat),
            no_done(emitted(ops0, ops@)),
            apply_ops_keys(key_seq(init), emitted(ops0, ops@)) == key_seq(bars@),
        decreases n - i,
    {
        proof {
            push_keeps_stream_facts(init, ops0, ops@, Operation::SetColor(i, Tag::white()), bars@);
        }
        emit_color(ops, i, Tag::white());
        i = i + 1;
    }
}

} // verus!
