use vstd::prelude::*;
use crate::events::{
    apply_ops_keys, compose_stream_facts, emit_color, emitted, no_done, ops_wf, Operation,
};
use crate::models::{key_seq, same_key_classes, sorted_key_range, sorted_keys, SortBar, Tag};
use crate::seq_facts::{
    lemma_points_eq_from_take, lemma_same_classes_to_multiset, lemma_same_classes_trans,
    lemma_skip_more, lemma_take_less,
};
use crate::sort_utils::push_keeps_stream_facts;
use crate::timsort::stable_merge;

verus! {

/// Recursive halves of the merge sort: sorts `bars[lo..hi]` stably.
fn merge_sort_recursive(bars: &mut Vec<SortBar>, lo: usize, hi: usize, ops: &mut Vec<Operation>)
    requires
        lo <= hi <= old(bars)@.len(),
    ensures
        final(bars)@.len() == old(bars)@.len(),
        final(bars)@.take(lo as int) == old(bars)@.take(lo as int),
        final(bars)@.skip(hi as int) == old(bars)@.skip(hi as int),
        same_key_classes(final(bars)@, old(bars)@),
        sorted_key_range(final(bars)@, lo as int, hi as int),
        old(ops)@.is_prefix_of(final(ops)@),
        ops_wf(emitted(old(ops)@, final(ops)@), old(bars)@.len() as nat),
        no_done(emitted(old(ops)@, final(ops)@)),
        apply_ops_keys(key_seq(old(bars)@), emitted(old(ops)@, final(ops)@)) == key_seq(
            final(bars)@,
        ),
    decreases hi - lo,
{
    let ghost init = bars@;
    let ghost ops0 = ops@;
    if hi - lo < 2 {
        proof {
            assert(emitted(ops0, ops@) =~= Seq::<Operation>::empty());
            assert(ops0.is_prefix_of(ops@));
        }
        return ;
    }
    let mid = lo + (hi - lo) / 2;
    merge_sort_recursive(bars, lo, mid, ops);
    let ghost b1 = bars@;
    let ghost o1 = ops@;
    merge_sort_recursive(bars, mid, hi, ops);
    let ghost b2 = bars@;
    let ghost o2 = ops@;
    proof {
        lemma_same_classes_trans(bars@, b1, init);
        compose_stream_facts(init, ops0, o1, ops@, b1, bars@);
        lemma_points_eq_from_take(b2, b1, mid as int);
        assert(sorted_key_range(b2, lo as int, mid as int));
        lemma_take_less(b2, b1, mid as int, lo as int);
        assert(b2.take(lo as int) =~= init.take(lo as int));
        lemma_skip_more(b1, init, mid as int, hi as int);
        assert(b2.skip(hi as int) =~= init.skip(hi as int));
    }
    stable_merge(bars, lo, mid, hi, ops);
    proof {
        lemma_same_classes_trans(bars@, b2, init);
        compose_stream_facts(init, ops0, o2, ops@, b2, bars@);
        assert(bars@.take(lo as int) =~= init.take(lo as int));
        assert(bars@.skip(hi as int) =~= init.skip(hi as int));
    }
}

/// Merge sort of the whole store, stably, ending with a sweep of reset
/// tags.
pub fn merge_sort_visual(bars: &mut Vec<SortBar>, ops: &mut Vec<Operation>)
    ensures
        final(bars)@.len() == old(bars)@.len(),
        sorted_keys(final(bars)@),
        same_key_classes(final(bars)@, old(bars)@),
        final(bars)@.to_multiset() == old(bars)@.to_multiset(),
        old(ops)@.is_prefix_of(final(ops)@),
        ops_wf(emitted(old(ops)@, final(ops)@), old(bars)@.len() as nat),
        no_done(emitted(old(ops)@, final(ops)@)),
        apply_ops_keys(key_seq(old(bars)@), emitted(old(ops)@, final(ops)@)) == key_seq(
            final(bars)@,
        ),
{
    let ghost init = bars@;
    let ghost ops0 = ops@;
    let n = bars.len();
    merge_sort_recursive(bars, 0, n, ops);
    let mut i: usize = 0;
    while i < n
        invariant
            i <= n,
            n == bars@.len(),
            bars@.len() == init.len(),
            same_key_classes(bars@, init),
            sorted_keys(bars@),
            ops0.is_prefix_of(ops@),
            ops_wf(emitted(ops0, ops@), init.len() as nat),
            no_done(emitted(ops0, ops@)),
            apply_ops_keys(key_seq(init), emitted(ops0, ops@)) == key_seq(bars@),
        decreases n - i,
    {
        proof {
            push_keeps_stream_facts(init, ops0, ops@, Operation::SetColor(i, Tag::white()), bars@);
        }
        emit_color(ops, i, Tag::white());
        i = i + 1;
    }
    proof {
        lemma_same_classes_to_multiset(bars@, init);
    }
}

} // verus!
