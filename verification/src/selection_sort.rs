use vstd::prelude::*;
use crate::events::{
    apply_ops_keys, emit_color, emit_compare, emit_swap, emitted, no_done, ops_wf, Operation,
};
use crate::models::{key_seq, sorted_keys, SortBar, Tag};
use crate::seq_facts::{lemma_key_seq_swap, lemma_swap_to_multiset, swap_seq};
use crate::sort_utils::push_keeps_stream_facts;

verus! {

/// Selection sort: each round finds the least remaining key and swaps
/// it into place, recording one `Compare` per probe and one `Swap` per
/// placement.  Long-distance swaps may reorder equal keys, so only the
/// multiset of elements is promised, not stability.
pub fn selection_sort(bars: &mut Vec<SortBar>, ops: &mut Vec<Operation>)
    ensures
        final(bars)@.len() == old(bars)@.len(),
        sorted_keys(final(bars)@),
        final(bars)@.to_multiset() == old(bars)@.to_multiset(),
        old(ops)@.is_prefix_of(final(ops)@),
        ops_wf(emitted(old(ops)@, final(ops)@), old(bars)@.len() as nat),
        no_done(emitted(old(ops)@, final(ops)@)),
        apply_ops_keys(key_seq(old(bars)@), emitted(old(ops)@, final(ops)@)) == key_seq(
            final(bars)@,
        ),
{
    let ghost init = bars@;
    let ghost ops0 = ops@;
    proof {
        assert(emitted(ops0, ops@) =~= Seq::<Operation>::empty());
        assert(ops0.is_prefix_of(ops@));
    }
    let n = bars.len();
    let mut i: usize = 0;
    while i < n
        invariant
            i <= n,
            n == bars@.len(),
            bars@.len() == init.len(),
            bars@.to_multiset() == init.to_multiset(),
            forall|p: int, q: int|
                0 <= p < q < i ==> (#[trigger] bars@[p]).value <= (#[trigger] bars@[q]).value,
            forall|p: int, q: int|
                0 <= p < i && i <= q < n ==> (#[trigger] bars@[p]).value <= (
                #[trigger] bars@[q]).value,
            ops0.is_prefix_of(ops@),
            ops_wf(emitted(ops0, ops@), init.len() as nat),
            no_done(emitted(ops0, ops@)),
            apply_ops_keys(key_seq(init), emitted(ops0, ops@)) == key_seq(bars@),
        decreases n - i,
    {
        let mut min_idx = i;
        let mut j = i + 1;
        while j < n
            invariant
                i < n,
                i <= min_idx < j <= n,
                n == bars@.len(),
                bars@.len() == init.len(),
                bars@.to_multiset() == init.to_multiset(),
                forall|p: int, q: int|
                    0 <= p < q < i ==> (#[trigger] bars@[p]).value <= (#[trigger] bars@[q]).value,
                forall|p: int, q: int|
                    0 <= p < i && i <= q < n ==> (#[trigger] bars@[p]).value <= (
                    #[trigger] bars@[q]).value,
                forall|p: int|
                    i <= p < j ==> bars@[min_idx as int].value <= (#[trigger] bars@[p]).value,
                ops0.is_prefix_of(ops@),
                ops_wf(emitted(ops0, ops@), init.len() as nat),
                no_done(emitted(ops0, ops@)),
                apply_ops_keys(key_seq(init), emitted(ops0, ops@)) == key_seq(bars@),
            decreases n - j,
        {
            proof {
                push_keeps_stream_facts(init, ops0, ops@, Operation::Compare(min_idx, j), bars@);
            }
            emit_compare(ops, min_idx, j);
            if bars[j].value < bars[min_idx].value {
                min_idx = j;
            }
            proof {
                push_keeps_stream_facts(
                    init,
                    ops0,
                    ops@,
                    Operation::SetColor(j, Tag::white()),
                    bars@,
                );
            }
            emit_color(ops, j, Tag::white());
            j = j + 1;
        }
        if min_idx != i {
            let ghost pre = bars@;
            proof {
                push_keeps_stream_facts(init, ops0, ops@, Operation::Swap(i, min_idx), bars@);
            }
            emit_swap(bars, ops, i, min_idx);
            proof {
                assert(bars@ =~= swap_seq(pre, i as int, min_idx as int));
                lemma_key_seq_swap(pre, i as int, min_idx as int);
                assert(key_seq(bars@) =~= swap_seq(key_seq(pre), i as int, min_idx as int));
                lemma_swap_to_multiset(pre, i as int, min_idx as int);
            }
        }
        i = i + 1;
    }
    proof {
        assert(sorted_keys(bars@));
    }
}

} // verus!
