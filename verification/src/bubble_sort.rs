use vstd::prelude::*;
use crate::events::{
    apply_ops_keys, emit_color, emit_compare, emit_swap, emitted, no_done, ops_wf, Operation,
};
use crate::models::{key_seq, same_key_classes, sorted_keys, SortBar, Tag};
use crate::seq_facts::{
    lemma_key_seq_swap, lemma_same_classes_to_multiset, lemma_same_classes_trans,
    lemma_swap_preserves_classes, swap_seq,
};
use crate::sort_utils::push_keeps_stream_facts;

verus! {

/// Bubble sort with one `Compare` per probe and one `Swap` per exchange.
/// Adjacent elements are exchanged only when strictly out of order, so
/// the sort is stable: every key class of the store is preserved.
pub fn bubble_sort(bars: &mut Vec<SortBar>, ops: &mut Vec<Operation>)
    ensures
        final(bars)@.len() == old(bars)@.len(),
        sorted_keys(final(bars)@),
        same_key_classes(final(bars)@, old(bars)@),
        final(bars)@.to_multiset() == old(bars)@.to_multiset(),
        old(ops)@.is_prefix_of(final(ops)@),
        ops_wf(emitted(old(ops)@, final(ops)@), old(bars)@.len() as nat),
        no_done(emitted(old(ops)@, final(ops)@)),
        apply_ops_keys(key_seq(old(bars)@), emitted(old(ops)@, final(ops)@)) == key_seq(
            final(bars)@,
        ),
{
    let ghost init = bars@;
    let ghost ops0 = ops@;
    proof {
        assert(emitted(ops0, ops@) =~= Seq::<Operation>::empty());
        assert(ops0.is_prefix_of(ops@));
    }
    let n = bars.len();
    let mut i: usize = 0;
    while i < n
        invariant
            i <= n,
            n == bars@.len(),
            bars@.len() == init.len(),
            same_key_classes(bars@, init),
            forall|p: int, q: int|
                n - i <= p < q < n ==> (#[trigger] bars@[p]).value <= (#[trigger] bars@[q]).value,
            forall|p: int, q: int|
                0 <= p < n - i && n - i <= q < n ==> (#[trigger] bars@[p]).value <= (
                #[trigger] bars@[q]).value,
            ops0.is_prefix_of(ops@),
            ops_wf(emitted(ops0, ops@), init.len() as nat),
            no_done(emitted(ops0, ops@)),
            apply_ops_keys(key_seq(init), emitted(ops0, ops@)) == key_seq(bars@),
        decreases n - i,
    {
        let mut j: usize = 0;
        while j < n - i - 1
            invariant
                i < n,
                j <= n - i - 1,
                n == bars@.len(),
                bars@.len() == init.len(),
                same_key_classes(bars@, init),
                forall|p: int, q: int|
                    n - i <= p < q < n ==> (#[trigger] bars@[p]).value <= (
                    #[trigger] bars@[q]).value,
                forall|p: int, q: int|
                    0 <= p < n - i && n - i <= q < n ==> (#[trigger] bars@[p]).value <= (
                    #[trigger] bars@[q]).value,
                forall|p: int| 0 <= p < j ==> (#[trigger] bars@[p]).value <= bars@[j as int].value,
                ops0.is_prefix_of(ops@),
                ops_wf(emitted(ops0, ops@), init.len() as nat),
                no_done(emitted(ops0, ops@)),
                apply_ops_keys(key_seq(init), emitted(ops0, ops@)) == key_seq(bars@),
            decreases n - i - j,
        {
            proof {
                push_keeps_stream_facts(
                    init,
                    ops0,
                    ops@,
                    Operation::Compare(j, (j + 1) as usize),
                    bars@,
                );
            }
            emit_compare(ops, j, j + 1);
            if bars[j].value > bars[j + 1].value {
                let ghost pre = bars@;
                proof {
                    push_keeps_stream_facts(
                        init,
                        ops0,
                        ops@,
                        Operation::Swap(j, (j + 1) as usize),
                        bars@,
                    );
                }
                emit_swap(bars, ops, j, j + 1);
                proof {
                    assert(bars@ =~= swap_seq(pre, j as int, j as int + 1));
                    lemma_key_seq_swap(pre, j as int, j as int + 1);
                    assert(key_seq(bars@) =~= swap_seq(key_seq(pre), j as int, j as int + 1));
                    lemma_swap_preserves_classes(pre, j as int, j as int + 1);
                    lemma_same_classes_trans(bars@, pre, init);
                }
            }
            proof {
                push_keeps_stream_facts(
                    init,
                    ops0,
                    ops@,
                    Operation::SetColor(j, Tag::white()),
                    bars@,
                );
            }
            emit_color(ops, j, Tag::white());
            proof {
                push_keeps_stream_facts(
                    init,
                    ops0,
                    ops@,
                    Operation::SetColor((j + 1) as usize, Tag::white()),
                    bars@,
                );
            }
            emit_color(ops, j + 1, Tag::white());
            j = j + 1;
        }
        i = i + 1;
    }
    proof {
        lemma_same_classes_to_multiset(bars@, init);
        assert(sorted_keys(bars@));
    }
}

} // verus!
