use vstd::prelude::*;
use crate::events::{
    apply_ops_keys, emit_color, emit_compare, emit_swap, emitted, no_done, ops_wf, Operation,
};
use crate::models::{key_seq, sorted_keys, SortBar, Tag};
use crate::seq_facts::{lemma_key_seq_swap, lemma_swap_to_multiset, swap_seq};
use crate::sort_utils::push_keeps_stream_facts;

verus! {

/// One gapped insertion pass.  Any gap keeps the multiset of elements;
/// the final pass, with gap one, is a plain insertion sort and leaves
/// the keys in non-decreasing order.
fn gap_pass(bars: &mut Vec<SortBar>, gap: usize, ops: &mut Vec<Operation>)
    requires
        gap >= 1,
    ensures
        final(bars)@.len() == old(bars)@.len(),
        final(bars)@.to_multiset() == old(bars)@.to_multiset(),
        gap == 1 ==> sorted_keys(final(bars)@),
        old(ops)@.is_prefix_of(final(ops)@),
        ops_wf(emitted(old(ops)@, final(ops)@), old(bars)@.len() as nat),
        no_done(emitted(old(ops)@, final(ops)@)),
        apply_ops_keys(key_seq(old(bars)@), emitted(old(ops)@, final(ops)@)) == key_seq(
            final(bars)@,
        ),
{
    let ghost init = bars@;
    let ghost ops0 = ops@;
    proof {
        assert(emitted(ops0, ops@) =~= Seq::<Operation>::empty());
        assert(ops0.is_prefix_of(ops@));
    }
    let n = bars.len();
    let mut i = gap;
    while i < n
        invariant
            gap <= i <= n || n <= gap,
            gap >= 1,
            n == bars@.len(),
            bars@.len() == init.len(),
            bars@.to_multiset() == init.to_multiset(),
            gap == 1 ==> forall|p: int, q: int|
                0 <= p < q < i ==> (#[trigger] bars@[p]).value <= (#[trigger] bars@[q]).value,
            ops0.is_prefix_of(ops@),
            ops_wf(emitted(ops0, ops@), init.len() as nat),
            no_done(emitted(ops0, ops@)),
            apply_ops_keys(key_seq(init), emitted(ops0, ops@)) == key_seq(bars@),
        decreases n - i,
    {
        let mut j = i;
        while j >= gap
            invariant
                j <= i < n <= bars@.len(),
                gap >= 1,
                n == bars@.len(),
                bars@.len() == init.len(),
                bars@.to_multiset() == init.to_multiset(),
                gap == 1 ==> forall|p: int, q: int|
                    0 <= p < q < j ==> (#[trigger] bars@[p]).value <= (#[trigger] bars@[q]).value,
                gap == 1 ==> forall|p: int, q: int|
                    j < p < q <= i ==> (#[trigger] bars@[p]).value <= (#[trigger] bars@[q]).value,
                gap == 1 ==> forall|q: int|
                    j < q <= i ==> bars@[j as int].value <= (#[trigger] bars@[q]).value,
                gap == 1 ==> forall|p: int, q: int|
                    0 <= p < j && j < q <= i ==> (#[trigger] bars@[p]).value <= (
                    #[trigger] bars@[q]).value,
                ops0.is_prefix_of(ops@),
                ops_wf(emitted(ops0, ops@), init.len() as nat),
                no_done(emitted(ops0, ops@)),
                apply_ops_keys(key_seq(init), emitted(ops0, ops@)) == key_seq(bars@),
            ensures
                j < gap || bars@[j - gap].value <= bars@[j as int].value,
            decreases j,
        {
            proof {
                push_keeps_stream_facts(
                    init,
                    ops0,
                    ops@,
                    Operation::Compare((j - gap) as usize, j),
                    bars@,
                );
            }
            emit_compare(ops, j - gap, j);
            if bars[j - gap].value > bars[j].value {
                let ghost pre = bars@;
                proof {
                    push_keeps_stream_facts(
                        init,
                        ops0,
                        ops@,
                        Operation::Swap((j - gap) as usize, j),
                        bars@,
                    );
                }
                emit_swap(bars, ops, j - gap, j);
                proof {
                    assert(bars@ =~= swap_seq(pre, j - gap, j as int));
                    lemma_key_seq_swap(pre, j - gap, j as int);
                    assert(key_seq(bars@) =~= swap_seq(key_seq(pre), j - gap, j as int));
                    lemma_swap_to_multiset(pre, j - gap, j as int);
                }
                j = j - gap;
            } else {
                break ;
            }
        }
        proof {
            if gap == 1 {
                assert(forall|p: int, q: int|
                    0 <= p < q <= i ==> (#[trigger] bars@[p]).value <= (#[trigger] bars@[q]).value);
            }
        }
        proof {
            push_keeps_stream_facts(init, ops0, ops@, Operation::SetColor(i, Tag::white()), bars@);
        }
        emit_color(ops, i, Tag::white());
        i = i + 1;
    }
    proof {
        if gap == 1 && n > 0 {
            assert(sorted_keys(bars@));
        }
    }
}

/// Shell sort: gapped insertion passes with a halving gap sequence,
/// one `Compare` per probe and one `Swap` per exchange.  Gapped swaps
/// can reorder equal keys, so only the multiset of elements is
/// promised, not stability.
pub fn shell_sort_visual(bars: &mut Vec<SortBar>, ops: &mut Vec<Operation>)
    ensures
        final(bars)@.len() == old(bars)@.len(),
        sorted_keys(final(bars)@),
        final(bars)@.to_multiset() == old(bars)@.to_multiset(),
        old(ops)@.is_prefix_of(final(ops)@),
        ops_wf(emitted(old(ops)@, final(ops)@), old(bars)@.len() as nat),
        no_done(emitted(old(ops)@, final(ops)@)),
        apply_ops_keys(key_seq(old(bars)@), emitted(old(ops)@, final(ops)@)) == key_seq(
            final(bars)@,
        ),
{
    let ghost init = bars@;
    let ghost ops0 = ops@;
    proof {
        assert(emitted(ops0, ops@) =~= Seq::<Operation>::empty());
        assert(ops0.is_prefix_of(ops@));
    }
    let n = bars.len();
    if n <= 1 {
        return ;
    }
    let mut gap = n / 2;
    while gap > 0
        invariant
            n == bars@.len(),
            bars@.len() == init.len(),
            bars@.to_multiset() == init.to_multiset(),
            gap == 0 ==> sorted_keys(bars@),
            ops0.is_prefix_of(ops@),
            ops_wf(emitted(ops0, ops@), init.len() as nat),
            no_done(emitted(ops0, ops@)),
            apply_ops_keys(key_seq(init), emitted(ops0, ops@)) == key_seq(bars@),
        decreases gap,
    {
        let ghost pre_bars = bars@;
        let ghost pre_ops = ops@;
        gap_pass(bars, gap, ops);
        proof {
            crate::events::compose_stream_facts(init, ops0, pre_ops, ops@, pre_bars, bars@);
        }
        gap = gap / 2;
    }
}

} // verus!
