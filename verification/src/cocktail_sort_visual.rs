use vstd::prelude::*;
use crate::events::{
    apply_ops_keys, emit_color, emit_compare, emit_swap, emitted, no_done, ops_wf, Operation,
};
use crate::models::{key_seq, same_key_classes, sorted_keys, SortBar, Tag};
use crate::seq_facts::{
    lemma_adjacent_implies_sorted, lemma_key_seq_swap, lemma_same_classes_to_multiset,
    lemma_same_classes_trans, lemma_swap_preserves_classes, swap_seq,
};
use crate::sort_utils::push_keeps_stream_facts;

verus! {

/// The prefix before `left` is settled: each of its elements is at most
/// everything after it.
spec fn settled_prefix(s: Seq<SortBar>, left: int) -> bool {
    forall|p: int, q: int|
        0 <= p < left && p < q < s.len() ==> (#[trigger] s[p]).value <= (#[trigger] s[q]).value
}

/// The suffix after `right` is settled: each of its elements is at
/// least everything before it.
spec fn settled_suffix(s: Seq<SortBar>, right: int) -> bool {
    forall|p: int, q: int|
        right < q < s.len() && 0 <= p < q ==> (#[trigger] s[p]).value <= (#[trigger] s[q]).value
}

/// One forward bubble pass over the window `[left, right]`: afterwards
/// the window's largest key sits at `right`, and a pass without a swap
/// certifies that the window was already in adjacent order.
fn forward_pass(bars: &mut Vec<SortBar>, left: usize, right: usize, ops: &mut Vec<Operation>) -> (swapped: bool)
    requires
        left < right < old(bars)@.len(),
        settled_prefix(old(bars)@, left as int),
        settled_suffix(old(bars)@, right as int),
    ensures
        final(bars)@.len() == old(bars)@.len(),
        same_key_classes(final(bars)@, old(bars)@),
        settled_prefix(final(bars)@, left as int),
        settled_suffix(final(bars)@, right as int),
        forall|p: int|
            left <= p < right ==> (#[trigger] final(bars)@[p]).value <= final(bars)@[right as int].value,
        !swapped ==> forall|p: int|
            left <= p < right ==> (#[trigger] final(bars)@[p]).value <= final(bars)@[p + 1].value,
        old(ops)@.is_prefix_of(final(ops)@),
        ops_wf(emitted(old(ops)@, final(ops)@), old(bars)@.len() as nat),
        no_done(emitted(old(ops)@, final(ops)@)),
        apply_ops_keys(key_seq(old(bars)@), emitted(old(ops)@, final(ops)@)) == key_seq(
            final(bars)@,
        ),
{
    let ghost init = bars@;
    let ghost ops0 = ops@;
    proof {
        assert(emitted(ops0, ops@) =~= Seq::<Operation>::empty());
        assert(ops0.is_prefix_of(ops@));
    }
    let mut swapped = false;
    let mut i = left;
    while i < right
        invariant
            left <= i <= right < bars@.len(),
            bars@.len() == init.len(),
            same_key_classes(bars@, init),
            settled_prefix(bars@, left as int),
            settled_suffix(bars@, right as int),
            forall|p: int| left <= p < i ==> (#[trigger] bars@[p]).value <= bars@[i as int].value,
            !swapped ==> forall|p: int|
                left <= p < i ==> (#[trigger] bars@[p]).value <= bars@[p + 1].value,
            ops0.is_prefix_of(ops@),
            ops_wf(emitted(ops0, ops@), init.len() as nat),
            no_done(emitted(ops0, ops@)),
            apply_ops_keys(key_seq(init), emitted(ops0, ops@)) == key_seq(bars@),
        decreases right - i,
    {
        proof {
            push_keeps_stream_facts(init, ops0, ops@, Operation::Compare(i, (i + 1) as usize), bars@);
        }
        emit_compare(ops, i, i + 1);
        if bars[i].value > bars[i + 1].value {
            let ghost pre = bars@;
            proof {
                push_keeps_stream_facts(init, ops0, ops@, Operation::Swap(i, (i + 1) as usize), bars@);
            }
            emit_swap(bars, ops, i, i + 1);
            swapped = true;
            proof {
                assert(bars@ =~= swap_seq(pre, i as int, i as int + 1));
                lemma_key_seq_swap(pre, i as int, i as int + 1);
                assert(key_seq(bars@) =~= swap_seq(key_seq(pre), i as int, i as int + 1));
                lemma_swap_preserves_classes(pre, i as int, i as int + 1);
                lemma_same_classes_trans(bars@, pre, init);
            }
        }
        proof {
            push_keeps_stream_facts(init, ops0, ops@, Operation::SetColor(i, Tag::white()), bars@);
        }
        emit_color(ops, i, Tag::white());
        i = i + 1;
    }
    swapped
}

/// One backward bubble pass over the window `[left, right]`: afterwards
/// the window's smallest key sits at `left`, and a pass without a swap
/// certifies that the window was already in adjacent order.
fn backward_pass(bars: &mut Vec<SortBar>, left: usize, right: usize, ops: &mut Vec<Operation>) -> (swapped: bool)
    requires
        left < right < old(bars)@.len(),
        settled_prefix(old(bars)@, left as int),
        settled_suffix(old(bars)@, right as int),
    ensures
        final(bars)@.len() == old(bars)@.len(),
        same_key_classes(final(bars)@, old(bars)@),
        settled_prefix(final(bars)@, left as int),
        settled_suffix(final(bars)@, right as int),
        forall|q: int|
            left < q <= right ==> final(bars)@[left as int].value <= (#[trigger] final(bars)@[q]).value,
        !swapped ==> forall|p: int|
            left <= p < right ==> (#[trigger] final(bars)@[p]).value <= final(bars)@[p + 1].value,
        old(ops)@.is_prefix_of(final(ops)@),
        ops_wf(emitted(old(ops)@, final(ops)@), old(bars)@.len() as nat),
        no_done(emitted(old(ops)@, final(ops)@)),
        apply_ops_keys(key_seq(old(bars)@), emitted(old(ops)@, final(ops)@)) == key_seq(
            final(bars)@,
        ),
{
    let ghost init = bars@;
    let ghost ops0 = ops@;
    proof {
        assert(emitted(ops0, ops@) =~= Seq::<Operation>::empty());
        assert(ops0.is_prefix_of(ops@));
    }
    let mut swapped = false;
    let mut j = right;
    while j > left
        invariant
            left <= j <= right < bars@.len(),
            bars@.len() == init.len(),
            same_key_classes(bars@, init),
            settled_prefix(bars@, left as int),
            settled_suffix(bars@, right as int),
            forall|q: int| j < q <= right ==> bars@[j as int].value <= (#[trigger] bars@[q]).value,
            !swapped ==> forall|p: int|
                j <= p < right ==> (#[trigger] bars@[p]).value <= bars@[p + 1].value,
            ops0.is_prefix_of(ops@),
            ops_wf(emitted(ops0, ops@), init.len() as nat),
            no_done(emitted(ops0, ops@)),
            apply_ops_keys(key_seq(init), emitted(ops0, ops@)) == key_seq(bars@),
        decreases j,
    {
        proof {
            push_keeps_stream_facts(init, ops0, ops@, Operation::Compare((j - 1) as usize, j), bars@);
        }
        emit_compare(ops, j - 1, j);
        if bars[j - 1].value > bars[j].value {
            let ghost pre = bars@;
            proof {
                push_keeps_stream_facts(init, ops0, ops@, Operation::Swap((j - 1) as usize, j), bars@);
            }
            emit_swap(bars, ops, j - 1, j);
            swapped = true;
            proof {
                assert(bars@ =~= swap_seq(pre, j as int - 1, j as int));
                lemma_key_seq_swap(pre, j as int - 1, j as int);
                assert(key_seq(bars@) =~= swap_seq(key_seq(pre), j as int - 1, j as int));
                lemma_swap_preserves_classes(pre, j as int - 1, j as int);
                lemma_same_classes_trans(bars@, pre, init);
            }
        }
        proof {
            push_keeps_stream_facts(init, ops0, ops@, Operation::SetColor(j, Tag::white()), bars@);
        }
        emit_color(ops, j, Tag::white());
        j = j - 1;
    }
    swapped
}

/// Cocktail shaker sort: alternating forward and backward bubble passes
/// over a shrinking window, one `Compare` per probe and one `Swap` per
/// exchange.  Adjacent elements move only when strictly out of order,
/// so the sort is stable: every key class of the store is preserved.
pub fn cocktail_sort_visual(bars: &mut Vec<SortBar>, ops: &mut Vec<Operation>)
    ensures
        final(bars)@.len() == old(bars)@.len(),
        sorted_keys(final(bars)@),
        same_key_classes(final(bars)@, old(bars)@),
        final(bars)@.to_multiset() == old(bars)@.to_multiset(),
        old(ops)@.is_prefix_of(final(ops)@),
        ops_wf(emitted(old(ops)@, final(ops)@), old(bars)@.len() as nat),
        no_done(emitted(old(ops)@, final(ops)@)),
        apply_ops_keys(key_seq(old(bars)@), emitted(old(ops)@, final(ops)@)) == key_seq(
            final(bars)@,
        ),
{
    let ghost init = bars@;
    let ghost ops0 = ops@;
    proof {
        assert(emitted(ops0, ops@) =~= Seq::<Operation>::empty());
        assert(ops0.is_prefix_of(ops@));
    }
    let n = bars.len();
    if n <= 1 {
        return ;
    }
    let mut left: usize = 0;
    let mut right: usize = n - 1;
    while left < right
        invariant
            left <= right < n,
            n == bars@.len(),
            bars@.len() == init.len(),
            same_key_classes(bars@, init),
            settled_prefix(bars@, left as int),
            settled_suffix(bars@, right as int),
            ops0.is_prefix_of(ops@),
            ops_wf(emitted(ops0, ops@), init.len() as nat),
            no_done(emitted(ops0, ops@)),
            apply_ops_keys(key_seq(init), emitted(ops0, ops@)) == key_seq(bars@),
        ensures
            sorted_keys(bars@),
            n == bars@.len(),
            bars@.len() == init.len(),
            same_key_classes(bars@, init),
            ops0.is_prefix_of(ops@),
            ops_wf(emitted(ops0, ops@), init.len() as nat),
            no_done(emitted(ops0, ops@)),
            apply_ops_keys(key_seq(init), emitted(ops0, ops@)) == key_seq(bars@),
        decreases right - left,
    {
        let ghost ops_a = ops@;
        let ghost bars_a = bars@;
        let fw = forward_pass(bars, left, right, ops);
        proof {
            lemma_same_classes_trans(bars@, bars_a, init);
            crate::events::compose_stream_facts(init, ops0, ops_a, ops@, bars_a, bars@);
        }
        if !fw {
            proof {
                lemma_adjacent_implies_sorted(bars@, left as int, right as int);
                assert(sorted_keys(bars@));
            }
            break ;
        }
        proof {
            push_keeps_stream_facts(
                init,
                ops0,
                ops@,
                Operation::SetColor(right, Tag::light_green()),
                bars@,
            );
        }
        emit_color(ops, right, Tag::light_green());
        proof {
            assert(settled_suffix(bars@, right as int - 1));
        }
        right = right - 1;
        if left >= right {
            proof {
                assert forall|p: int, q: int|
                    0 <= p < q < bars@.len() implies (#[trigger] bars@[p]).value <= (
                #[trigger] bars@[q]).value by {
                    if p >= left && q <= right {
                        assert(false);
                    }
                }
                assert(sorted_keys(bars@));
            }
            break ;
        }
        let ghost ops_b = ops@;
        let ghost bars_b = bars@;
        let bw = backward_pass(bars, left, right, ops);
        proof {
            lemma_same_classes_trans(bars@, bars_b, init);
            crate::events::compose_stream_facts(init, ops0, ops_b, ops@, bars_b, bars@);
        }
        if !bw {
            proof {
                lemma_adjacent_implies_sorted(bars@, left as int, right as int);
                assert(sorted_keys(bars@));
            }
            break ;
        }
        proof {
            push_keeps_stream_facts(
                init,
                ops0,
                ops@,
                Operation::SetColor(left, Tag::light_green()),
                bars@,
            );
        }
        emit_color(ops, left, Tag::light_green());
        proof {
            assert(settled_prefix(bars@, left as int + 1));
        }
        left = left + 1;
    }
    let mut t: usize = 0;
    while t < n
        invariant
            t <= n,
            n == bars@.len(),
            bars@.len() == init.len(),
            sorted_keys(bars@),
            same_key_classes(bars@, init),
            ops0.is_prefix_of(ops@),
            ops_wf(emitted(ops0, ops@), init.len() as nat),
            no_done(emitted(ops0, ops@)),
            apply_ops_keys(key_seq(init), emitted(ops0, ops@)) == key_seq(bars@),
        decreases n - t,
    {
        proof {
            push_keeps_stream_facts(init, ops0, ops@, Operation::SetColor(t, Tag::white()), bars@);
        }
        emit_color(ops, t, Tag::white());
        t = t + 1;
    }
    proof {
        lemma_same_classes_to_multiset(bars@, init);
    }
}

} // verus!
