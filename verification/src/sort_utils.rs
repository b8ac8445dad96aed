use vstd::prelude::*;
use crate::events::{
    apply_op_keys, apply_ops_keys, emit_color, emit_compare, emit_swap, emitted,
    lemma_apply_ops_push, no_done, op_wf, ops_wf, Operation,
};
use crate::models::{key_seq, same_key_classes, sorted_key_range, SortBar, Tag};
use crate::seq_facts::{
    lemma_key_seq_swap, lemma_same_classes_to_multiset, lemma_same_classes_trans,
    lemma_swap_preserves_classes, lemma_swap_to_multiset, sorted_i32, swap_seq,
};

verus! {

/// Insertion sort of `arr[start..end]`; the rest of the array is left
/// untouched and no element is created or dropped.
pub fn insertion_sort_range_numeric(arr: &mut Vec<i32>, start: usize, end: usize)
    requires
        start <= end,
        end <= old(arr)@.len(),
    ensures
        final(arr)@.len() == old(arr)@.len(),
        final(arr)@.take(start as int) == old(arr)@.take(start as int),
        final(arr)@.skip(end as int) == old(arr)@.skip(end as int),
        final(arr)@.to_multiset() == old(arr)@.to_multiset(),
        sorted_i32(final(arr)@.subrange(start as int, end as int)),
{
    let ghost init = arr@;
    if end - start < 2 {
        return ;
    }
    let mut i = start + 1;
    while i < end
        invariant
            start < i <= end,
            end <= arr@.len(),
            arr@.len() == init.len(),
            arr@.take(start as int) == init.take(start as int),
            arr@.skip(end as int) == init.skip(end as int),
            arr@.to_multiset() == init.to_multiset(),
            forall|p: int, q: int| start <= p < q < i ==> arr@[p] <= arr@[q],
        decreases end - i,
    {
        let mut j = i;
        while j > start && arr[j - 1] > arr[j]
            invariant
                start <= j <= i < end <= arr@.len(),
                arr@.len() == init.len(),
                arr@.take(start as int) == init.take(start as int),
                arr@.skip(end as int) == init.skip(end as int),
                arr@.to_multiset() == init.to_multiset(),
                forall|p: int, q: int| start <= p < q < j ==> arr@[p] <= arr@[q],
                forall|p: int, q: int| j < p < q <= i ==> arr@[p] <= arr@[q],
                forall|q: int| j < q <= i ==> arr@[j as int] <= arr@[q],
                forall|p: int, q: int| start <= p < j && j < q <= i ==> arr@[p] <= arr@[q],
            decreases j,
        {
            let ghost pre = arr@;
            let a = arr[j - 1];
            let b = arr[j];
            arr.set(j - 1, b);
            arr.set(j, a);
            proof {
                assert(arr@ =~= swap_seq(pre, j as int - 1, j as int));
                lemma_swap_to_multiset(pre, j as int - 1, j as int);
                assert(arr@.take(start as int) =~= pre.take(start as int));
                assert(arr@.skip(end as int) =~= pre.skip(end as int));
            }
            j = j - 1;
        }
        assert(forall|p: int, q: int| start <= p < q <= i ==> arr@[p] <= arr@[q]);
        i = i + 1;
    }
    assert(sorted_i32(arr@.subrange(start as int, end as int)));
}

/// Insertion sort of a whole array.
pub fn insertion_sort_numeric(arr: &mut Vec<i32>)
    ensures
        final(arr)@.len() == old(arr)@.len(),
        final(arr)@.to_multiset() == old(arr)@.to_multiset(),
        sorted_i32(final(arr)@),
{
    let n = arr.len();
    insertion_sort_range_numeric(arr, 0, n);
    proof {
        assert(arr@.subrange(0, n as int) =~= arr@);
    }
}

/// A copy of `arr[start..end]`.
pub(crate) fn copy_range(arr: &Vec<i32>, start: usize, end: usize) -> (r: Vec<i32>)
    requires
        start <= end <= arr@.len(),
    ensures
        r@ == arr@.subrange(start as int, end as int),
{
    let mut r: Vec<i32> = Vec::new();
    let mut t = start;
    while t < end
        invariant
            start <= t <= end <= arr@.len(),
            r@ == arr@.subrange(start as int, t as int),
        decreases end - t,
    {
        r.push(arr[t]);
        proof {
            assert(r@ =~= arr@.subrange(start as int, t + 1));
        }
        t = t + 1;
    }
    r
}

/// Insertion sort of `bars[start..end]`, recording one `Compare` per
/// probe and one `Swap` per exchange: the bounded insertion pass that
/// extends short natural runs.  It is stable: every key class of the
/// store is preserved.
pub fn insertion_sort_range_visual(
    bars: &mut Vec<SortBar>,
    start: usize,
    end: usize,
    ops: &mut Vec<Operation>,
)
    requires
        start <= end,
        end <= old(bars)@.len(),
    ensures
        final(bars)@.len() == old(bars)@.len(),
        final(bars)@.take(start as int) == old(bars)@.take(start as int),
        final(bars)@.skip(end as int) == old(bars)@.skip(end as int),
        same_key_classes(final(bars)@, old(bars)@),
        final(bars)@.to_multiset() == old(bars)@.to_multiset(),
        sorted_key_range(final(bars)@, start as int, end as int),
        old(ops)@.is_prefix_of(final(ops)@),
        ops_wf(emitted(old(ops)@, final(ops)@), old(bars)@.len() as nat),
        no_done(emitted(old(ops)@, final(ops)@)),
        apply_ops_keys(key_seq(old(bars)@), emitted(old(ops)@, final(ops)@)) == key_seq(
            final(bars)@,
        ),
{
    let ghost init = bars@;
    let ghost ops0 = ops@;
    if end - start < 2 {
        proof {
            assert(emitted(ops0, ops@) =~= Seq::<Operation>::empty());
            assert(ops0.is_prefix_of(ops@));
        }
        return ;
    }
    let mut i = start + 1;
    while i < end
        invariant
            start < i <= end,
            end <= bars@.len(),
            bars@.len() == init.len(),
            bars@.take(start as int) == init.take(start as int),
            bars@.skip(end as int) == init.skip(end as int),
            same_key_classes(bars@, init),
            forall|p: int, q: int| start <= p < q < i ==> bars@[p].value <= bars@[q].value,
            ops0.is_prefix_of(ops@),
            ops_wf(emitted(ops0, ops@), init.len() as nat),
            no_done(emitted(ops0, ops@)),
            apply_ops_keys(key_seq(init), emitted(ops0, ops@)) == key_seq(bars@),
        decreases end - i,
    {
        proof {
            push_keeps_stream_facts(init, ops0, ops@, Operation::SetColor(i, Tag::light_blue()), bars@);
        }
        emit_color(ops, i, Tag::light_blue());
        let mut j = i;
        while j > start
            invariant
                start <= j <= i < end <= bars@.len(),
                bars@.len() == init.len(),
                bars@.take(start as int) == init.take(start as int),
                bars@.skip(end as int) == init.skip(end as int),
                same_key_classes(bars@, init),
                forall|p: int, q: int| start <= p < q < j ==> bars@[p].value <= bars@[q].value,
                forall|p: int, q: int| j < p < q <= i ==> bars@[p].value <= bars@[q].value,
                forall|q: int| j < q <= i ==> bars@[j as int].value <= bars@[q].value,
                forall|p: int, q: int|
                    start <= p < j && j < q <= i ==> bars@[p].value <= bars@[q].value,
                ops0.is_prefix_of(ops@),
                ops_wf(emitted(ops0, ops@), init.len() as nat),
                no_done(emitted(ops0, ops@)),
                apply_ops_keys(key_seq(init), emitted(ops0, ops@)) == key_seq(bars@),
            ensures
                j == start || bars@[j as int - 1].value <= bars@[j as int].value,
            decreases j,
        {
            proof {
                push_keeps_stream_facts(init, ops0, ops@, Operation::Compare((j - 1) as usize, j), bars@);
            }
            emit_compare(ops, j - 1, j);
            if bars[j - 1].value > bars[j].value {
                let ghost pre = bars@;
                proof {
                    push_keeps_stream_facts(init, ops0, ops@, Operation::Swap((j - 1) as usize, j), bars@);
                }
                emit_swap(bars, ops, j - 1, j);
                proof {
                    assert(bars@ =~= swap_seq(pre, j as int - 1, j as int));
                    lemma_key_seq_swap(pre, j as int - 1, j as int);
                    assert(key_seq(bars@) =~= swap_seq(key_seq(pre), j as int - 1, j as int));
                    lemma_swap_preserves_classes(pre, j as int - 1, j as int);
                    lemma_same_classes_trans(bars@, pre, init);
                    assert(bars@.take(start as int) =~= pre.take(start as int));
                    assert(bars@.skip(end as int) =~= pre.skip(end as int));
                }
                j = j - 1;
            } else {
                break ;
            }
        }
        proof {
            push_keeps_stream_facts(init, ops0, ops@, Operation::SetColor(j, Tag::white()), bars@);
        }
        emit_color(ops, j, Tag::white());
        assert(forall|p: int, q: int| start <= p < q <= i ==> bars@[p].value <= bars@[q].value);
        i = i + 1;
    }
    proof {
        lemma_same_classes_to_multiset(bars@, init);
    }
}

/// Pushing one well-formed, non-terminal operation onto the stream keeps
/// the stream facts: prefix, well-formedness, no `Done`, and the key
/// sequence the consumer computes.
pub(crate) proof fn push_keeps_stream_facts(
    init: Seq<SortBar>,
    ops0: Seq<Operation>,
    ops_now: Seq<Operation>,
    op: Operation,
    bars_now: Seq<SortBar>,
)
    requires
        ops0.is_prefix_of(ops_now),
        ops_wf(emitted(ops0, ops_now), init.len() as nat),
        no_done(emitted(ops0, ops_now)),
        apply_ops_keys(key_seq(init), emitted(ops0, ops_now)) == key_seq(bars_now),
        op_wf(op, init.len() as nat),
        !(op is Done),
        bars_now.len() == init.len(),
    ensures
        ops0.is_prefix_of(ops_now.push(op)),
        ops_wf(emitted(ops0, ops_now.push(op)), init.len() as nat),
        no_done(emitted(ops0, ops_now.push(op))),
        apply_ops_keys(key_seq(init), emitted(ops0, ops_now.push(op))) == apply_op_keys(
            key_seq(bars_now),
            op,
        ),
{
    let l = ops0.len() as int;
    assert(ops_now.push(op).skip(l) =~= ops_now.skip(l).push(op));
    assert(ops_now.push(op).take(l) =~= ops_now.take(l));
    lemma_apply_ops_push(key_seq(init), emitted(ops0, ops_now), op);
}

} // verus!
