use vstd::prelude::*;
use crate::events::{
    apply_ops_keys, emit_overwrite, emitted, lemma_apply_ops_push, no_done, op_wf, ops_wf,
    Operation,
};
use crate::models::{key_seq, sorted_keys, SortBar};
use crate::seq_facts::lemma_key_seq_update;
use crate::sort_utils::push_keeps_stream_facts;
use crate::timsort::tim_sort;

verus! {

/// Sorts as fast as the library can without narrating the work: the
/// keys are ordered on a scratch copy, then placed back with one
/// `Overwrite` each, tags staying with their positions, and the stream
/// is closed with `Done`.  This producer emits its own terminal event,
/// so it is a complete stream on its own.
pub fn max_speed_sort(bars: &mut Vec<SortBar>, ops: &mut Vec<Operation>)
    ensures
        final(bars)@.len() == old(bars)@.len(),
        sorted_keys(final(bars)@),
        key_seq(final(bars)@).to_multiset() == key_seq(old(bars)@).to_multiset(),
        old(ops)@.is_prefix_of(final(ops)@),
        ops_wf(emitted(old(ops)@, final(ops)@), old(bars)@.len() as nat),
        emitted(old(ops)@, final(ops)@).len() > 0,
        emitted(old(ops)@, final(ops)@).last() == Operation::Done,
        no_done(emitted(old(ops)@, final(ops)@).drop_last()),
        apply_ops_keys(key_seq(old(bars)@), emitted(old(ops)@, final(ops)@)) == key_seq(
            final(bars)@,
        ),
{
    let ghost init = bars@;
    let ghost ops0 = ops@;
    proof {
        assert(emitted(ops0, ops@) =~= Seq::<Operation>::empty());
        assert(ops0.is_prefix_of(ops@));
    }
    let n = bars.len();
    let mut scratch: Vec<SortBar> = Vec::new();
    let mut t: usize = 0;
    while t < n
        invariant
            t <= n,
            n == bars@.len(),
            bars@ == init,
            scratch@ == init.take(t as int),
        decreases n - t,
    {
        let b = bars[t];
        scratch.push(b);
        proof {
            assert(scratch@ =~= init.take(t + 1));
        }
        t = t + 1;
    }
    proof {
        assert(scratch@ =~= init);
    }
    let mut side: Vec<Operation> = Vec::new();
    tim_sort(&mut scratch, &mut side);
    proof {
        crate::seq_facts::lemma_key_multiset_from_multiset(scratch@, init);
    }
    let mut w: usize = 0;
    while w < n
        invariant
            w <= n,
            n == bars@.len(),
            n == init.len(),
            scratch@.len() == n,
            sorted_keys(scratch@),
            key_seq(scratch@).to_multiset() == key_seq(init).to_multiset(),
            forall|p: int|
                0 <= p < w ==> (#[trigger] bars@[p]).value == scratch@[p].value,
            forall|p: int| w <= p < n ==> (#[trigger] bars@[p]) == init[p],
            ops0.is_prefix_of(ops@),
            ops_wf(emitted(ops0, ops@), init.len() as nat),
            no_done(emitted(ops0, ops@)),
            apply_ops_keys(key_seq(init), emitted(ops0, ops@)) == key_seq(bars@),
        decreases n - w,
    {
        let ghost pre = bars@;
        let key_here = scratch[w].value;
        let tag_here = bars[w].color;
        let b = SortBar { value: key_here, color: tag_here };
        proof {
            push_keeps_stream_facts(init, ops0, ops@, Operation::Overwrite(w, b), bars@);
        }
        emit_overwrite(bars, ops, w, b);
        proof {
            lemma_key_seq_update(pre, w as int, b);
            assert(key_seq(bars@) =~= key_seq(pre).update(w as int, key_here));
        }
        w = w + 1;
    }
    proof {
        assert(key_seq(bars@) =~= key_seq(scratch@));
        assert(sorted_keys(bars@));
    }
    let ghost body_ops = ops@;
    ops.push(Operation::Done);
    proof {
        lemma_apply_ops_push(key_seq(init), emitted(ops0, body_ops), Operation::Done);
        assert(emitted(ops0, ops@) =~= emitted(ops0, body_ops).push(Operation::Done));
        assert(emitted(ops0, ops@).drop_last() =~= emitted(ops0, body_ops));
        assert(ops0.is_prefix_of(ops@)) by {
            assert(ops@.take(ops0.len() as int) =~= body_ops.take(ops0.len() as int));
        }
        assert forall|q: int| 0 <= q < emitted(ops0, ops@).len() implies op_wf(
            #[trigger] emitted(ops0, ops@)[q],
            init.len() as nat,
        ) by {
            if q < emitted(ops0, ops@).len() - 1 {
                assert(emitted(ops0, ops@)[q] == emitted(ops0, body_ops)[q]);
            }
        }
    }
}

} // verus!
