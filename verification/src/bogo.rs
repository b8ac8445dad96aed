use vstd::prelude::*;
use crate::events::{
    apply_ops_keys, emit_color, emit_swap, emitted, no_done, ops_wf, Operation,
};
use crate::models::{key_seq, sorted_keys, SortBar, Tag};
use crate::seq_facts::{lemma_key_seq_swap, lemma_swap_to_multiset, swap_seq};
use crate::sort_utils::push_keeps_stream_facts;

verus! {

/// Relies on rand::Rng::gen_range over rand::thread_rng: the draw lies
/// below the requested bound.  Nothing more is assumed of it; two calls
/// on the same bound may differ.
#[verifier::external_body]
fn random_below(bound: usize) -> (r: usize)
    requires
        bound >= 1,
    ensures
        r < bound,
{
    rand::Rng::gen_range(&mut rand::thread_rng(), 0..bound)
}

/// Whether the keys are already in non-decreasing order.
pub fn is_sorted_bars(bars: &Vec<SortBar>) -> (r: bool)
    ensures
        r == sorted_keys(bars@),
{
    let n = bars.len();
    let mut i: usize = 1;
    while i < n
        invariant
            1 <= i || n == 0,
            i <= n || n == 0,
            n == bars@.len(),
            forall|p: int, q: int|
                0 <= p < q < i ==> (#[trigger] bars@[p]).value <= (#[trigger] bars@[q]).value,
        decreases n - i,
    {
        if bars[i - 1].value > bars[i].value {
            return false;
        }
        i = i + 1;
    }
    true
}

/// Shuffle until sorted: each round is one random exchange pass over the
/// store, recorded as `Swap` steps.  The round budget is the external
/// stop signal that keeps a hopeless run from spinning forever; the
/// returned flag says whether the store ended up sorted.  No element is
/// ever created or dropped.
pub fn bogo_sort(bars: &mut Vec<SortBar>, ops: &mut Vec<Operation>, max_rounds: usize) -> (done:
    bool)
    ensures
        final(bars)@.len() == old(bars)@.len(),
        final(bars)@.to_multiset() == old(bars)@.to_multiset(),
        done == sorted_keys(final(bars)@),
        old(ops)@.is_prefix_of(final(ops)@),
        ops_wf(emitted(old(ops)@, final(ops)@), old(bars)@.len() as nat),
        no_done(emitted(old(ops)@, final(ops)@)),
        apply_ops_keys(key_seq(old(bars)@), emitted(old(ops)@, final(ops)@)) == key_seq(
            final(bars)@,
        ),
{
    let ghost init = bars@;
    let ghost ops0 = ops@;
    proof {
        assert(emitted(ops0, ops@) =~= Seq::<Operation>::empty());
        assert(ops0.is_prefix_of(ops@));
    }
    let n = bars.len();
    let mut sorted_now = is_sorted_bars(bars);
    let mut rounds_left = max_rounds;
    while !sorted_now && rounds_left > 0
        invariant
            n == bars@.len(),
            bars@.len() == init.len(),
            bars@.to_multiset() == init.to_multiset(),
            sorted_now == sorted_keys(bars@),
            ops0.is_prefix_of(ops@),
            ops_wf(emitted(ops0, ops@), init.len() as nat),
            no_done(emitted(ops0, ops@)),
            apply_ops_keys(key_seq(init), emitted(ops0, ops@)) == key_seq(bars@),
        decreases rounds_left,
    {
        let mut i = n;
        while i > 1
            invariant
                i <= n,
                n == bars@.len(),
                bars@.len() == init.len(),
                bars@.to_multiset() == init.to_multiset(),
                ops0.is_prefix_of(ops@),
                ops_wf(emitted(ops0, ops@), init.len() as nat),
                no_done(emitted(ops0, ops@)),
                apply_ops_keys(key_seq(init), emitted(ops0, ops@)) == key_seq(bars@),
            decreases i,
        {
            let j = random_below(i);
            if j != i - 1 {
                let ghost pre = bars@;
                proof {
                    push_keeps_stream_facts(
                        init,
                        ops0,
                        ops@,
                        Operation::Swap((i - 1) as usize, j),
                        bars@,
                    );
                }
                emit_swap(bars, ops, i - 1, j);
                proof {
                    assert(bars@ =~= swap_seq(pre, i as int - 1, j as int));
                    lemma_key_seq_swap(pre, i as int - 1, j as int);
                    assert(key_seq(bars@) =~= swap_seq(key_seq(pre), i as int - 1, j as int));
                    lemma_swap_to_multiset(pre, i as int - 1, j as int);
                }
                proof {
                    push_keeps_stream_facts(
                        init,
                        ops0,
                        ops@,
                        Operation::SetColor((i - 1) as usize, Tag::yellow()),
                        bars@,
                    );
                }
                emit_color(ops, i - 1, Tag::yellow());
                proof {
                    push_keeps_stream_facts(
                        init,
                        ops0,
                        ops@,
                        Operation::SetColor(j, Tag::white()),
                        bars@,
                    );
                }
                emit_color(ops, j, Tag::white());
            }
            i = i - 1;
        }
        rounds_left = rounds_left - 1;
        sorted_now = is_sorted_bars(bars);
    }
    sorted_now
}

} // verus!
