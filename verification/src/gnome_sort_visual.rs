use vstd::prelude::*;
use crate::events::{
    apply_ops_keys, emit_color, emit_compare, emit_swap, emitted, no_done, ops_wf, Operation,
};
use crate::models::{key_seq, same_key_classes, sorted_keys, SortBar, Tag};
use crate::seq_facts::{
    lemma_key_seq_swap, lemma_same_classes_to_multiset, lemma_same_classes_trans,
    lemma_swap_preserves_classes, swap_seq,
};
use crate::sort_utils::push_keeps_stream_facts;

verus! {

/// How many elements of `t` have a key strictly below `x`.
spec fn count_smaller(x: usize, t: Seq<SortBar>) -> int
    decreases t.len(),
{
    if t.len() == 0 {
        0
    } else {
        (if t.first().value < x {
            1int
        } else {
            0int
        }) + count_smaller(x, t.drop_first())
    }
}

/// The number of out-of-order pairs; the sort's termination measure.
spec fn inversions(s: Seq<SortBar>) -> int
    decreases s.len(),
{
    if s.len() == 0 {
        0
    } else {
        count_smaller(s.first().value, s.drop_first()) + inversions(s.drop_first())
    }
}

proof fn lemma_count_smaller_nonneg(x: usize, t: Seq<SortBar>)
    ensures
        0 <= count_smaller(x, t),
    decreases t.len(),
{
    if t.len() > 0 {
        lemma_count_smaller_nonneg(x, t.drop_first());
    }
}

proof fn lemma_inversions_nonneg(s: Seq<SortBar>)
    ensures
        0 <= inversions(s),
    decreases s.len(),
{
    if s.len() > 0 {
        lemma_count_smaller_nonneg(s.first().value, s.drop_first());
        lemma_inversions_nonneg(s.drop_first());
    }
}

proof fn lemma_count_smaller_swap(x: usize, t: Seq<SortBar>, i: int)
    requires
        0 <= i,
        i + 1 < t.len(),
    ensures
        count_smaller(x, swap_seq(t, i, i + 1)) == count_smaller(x, t),
    decreases i,
{
    let w = swap_seq(t, i, i + 1);
    if i == 0 {
        let rest = t.drop_first().drop_first();
        assert(w.first() == t[1]);
        assert(w.drop_first().first() == t[0]);
        assert(w.drop_first().drop_first() =~= rest);
        assert(t.drop_first().first() == t[1]);
        assert(count_smaller(x, t) == (if t.first().value < x {
            1int
        } else {
            0int
        }) + count_smaller(x, t.drop_first()));
        assert(count_smaller(x, t.drop_first()) == (if t.drop_first().first().value < x {
            1int
        } else {
            0int
        }) + count_smaller(x, rest));
        assert(count_smaller(x, w) == (if w.first().value < x {
            1int
        } else {
            0int
        }) + count_smaller(x, w.drop_first()));
        assert(count_smaller(x, w.drop_first()) == (if w.drop_first().first().value < x {
            1int
        } else {
            0int
        }) + count_smaller(x, w.drop_first().drop_first()));
        assert(count_smaller(x, w.drop_first().drop_first()) == count_smaller(x, rest));
    } else {
        assert(w.first() == t.first());
        assert(w.drop_first() =~= swap_seq(t.drop_first(), i - 1, i));
        lemma_count_smaller_swap(x, t.drop_first(), i - 1);
    }
}

/// Exchanging an adjacent out-of-order pair removes exactly one
/// inversion.
proof fn lemma_inversions_adjacent_swap(s: Seq<SortBar>, i: int)
    requires
        0 <= i,
        i + 1 < s.len(),
        s[i].value > s[i + 1].value,
    ensures
        inversions(swap_seq(s, i, i + 1)) == inversions(s) - 1,
    decreases i,
{
    let w = swap_seq(s, i, i + 1);
    if i == 0 {
        let rest = s.drop_first().drop_first();
        assert(w.first() == s[1]);
        assert(w.drop_first().first() == s[0]);
        assert(w.drop_first().drop_first() =~= rest);
        assert(s.drop_first().first() == s[1]);
        // unfold both inversion counts two levels
        assert(inversions(s) == count_smaller(s.first().value, s.drop_first()) + inversions(
            s.drop_first(),
        ));
        assert(inversions(s.drop_first()) == count_smaller(
            s.drop_first().first().value,
            s.drop_first().drop_first(),
        ) + inversions(s.drop_first().drop_first()));
        assert(count_smaller(s[0].value, s.drop_first()) == (if s.drop_first().first().value
            < s[0].value {
            1int
        } else {
            0int
        }) + count_smaller(s[0].value, rest));
        assert(inversions(w) == count_smaller(w.first().value, w.drop_first()) + inversions(
            w.drop_first(),
        ));
        assert(inversions(w.drop_first()) == count_smaller(
            w.drop_first().first().value,
            w.drop_first().drop_first(),
        ) + inversions(w.drop_first().drop_first()));
        assert(count_smaller(s[1].value, w.drop_first()) == (if w.drop_first().first().value
            < s[1].value {
            1int
        } else {
            0int
        }) + count_smaller(s[1].value, w.drop_first().drop_first()));
        assert(inversions(w.drop_first().drop_first()) == inversions(rest));
        assert(count_smaller(s[1].value, w.drop_first().drop_first()) == count_smaller(
            s[1].value,
            rest,
        ));
        assert(count_smaller(s[0].value, rest) == count_smaller(
            w.drop_first().first().value,
            w.drop_first().drop_first(),
        ));
    } else {
        assert(w.first() == s.first());
        assert(w.drop_first() =~= swap_seq(s.drop_first(), i - 1, i));
        lemma_count_smaller_swap(s.first().value, s.drop_first(), i - 1);
        lemma_inversions_adjacent_swap(s.drop_first(), i - 1);
    }
}

/// Gnome sort: walk forward while ordered, exchange and step back when
/// not, recording one `Compare` per probe and one `Swap` per exchange.
/// Adjacent elements move only when strictly out of order, so the sort
/// is stable: every key class of the store is preserved.
pub fn gnome_sort_visual(bars: &mut Vec<SortBar>, ops: &mut Vec<Operation>)
    ensures
        final(bars)@.len() == old(bars)@.len(),
        sorted_keys(final(bars)@),
        same_key_classes(final(bars)@, old(bars)@),
        final(bars)@.to_multiset() == old(bars)@.to_multiset(),
        old(ops)@.is_prefix_of(final(ops)@),
        ops_wf(emitted(old(ops)@, final(ops)@), old(bars)@.len() as nat),
        no_done(emitted(old(ops)@, final(ops)@)),
        apply_ops_keys(key_seq(old(bars)@), emitted(old(ops)@, final(ops)@)) == key_seq(
            final(bars)@,
        ),
{
    let ghost init = bars@;
    let ghost ops0 = ops@;
    proof {
        assert(emitted(ops0, ops@) =~= Seq::<Operation>::empty());
        assert(ops0.is_prefix_of(ops@));
    }
    let n = bars.len();
    if n <= 1 {
        return ;
    }
    let mut index: usize = 0;
    while index < n
        invariant
            index <= n,
            n == bars@.len(),
            bars@.len() == init.len(),
            same_key_classes(bars@, init),
            forall|p: int, q: int|
                0 <= p < q < index ==> (#[trigger] bars@[p]).value <= (#[trigger] bars@[q]).value,
            ops0.is_prefix_of(ops@),
            ops_wf(emitted(ops0, ops@), init.len() as nat),
            no_done(emitted(ops0, ops@)),
            apply_ops_keys(key_seq(init), emitted(ops0, ops@)) == key_seq(bars@),
        decreases inversions(bars@), n - index,
    {
        if index == 0 {
            proof {
                push_keeps_stream_facts(
                    init,
                    ops0,
                    ops@,
                    Operation::SetColor(0, Tag::light_green()),
                    bars@,
                );
            }
            emit_color(ops, 0, Tag::light_green());
            index = 1;
        } else {
            proof {
                push_keeps_stream_facts(
                    init,
                    ops0,
                    ops@,
                    Operation::Compare((index - 1) as usize, index),
                    bars@,
                );
            }
            emit_compare(ops, index - 1, index);
            if bars[index - 1].value <= bars[index].value {
                index = index + 1;
            } else {
                let ghost pre = bars@;
                proof {
                    push_keeps_stream_facts(
                        init,
                        ops0,
                        ops@,
                        Operation::Swap((index - 1) as usize, index),
                        bars@,
                    );
                }
                emit_swap(bars, ops, index - 1, index);
                proof {
                    assert(bars@ =~= swap_seq(pre, index as int - 1, index as int));
                    lemma_key_seq_swap(pre, index as int - 1, index as int);
                    assert(key_seq(bars@) =~= swap_seq(key_seq(pre), index as int - 1, index as int));
                    lemma_swap_preserves_classes(pre, index as int - 1, index as int);
                    lemma_same_classes_trans(bars@, pre, init);
                    lemma_inversions_adjacent_swap(pre, index as int - 1);
                    lemma_inversions_nonneg(bars@);
                }
                index = index - 1;
            }
        }
    }
    proof {
        lemma_same_classes_to_multiset(bars@, init);
        assert(sorted_keys(bars@));
    }
}

} // verus!
