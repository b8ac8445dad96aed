use vstd::prelude::*;
use crate::models::{key_seq, SortBar, Tag};

verus! {

/// One observable step of a sorting computation.  A producer emits any
/// number of the first four, in the order its logic dictates, and exactly
/// one terminal `Done`.  Index arguments always refer to the current
/// logical position, after all earlier `Swap`/`Overwrite` steps.
#[derive(Clone, Copy, Debug, PartialEq, Eq, Structural)]
pub enum Operation {
    Compare(usize, usize),
    Swap(usize, usize),
    SetColor(usize, Tag),
    Overwrite(usize, SortBar),
    Done,
}

/// Whether one operation only mentions positions below `n`.
pub open spec fn op_wf(op: Operation, n: nat) -> bool {
    match op {
        Operation::Compare(i, j) => i < n && j < n,
        Operation::Swap(i, j) => i < n && j < n,
        Operation::SetColor(i, _) => i < n,
        Operation::Overwrite(i, _) => i < n,
        Operation::Done => true,
    }
}

/// Whether every operation of the stream only mentions positions below `n`.
pub open spec fn ops_wf(ops: Seq<Operation>, n: nat) -> bool {
    forall|t: int| 0 <= t < ops.len() ==> op_wf(#[trigger] ops[t], n)
}

/// No operation of the stream is the terminal `Done`.
pub open spec fn no_done(ops: Seq<Operation>) -> bool {
    forall|t: int| 0 <= t < ops.len() ==> !((#[trigger] ops[t]) is Done)
}

/// What one operation does to the key sequence of a consumer that applies
/// the stream faithfully.  Tag-only operations leave the keys alone.
pub open spec fn apply_op_keys(s: Seq<usize>, op: Operation) -> Seq<usize> {
    match op {
        Operation::Compare(_, _) => s,
        Operation::SetColor(_, _) => s,
        Operation::Swap(i, j) => if i < s.len() && j < s.len() {
            s.update(i as int, s[j as int]).update(j as int, s[i as int])
        } else {
            s
        },
        Operation::Overwrite(i, b) => if i < s.len() {
            s.update(i as int, b.value)
        } else {
            s
        },
        Operation::Done => s,
    }
}

/// The key sequence after applying a whole stream, oldest operation first.
pub open spec fn apply_ops_keys(s: Seq<usize>, ops: Seq<Operation>) -> Seq<usize>
    decreases ops.len(),
{
    if ops.len() == 0 {
        s
    } else {
        apply_op_keys(apply_ops_keys(s, ops.drop_last()), ops.last())
    }
}

/// The operations a call appended to the stream: the suffix past the
/// length the stream had on entry.
pub open spec fn emitted(pre: Seq<Operation>, post: Seq<Operation>) -> Seq<Operation> {
    post.skip(pre.len() as int)
}

pub broadcast proof fn lemma_apply_ops_push(s: Seq<usize>, ops: Seq<Operation>, op: Operation)
    ensures
        #[trigger] apply_ops_keys(s, ops.push(op)) == apply_op_keys(apply_ops_keys(s, ops), op),
{
    assert(ops.push(op).drop_last() =~= ops);
}

pub broadcast proof fn lemma_apply_ops_concat(s: Seq<usize>, ops1: Seq<Operation>, ops2: Seq<Operation>)
    ensures
        #[trigger] apply_ops_keys(s, ops1 + ops2) == apply_ops_keys(apply_ops_keys(s, ops1), ops2),
    decreases ops2.len(),
{
    if ops2.len() == 0 {
        assert(ops1 + ops2 =~= ops1);
    } else {
        lemma_apply_ops_concat(s, ops1, ops2.drop_last());
        assert((ops1 + ops2).drop_last() =~= ops1 + ops2.drop_last());
        assert((ops1 + ops2).last() == ops2.last());
    }
}

/// Applying a stream never changes how many keys there are.
pub proof fn lemma_apply_ops_len(s: Seq<usize>, ops: Seq<Operation>)
    ensures
        apply_ops_keys(s, ops).len() == s.len(),
    decreases ops.len(),
{
    if ops.len() > 0 {
        lemma_apply_ops_len(s, ops.drop_last());
    }
}

/// Stream facts compose: what two calls emitted in turn is one suffix
/// whose application chains their effects.
pub proof fn compose_stream_facts(
    init: Seq<SortBar>,
    ops0: Seq<Operation>,
    mid_ops: Seq<Operation>,
    now_ops: Seq<Operation>,
    mid_bars: Seq<SortBar>,
    now_bars: Seq<SortBar>,
)
    requires
        ops0.is_prefix_of(mid_ops),
        mid_ops.is_prefix_of(now_ops),
        ops_wf(emitted(ops0, mid_ops), init.len() as nat),
        no_done(emitted(ops0, mid_ops)),
        apply_ops_keys(key_seq(init), emitted(ops0, mid_ops)) == key_seq(mid_bars),
        ops_wf(emitted(mid_ops, now_ops), mid_bars.len() as nat),
        no_done(emitted(mid_ops, now_ops)),
        apply_ops_keys(key_seq(mid_bars), emitted(mid_ops, now_ops)) == key_seq(now_bars),
        mid_bars.len() == init.len(),
    ensures
        ops0.is_prefix_of(now_ops),
        ops_wf(emitted(ops0, now_ops), init.len() as nat),
        no_done(emitted(ops0, now_ops)),
        apply_ops_keys(key_seq(init), emitted(ops0, now_ops)) == key_seq(now_bars),
{
    let l0 = ops0.len() as int;
    let l1 = mid_ops.len() as int;
    assert(now_ops.skip(l0) =~= mid_ops.skip(l0) + now_ops.skip(l1)) by {
        assert forall|x: int| 0 <= x < now_ops.len() - l0 implies now_ops.skip(l0)[x] == (
        mid_ops.skip(l0) + now_ops.skip(l1))[x] by {
            if x < l1 - l0 {
                assert(mid_ops[l0 + x] == now_ops.take(l1)[l0 + x]);
            }
        }
    }
    lemma_apply_ops_concat(key_seq(init), emitted(ops0, mid_ops), emitted(mid_ops, now_ops));
    assert(ops0.is_prefix_of(now_ops)) by {
        assert(ops0 =~= now_ops.take(l0)) by {
            assert forall|x: int| 0 <= x < l0 implies ops0[x] == now_ops.take(l0)[x] by {
                assert(ops0[x] == mid_ops.take(l0)[x]);
                assert(mid_ops[x] == now_ops.take(l1)[x]);
            }
        }
    }
    assert(ops_wf(emitted(ops0, now_ops), init.len() as nat)) by {
        assert forall|t: int| 0 <= t < emitted(ops0, now_ops).len() implies op_wf(
            #[trigger] emitted(ops0, now_ops)[t],
            init.len() as nat,
        ) by {
            if t < l1 - l0 {
                assert(emitted(ops0, now_ops)[t] == emitted(ops0, mid_ops)[t]);
            } else {
                assert(emitted(ops0, now_ops)[t] == emitted(mid_ops, now_ops)[t - (l1 - l0)]);
            }
        }
    }
    assert(no_done(emitted(ops0, now_ops))) by {
        assert forall|t: int| 0 <= t < emitted(ops0, now_ops).len() implies !((#[trigger] emitted(
            ops0,
            now_ops,
        )[t]) is Done) by {
            if t < l1 - l0 {
                assert(emitted(ops0, now_ops)[t] == emitted(ops0, mid_ops)[t]);
            } else {
                assert(emitted(ops0, now_ops)[t] == emitted(mid_ops, now_ops)[t - (l1 - l0)]);
            }
        }
    }
}

/// Record a comparison of positions `i` and `j`.
pub(crate) fn emit_compare(ops: &mut Vec<Operation>, i: usize, j: usize)
    ensures
        final(ops)@ == old(ops)@.push(Operation::Compare(i, j)),
{
    ops.push(Operation::Compare(i, j));
}

/// Record a tag change of position `i`.
pub(crate) fn emit_color(ops: &mut Vec<Operation>, i: usize, tag: Tag)
    ensures
        final(ops)@ == old(ops)@.push(Operation::SetColor(i, tag)),
{
    ops.push(Operation::SetColor(i, tag));
}

/// Exchange positions `i` and `j` of the store and record the exchange.
pub(crate) fn emit_swap(bars: &mut Vec<SortBar>, ops: &mut Vec<Operation>, i: usize, j: usize)
    requires
        i < old(bars)@.len(),
        j < old(bars)@.len(),
    ensures
        final(bars)@ == old(bars)@.update(i as int, old(bars)@[j as int]).update(
            j as int,
            old(bars)@[i as int],
        ),
        final(ops)@ == old(ops)@.push(Operation::Swap(i, j)),
{
    let bi = bars[i];
    let bj = bars[j];
    bars.set(i, bj);
    bars.set(j, bi);
    ops.push(Operation::Swap(i, j));
}

/// Replace position `i` of the store by `b` and record the replacement.
pub(crate) fn emit_overwrite(bars: &mut Vec<SortBar>, ops: &mut Vec<Operation>, i: usize, b: SortBar)
    requires
        i < old(bars)@.len(),
    ensures
        final(bars)@ == old(bars)@.update(i as int, b),
        final(ops)@ == old(ops)@.push(Operation::Overwrite(i, b)),
{
    bars.set(i, b);
    ops.push(Operation::Overwrite(i, b));
}

/// Apply one received operation to a consumer-side copy of the store,
/// exactly as the protocol prescribes: `Swap` exchanges key and tag,
/// `Overwrite` replaces the whole element, and the sentinel reset tag is
/// mapped to the consumer's own default tag.
pub fn apply_operation(bars: &mut Vec<SortBar>, op: &Operation, default_tag: Tag)
    requires
        op_wf(*op, old(bars)@.len()),
    ensures
        final(bars)@.len() == old(bars)@.len(),
        key_seq(final(bars)@) == apply_op_keys(key_seq(old(bars)@), *op),
{
    match op {
        Operation::Compare(i, j) => {
            let bi = bars[*i];
            let bj = bars[*j];
            bars.set(*i, SortBar { value: bi.value, color: Tag::yellow() });
            bars.set(*j, SortBar { value: bj.value, color: Tag::yellow() });
            proof {
                assert(key_seq(bars@) =~= key_seq(old(bars)@));
            }
        },
        Operation::Swap(i, j) => {
            let bi = bars[*i];
            let bj = bars[*j];
            bars.set(*i, bj);
            bars.set(*j, bi);
            proof {
                assert(key_seq(bars@) =~= apply_op_keys(key_seq(old(bars)@), *op));
            }
        },
        Operation::SetColor(i, tag) => {
            let value = bars[*i].value;
            let applied = if *tag == Tag::white() {
                default_tag
            } else {
                *tag
            };
            bars.set(*i, SortBar { value, color: applied });
            proof {
                assert(key_seq(bars@) =~= key_seq(old(bars)@));
            }
        },
        Operation::Overwrite(i, b) => {
            bars.set(*i, *b);
            proof {
                assert(key_seq(bars@) =~= apply_op_keys(key_seq(old(bars)@), *op));
            }
        },
        Operation::Done => {
            proof {
                assert(key_seq(bars@) =~= key_seq(old(bars)@));
            }
        },
    }
}

/// Apply a whole received stream, oldest operation first.  This is the
/// consumer loop of the protocol: what the keys become is exactly
/// `apply_ops_keys` of what they were.
pub fn apply_operations(bars: &mut Vec<SortBar>, ops: &Vec<Operation>, default_tag: Tag)
    requires
        ops_wf(ops@, old(bars)@.len()),
    ensures
        final(bars)@.len() == old(bars)@.len(),
        key_seq(final(bars)@) == apply_ops_keys(key_seq(old(bars)@), ops@),
{
    let ghost initial = bars@;
    let n = ops.len();
    for t in 0..n
        invariant
            n == ops@.len(),
            ops_wf(ops@, initial.len()),
            bars@.len() == initial.len(),
            key_seq(bars@) == apply_ops_keys(key_seq(initial), ops@.take(t as int)),
        decreases n - t,
    {
        proof {
            assert(op_wf(ops@[t as int], bars@.len()));
            assert(ops@.take(t as int).push(ops@[t as int]) =~= ops@.take(t + 1));
            lemma_apply_ops_push(key_seq(initial), ops@.take(t as int), ops@[t as int]);
        }
        apply_operation(bars, &ops[t], default_tag);
    }
    proof {
        assert(ops@.take(n as int) =~= ops@);
    }
}

} // verus!
