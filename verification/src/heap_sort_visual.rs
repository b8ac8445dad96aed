use vstd::prelude::*;
use crate::events::{
    apply_ops_keys, compose_stream_facts, emit_color, emit_compare, emit_swap, emitted, no_done,
    ops_wf, Operation,
};
use crate::introsort::in_subtree;
use crate::models::{key_seq, sorted_keys, SortBar, Tag};
use crate::seq_facts::{lemma_key_seq_swap, lemma_swap_to_multiset, swap_seq};
use crate::sort_utils::push_keeps_stream_facts;

verus! {

/// Subtree positions do not precede their root.
proof fn lemma_bar_subtree_ge(root: int, c: int)
    requires
        0 <= root,
        in_subtree(root, c),
    ensures
        c >= root,
{
}

/// Subtree membership is transitive.
proof fn lemma_bar_subtree_trans(outer: int, inner: int, c: int)
    requires
        0 <= outer,
        0 <= inner,
        in_subtree(outer, inner),
        in_subtree(inner, c),
    ensures
        in_subtree(outer, c),
    decreases (if c > inner {
        c - inner
    } else {
        0
    }),
{
    if c != inner {
        lemma_bar_subtree_ge(inner, c);
        lemma_bar_subtree_trans(outer, inner, (c - 1) / 2);
    }
}

/// In a span where every child below `root`'s level respects its
/// parent, every member of `top`'s subtree carries a key at most
/// `top`'s.
proof fn lemma_bar_subtree_bound(s: Seq<SortBar>, size: int, root: int, top: int, c: int)
    requires
        size <= s.len(),
        0 <= root < size,
        root < top < size,
        0 <= c < size,
        in_subtree(top, c),
        forall|e: int|
            1 <= e < size && (e - 1) / 2 > root ==> s[(e - 1) / 2].value >= (
            #[trigger] s[e]).value,
    ensures
        s[c].value <= s[top].value,
    decreases (if c > top {
        c - top
    } else {
        0
    }),
{
    if c != top {
        lemma_bar_subtree_ge(top, c);
        let parent = (c - 1) / 2;
        assert(in_subtree(top, parent));
        lemma_bar_subtree_ge(top, parent);
        lemma_bar_subtree_bound(s, size, root, top, parent);
    }
}

/// In a full heap every key is at most the root's.
proof fn lemma_bar_heap_root_bound(s: Seq<SortBar>, size: int, c: int)
    requires
        size <= s.len(),
        0 <= c < size,
        forall|e: int| 1 <= e < size ==> s[(e - 1) / 2].value >= (#[trigger] s[e]).value,
    ensures
        s[c].value <= s[0].value,
    decreases c,
{
    if c > 0 {
        lemma_bar_heap_root_bound(s, size, (c - 1) / 2);
    }
}

/// The sift-down composition argument, over stores of elements.
#[verifier::rlimit(100)]
#[verifier::spinoff_prover]
proof fn lemma_bar_sift_step(
    pre: Seq<SortBar>,
    mid: Seq<SortBar>,
    g: Seq<SortBar>,
    size: int,
    ri: int,
    li: int,
)
    requires
        size <= pre.len(),
        mid.len() == pre.len(),
        g.len() == pre.len(),
        0 <= ri < size,
        ri < li < size,
        li == 2 * ri + 1 || li == 2 * ri + 2,
        mid == swap_seq(pre, ri, li),
        pre[li].value >= pre[ri].value,
        2 * ri + 1 < size ==> pre[li].value >= pre[2 * ri + 1].value,
        2 * ri + 2 < size ==> pre[li].value >= pre[2 * ri + 2].value,
        forall|c: int|
            1 <= c < size && (c - 1) / 2 > ri ==> pre[(c - 1) / 2].value >= (
            #[trigger] pre[c]).value,
        forall|c: int|
            1 <= c < size && (c - 1) / 2 >= li ==> g[(c - 1) / 2].value >= (
            #[trigger] g[c]).value,
        forall|c: int| 0 <= c < size && !in_subtree(li, c) ==> (#[trigger] g[c]) == mid[c],
        forall|c: int|
            0 <= c < size && in_subtree(li, c) ==> exists|d: int|
                0 <= d < size && in_subtree(li, d) && (#[trigger] g[c]) == mid[d],
    ensures
        forall|c: int|
            1 <= c < size && (c - 1) / 2 >= ri ==> g[(c - 1) / 2].value >= (
            #[trigger] g[c]).value,
        forall|c: int| 0 <= c < size && !in_subtree(ri, c) ==> (#[trigger] g[c]) == pre[c],
        forall|c: int|
            0 <= c < size && in_subtree(ri, c) ==> exists|d: int|
                0 <= d < size && in_subtree(ri, d) && (#[trigger] g[c]) == pre[d],
{
    assert((li - 1) / 2 == ri);
    assert(in_subtree(ri, ri));
    assert(in_subtree(ri, li));
    assert(!in_subtree(li, ri)) by {
        if in_subtree(li, ri) {
            lemma_bar_subtree_ge(li, ri);
        }
    }
    assert(g[ri] == mid[ri]);
    assert(mid[ri] == pre[li]);
    assert forall|c: int| 0 <= c < size && in_subtree(li, c) implies (#[trigger] g[c]).value
        <= g[ri].value by {
        let d = choose|d: int| 0 <= d < size && in_subtree(li, d) && g[c] == mid[d];
        if d == li {
            assert(mid[d] == pre[ri]);
        } else {
            lemma_bar_subtree_ge(li, d);
            assert(mid[d] == pre[d]);
            lemma_bar_subtree_bound(pre, size, ri, li, d);
        }
    }
    assert forall|c: int|
        1 <= c < size && (c - 1) / 2 >= ri implies g[(c - 1) / 2].value >= (
    #[trigger] g[c]).value by {
        let par = (c - 1) / 2;
        if par == ri {
            assert(c == 2 * ri + 1 || c == 2 * ri + 2);
            if c == li {
                assert(in_subtree(li, c));
                assert(g[c].value <= g[ri].value);
            } else {
                assert(!in_subtree(li, c)) by {
                    if in_subtree(li, c) && c != li {
                        lemma_bar_subtree_ge(li, (c - 1) / 2);
                    }
                }
                assert(g[c] == mid[c]);
                assert(mid[c] == pre[c]);
                assert(pre[c].value <= pre[li].value);
            }
        } else if in_subtree(li, par) {
            lemma_bar_subtree_ge(li, par);
        } else {
            assert(par > ri);
            assert(!in_subtree(li, c)) by {
                if in_subtree(li, c) {
                    assert(c != li) by {
                        if c == li {
                            assert((li - 1) / 2 == ri);
                        }
                    }
                    lemma_bar_subtree_ge(li, c);
                }
            }
            assert(g[c] == mid[c]);
            assert(g[par] == mid[par]);
            assert(mid[c] == pre[c]);
            assert(mid[par] == pre[par]);
        }
    }
    assert forall|c: int| 0 <= c < size && !in_subtree(ri, c) implies (#[trigger] g[c])
        == pre[c] by {
        assert(!in_subtree(li, c)) by {
            if in_subtree(li, c) {
                lemma_bar_subtree_trans(ri, li, c);
            }
        }
        assert(g[c] == mid[c]);
        assert(c != ri && c != li);
        assert(mid[c] == pre[c]);
    }
    assert forall|c: int| 0 <= c < size && in_subtree(ri, c) implies exists|d: int|
        0 <= d < size && in_subtree(ri, d) && (#[trigger] g[c]) == pre[d] by {
        if c == ri {
            assert(g[c] == pre[li]);
        } else if in_subtree(li, c) {
            let d = choose|d: int| 0 <= d < size && in_subtree(li, d) && g[c] == mid[d];
            if d == li {
                assert(g[c] == pre[ri]);
            } else {
                lemma_bar_subtree_ge(li, d);
                assert(g[c] == pre[d]);
                lemma_bar_subtree_trans(ri, li, d);
            }
        } else {
            assert(g[c] == mid[c]);
            assert(c != ri && c != li);
            assert(g[c] == pre[c]);
        }
    }
}

/// Probes the children of `root` within the heap, recording one
/// `Compare` per probe, and returns the position holding the largest
/// key among root and its children.
fn pick_largest(bars: &Vec<SortBar>, heap_size: usize, root: usize, ops: &mut Vec<Operation>) -> (largest: usize)
    requires
        root < heap_size <= bars@.len(),
    ensures
        root <= largest < heap_size,
        largest == root || largest == 2 * root + 1 || largest == 2 * root + 2,
        bars@[root as int].value <= bars@[largest as int].value,
        2 * root + 1 < heap_size ==> bars@[2 * root + 1].value <= bars@[largest as int].value,
        2 * root + 2 < heap_size ==> bars@[2 * root + 2].value <= bars@[largest as int].value,
        old(ops)@.is_prefix_of(final(ops)@),
        ops_wf(emitted(old(ops)@, final(ops)@), bars@.len() as nat),
        no_done(emitted(old(ops)@, final(ops)@)),
        apply_ops_keys(key_seq(bars@), emitted(old(ops)@, final(ops)@)) == key_seq(bars@),
{
    let ghost pre = bars@;
    let ghost ops0 = ops@;
    proof {
        assert(emitted(ops0, ops@) =~= Seq::<Operation>::empty());
        assert(ops0.is_prefix_of(ops@));
    }
    let mut largest = root;
    if root < heap_size / 2 {
        proof {
            assert(2 * root + 1 < heap_size);
        }
        let left = 2 * root + 1;
        proof {
            push_keeps_stream_facts(pre, ops0, ops@, Operation::Compare(left, largest), bars@);
        }
        emit_compare(ops, left, largest);
        if bars[left].value > bars[largest].value {
            largest = left;
        }
        if left + 1 < heap_size {
            proof {
                push_keeps_stream_facts(
                    pre,
                    ops0,
                    ops@,
                    Operation::Compare((left + 1) as usize, largest),
                    bars@,
                );
            }
            emit_compare(ops, left + 1, largest);
            if bars[left + 1].value > bars[largest].value {
                largest = left + 1;
            }
        }
    }
    largest
}

/// Sifts the element at `root` down within the first `heap_size`
/// positions, recording one `Compare` per child probe and one `Swap`
/// per exchange.
#[verifier::rlimit(100)]
#[verifier::spinoff_prover]
fn heapify_visual(bars: &mut Vec<SortBar>, heap_size: usize, root: usize, ops: &mut Vec<Operation>)
    requires
        root < heap_size,
        heap_size <= old(bars)@.len(),
        forall|c: int|
            1 <= c < heap_size && (c - 1) / 2 > root ==> old(bars)@[(c - 1) / 2].value >= (
            #[trigger] old(bars)@[c]).value,
    ensures
        final(bars)@.len() == old(bars)@.len(),
        final(bars)@.to_multiset() == old(bars)@.to_multiset(),
        final(bars)@.skip(heap_size as int) == old(bars)@.skip(heap_size as int),
        forall|c: int|
            1 <= c < heap_size && (c - 1) / 2 >= root ==> final(bars)@[(c - 1) / 2].value >= (
            #[trigger] final(bars)@[c]).value,
        forall|c: int|
            0 <= c < heap_size && !in_subtree(root as int, c) ==> (#[trigger] final(bars)@[c])
                == old(bars)@[c],
        forall|c: int|
            0 <= c < heap_size && in_subtree(root as int, c) ==> exists|d: int|
                0 <= d < heap_size && in_subtree(root as int, d) && (#[trigger] final(bars)@[c])
                    == old(bars)@[d],
        old(ops)@.is_prefix_of(final(ops)@),
        ops_wf(emitted(old(ops)@, final(ops)@), old(bars)@.len() as nat),
        no_done(emitted(old(ops)@, final(ops)@)),
        apply_ops_keys(key_seq(old(bars)@), emitted(old(ops)@, final(ops)@)) == key_seq(
            final(bars)@,
        ),
    decreases heap_size - root,
{
    let ghost pre = bars@;
    let ghost ops0 = ops@;
    let n = bars.len();
    let largest = pick_largest(bars, heap_size, root, ops);
    if largest == root {
        proof {
            assert forall|c: int|
                0 <= c < heap_size && in_subtree(root as int, c) implies exists|d: int|
                0 <= d < heap_size && in_subtree(root as int, d) && (#[trigger] bars@[c])
                    == pre[d] by {
                assert(bars@[c] == pre[c]);
            }
            assert forall|c: int|
                1 <= c < heap_size && (c - 1) / 2 >= root implies bars@[(c - 1) / 2].value >= (
            #[trigger] bars@[c]).value by {
                if (c - 1) / 2 == root {
                    assert(c == 2 * root + 1 || c == 2 * root + 2);
                }
            }
        }
        return ;
    }
    let ghost ops_picked = ops@;
    proof {
        push_keeps_stream_facts(pre, ops0, ops@, Operation::Swap(root, largest), bars@);
    }
    emit_swap(bars, ops, root, largest);
    let ghost mid = bars@;
    proof {
        assert(mid =~= swap_seq(pre, root as int, largest as int));
        lemma_key_seq_swap(pre, root as int, largest as int);
        assert(key_seq(mid) =~= swap_seq(key_seq(pre), root as int, largest as int));
        lemma_swap_to_multiset(pre, root as int, largest as int);
        assert(mid.skip(heap_size as int) =~= pre.skip(heap_size as int));
        assert forall|c: int|
            1 <= c < heap_size && (c - 1) / 2 > largest implies mid[(c - 1) / 2].value >= (
        #[trigger] mid[c]).value by {
            assert((c - 1) / 2 > root);
            assert(mid[c] == pre[c]);
            assert(mid[(c - 1) / 2] == pre[(c - 1) / 2]);
        }
    }
    let ghost ops_mid = ops@;
    heapify_visual(bars, heap_size, largest, ops);
    proof {
        lemma_bar_sift_step(pre, mid, bars@, heap_size as int, root as int, largest as int);
        compose_stream_facts(pre, ops0, ops_mid, ops@, mid, bars@);
        lemma_skip_more_bars(bars@, mid, heap_size as int);
        assert(bars@.skip(heap_size as int) =~= pre.skip(heap_size as int));
    }
}

/// A suffix agreement restated for convenience of the callers above.
proof fn lemma_skip_more_bars(s: Seq<SortBar>, t: Seq<SortBar>, m: int)
    requires
        s.len() == t.len(),
        0 <= m <= s.len(),
        s.skip(m) == t.skip(m),
    ensures
        forall|x: int| m <= x < s.len() ==> (#[trigger] s[x]) == t[x],
{
    assert forall|x: int| m <= x < s.len() implies (#[trigger] s[x]) == t[x] by {
        assert(s.skip(m)[x - m] == s[x]);
        assert(t.skip(m)[x - m] == t[x]);
    }
}

/// Heapsort of the whole store: builds a max-heap, then repeatedly
/// swaps the root behind the shrinking heap, recording one `Compare`
/// per probe and one `Swap` per exchange.  Long-distance swaps may
/// reorder equal keys, so only the multiset of elements is promised,
/// not stability.
#[verifier::rlimit(100)]
#[verifier::spinoff_prover]
pub fn heap_sort_visual(bars: &mut Vec<SortBar>, ops: &mut Vec<Operation>)
    ensures
        final(bars)@.len() == old(bars)@.len(),
        sorted_keys(final(bars)@),
        final(bars)@.to_multiset() == old(bars)@.to_multiset(),
        old(ops)@.is_prefix_of(final(ops)@),
        ops_wf(emitted(old(ops)@, final(ops)@), old(bars)@.len() as nat),
        no_done(emitted(old(ops)@, final(ops)@)),
        apply_ops_keys(key_seq(old(bars)@), emitted(old(ops)@, final(ops)@)) == key_seq(
            final(bars)@,
        ),
{
    let ghost init = bars@;
    let ghost ops0 = ops@;
    proof {
        assert(emitted(ops0, ops@) =~= Seq::<Operation>::empty());
        assert(ops0.is_prefix_of(ops@));
    }
    let n = bars.len();
    if n <= 1 {
        return ;
    }
    let mut i = n / 2;
    while i > 0
        invariant
            i <= n / 2,
            n == bars@.len(),
            bars@.len() == init.len(),
            bars@.to_multiset() == init.to_multiset(),
            forall|c: int|
                1 <= c < n && (c - 1) / 2 >= i ==> bars@[(c - 1) / 2].value >= (
                #[trigger] bars@[c]).value,
            ops0.is_prefix_of(ops@),
            ops_wf(emitted(ops0, ops@), init.len() as nat),
            no_done(emitted(ops0, ops@)),
            apply_ops_keys(key_seq(init), emitted(ops0, ops@)) == key_seq(bars@),
        decreases i,
    {
        i = i - 1;
        let ghost pre_bars = bars@;
        let ghost pre_ops = ops@;
        heapify_visual(bars, n, i, ops);
        proof {
            compose_stream_facts(init, ops0, pre_ops, ops@, pre_bars, bars@);
        }
    }
    let mut h = n;
    while h > 1
        invariant
            1 <= h <= n,
            n == bars@.len(),
            bars@.len() == init.len(),
            bars@.to_multiset() == init.to_multiset(),
            forall|c: int|
                1 <= c < h ==> bars@[(c - 1) / 2].value >= (#[trigger] bars@[c]).value,
            forall|p: int, q: int|
                h <= p < q < n ==> (#[trigger] bars@[p]).value <= (#[trigger] bars@[q]).value,
            forall|p: int, q: int|
                0 <= p < h <= q < n ==> (#[trigger] bars@[p]).value <= (#[trigger] bars@[q]).value,
            ops0.is_prefix_of(ops@),
            ops_wf(emitted(ops0, ops@), init.len() as nat),
            no_done(emitted(ops0, ops@)),
            apply_ops_keys(key_seq(init), emitted(ops0, ops@)) == key_seq(bars@),
        decreases h,
    {
        h = h - 1;
        let ghost pre = bars@;
        proof {
            assert forall|c: int| 0 <= c < h + 1 implies (#[trigger] pre[c]).value
                <= pre[0].value by {
                lemma_bar_heap_root_bound(pre, h as int + 1, c);
            }
        }
        let ghost before_swap_ops = ops@;
        proof {
            push_keeps_stream_facts(init, ops0, ops@, Operation::Swap(0, h), bars@);
        }
        emit_swap(bars, ops, 0, h);
        let ghost mid = bars@;
        proof {
            assert(mid =~= swap_seq(pre, 0, h as int));
            lemma_key_seq_swap(pre, 0, h as int);
            assert(key_seq(mid) =~= swap_seq(key_seq(pre), 0, h as int));
            lemma_swap_to_multiset(pre, 0, h as int);
            assert forall|c: int|
                1 <= c < h && (c - 1) / 2 > 0 implies mid[(c - 1) / 2].value >= (
            #[trigger] mid[c]).value by {
                assert(mid[c] == pre[c]);
                assert(mid[(c - 1) / 2] == pre[(c - 1) / 2]);
            }
        }
        let ghost mid_ops = ops@;
        heapify_visual(bars, h, 0, ops);
        proof {
            let g = bars@;
            compose_stream_facts(init, ops0, mid_ops, ops@, mid, bars@);
            lemma_skip_more_bars(g, mid, h as int);
            assert forall|c: int| 0 <= c < h implies (#[trigger] g[c]).value <= g[
                h as int].value by {
                assert(in_subtree(0, c)) by {
                    lemma_bar_in_subtree_root(c);
                }
                let d = choose|d: int| 0 <= d < h && in_subtree(0, d) && g[c] == mid[d];
                if d == 0 {
                    assert(mid[d] == pre[h as int]);
                    assert(pre[h as int].value <= pre[0].value);
                } else {
                    assert(mid[d] == pre[d]);
                    assert(pre[d].value <= pre[0].value);
                }
                assert(g[h as int] == mid[h as int]);
                assert(mid[h as int] == pre[0]);
            }
            assert forall|p: int, q: int|
                h <= p < q < n implies (#[trigger] g[p]).value <= (#[trigger] g[q]).value by {
                assert(g[p] == mid[p]);
                assert(g[q] == mid[q]);
                if p > h {
                    assert(mid[p] == pre[p]);
                }
                if q > h {
                    assert(mid[q] == pre[q]);
                }
                if p == h {
                    assert(mid[h as int] == pre[0]);
                    assert(pre[0].value <= pre[q].value);
                }
            }
            assert forall|p: int, q: int|
                0 <= p < h <= q < n implies (#[trigger] g[p]).value <= (#[trigger] g[q]).value by {
                assert(g[p].value <= g[h as int].value);
                if q > h {
                    assert(g[q] == mid[q]);
                    assert(mid[q] == pre[q]);
                    assert(g[h as int] == pre[0]);
                    assert(pre[0].value <= pre[q].value);
                }
            }
        }
    }
    proof {
        assert forall|p: int, q: int|
            0 <= p < q < n implies (#[trigger] bars@[p]).value <= (#[trigger] bars@[q]).value by {
            if p < 1 && q >= 1 {
                assert(bars@[p].value <= bars@[q].value);
            }
        }
        assert(sorted_keys(bars@));
    }
}

/// Every position lies in the subtree of the heap's root.
proof fn lemma_bar_in_subtree_root(c: int)
    requires
        c >= 0,
    ensures
        in_subtree(0, c),
    decreases c,
{
    if c > 0 {
        lemma_bar_in_subtree_root((c - 1) / 2);
    }
}

} // verus!
