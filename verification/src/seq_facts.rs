use vstd::prelude::*;
use vstd::seq_lib::*;
use vstd::multiset::Multiset;
use crate::models::{key_class, key_seq, same_key_classes, sorted_keys, SortBar};

verus! {

/// Non-decreasing order for plain integer sequences.
pub open spec fn sorted_i32(s: Seq<i32>) -> bool {
    forall|i: int, j: int| 0 <= i < j < s.len() ==> s[i] <= s[j]
}

/// The sequence with positions `i` and `j` exchanged.
pub open spec fn swap_seq<A>(s: Seq<A>, i: int, j: int) -> Seq<A> {
    s.update(i, s[j]).update(j, s[i])
}

pub broadcast proof fn lemma_to_multiset_distributes_over_add<A>(s1: Seq<A>, s2: Seq<A>)
    ensures
        #[trigger] (s1 + s2).to_multiset() == s1.to_multiset().add(s2.to_multiset()),
    decreases s2.len(),
{
    broadcast use vstd::multiset::group_multiset_axioms;

    s2.to_multiset_ensures();
    if s2.len() == 0 {
        assert(s1 + s2 =~= s1);
        assert(s2.to_multiset() =~= Multiset::<A>::empty());
        assert((s1 + s2).to_multiset() =~= s1.to_multiset().add(s2.to_multiset()));
    } else {
        lemma_to_multiset_distributes_over_add(s1, s2.drop_last());
        s2.drop_last().to_multiset_ensures();
        (s1 + s2.drop_last()).to_multiset_ensures();
        assert(s1 + s2 =~= (s1 + s2.drop_last()).push(s2.last()));
        assert(s2 =~= s2.drop_last().push(s2.last()));
        assert((s1 + s2).to_multiset() == (s1 + s2.drop_last()).to_multiset().insert(s2.last()));
        assert(s2.to_multiset() == s2.drop_last().to_multiset().insert(s2.last()));
        assert((s1 + s2).to_multiset() =~= s1.to_multiset().add(s2.to_multiset()));
    }
}

/// Exchanging two positions leaves the multiset of elements unchanged.
pub proof fn lemma_swap_to_multiset<A>(s: Seq<A>, i: int, j: int)
    requires
        0 <= i < s.len(),
        0 <= j < s.len(),
    ensures
        swap_seq(s, i, j).to_multiset() == s.to_multiset(),
{
    broadcast use vstd::multiset::group_multiset_axioms;
    broadcast use lemma_to_multiset_distributes_over_add;

    if i == j {
        assert(swap_seq(s, i, j) =~= s);
    } else {
        let lo = if i < j { i } else { j };
        let hi = if i < j { j } else { i };
        let t = swap_seq(s, i, j);
        assert(s =~= s.take(lo) + seq![s[lo]] + s.subrange(lo + 1, hi) + seq![s[hi]] + s.skip(
            hi + 1,
        ));
        assert(t =~= s.take(lo) + seq![s[hi]] + s.subrange(lo + 1, hi) + seq![s[lo]] + s.skip(
            hi + 1,
        ));
        assert(t.to_multiset() =~= s.to_multiset());
    }
}

/// Mapping to keys commutes with an update.
pub proof fn lemma_key_seq_update(s: Seq<SortBar>, i: int, b: SortBar)
    requires
        0 <= i < s.len(),
    ensures
        key_seq(s.update(i, b)) =~= key_seq(s).update(i, b.value as usize),
{
}

/// Mapping to keys commutes with an exchange.
pub proof fn lemma_key_seq_swap(s: Seq<SortBar>, i: int, j: int)
    requires
        0 <= i < s.len(),
        0 <= j < s.len(),
    ensures
        key_seq(swap_seq(s, i, j)) =~= swap_seq(key_seq(s), i, j),
{
}

pub broadcast proof fn lemma_filter_singleton<A>(x: A, p: spec_fn(A) -> bool)
    ensures
        #[trigger] seq![x].filter(p) == if p(x) {
            seq![x]
        } else {
            Seq::<A>::empty()
        },
{
    reveal(Seq::filter);
    assert(seq![x].drop_last() =~= Seq::<A>::empty());
    assert(Seq::<A>::empty().filter(p) =~= Seq::<A>::empty());
    if p(x) {
        assert(seq![x].filter(p) =~= Seq::<A>::empty().push(x));
        assert(Seq::<A>::empty().push(x) =~= seq![x]);
    }
}

/// Exchanging two positions whose keys differ, with no element between
/// them sharing a key with either, preserves every key class: the store
/// holds the same elements, equal keys in the same relative order.
pub proof fn lemma_swap_preserves_classes(s: Seq<SortBar>, i: int, j: int)
    requires
        0 <= i < j < s.len(),
        s[i].value != s[j].value,
        forall|m: int| i < m < j ==> (#[trigger] s[m]).value != s[i].value && s[m].value != s[j].value,
    ensures
        same_key_classes(swap_seq(s, i, j), s),
{
    broadcast use Seq::filter_distributes_over_add;
    broadcast use lemma_filter_singleton;

    let t = swap_seq(s, i, j);
    let pre = s.take(i);
    let mid = s.subrange(i + 1, j);
    let post = s.skip(j + 1);
    let x = s[i];
    let y = s[j];
    assert(s =~= pre + seq![x] + mid + seq![y] + post);
    assert(t =~= pre + seq![y] + mid + seq![x] + post);
    assert forall|k: usize| #[trigger] key_class(t, k) == key_class(s, k) by {
        let p = |b: SortBar| b.value == k;
        if k == x.value || k == y.value {
            assert(mid.all(|b: SortBar| !p(b)));
            mid.lemma_all_neg_filter_empty(p);
            assert(mid.filter(p) =~= Seq::<SortBar>::empty());
        }
        assert((pre + seq![x] + mid + seq![y] + post).filter(p) == (pre + seq![y] + mid + seq![x]
            + post).filter(p)) by {
            if k == x.value {
                assert((pre + seq![x] + mid + seq![y] + post).filter(p) =~= pre.filter(p)
                    + seq![x] + post.filter(p));
                assert((pre + seq![y] + mid + seq![x] + post).filter(p) =~= pre.filter(p)
                    + seq![x] + post.filter(p));
            } else if k == y.value {
                assert((pre + seq![x] + mid + seq![y] + post).filter(p) =~= pre.filter(p)
                    + seq![y] + post.filter(p));
                assert((pre + seq![y] + mid + seq![x] + post).filter(p) =~= pre.filter(p)
                    + seq![y] + post.filter(p));
            } else {
                assert((pre + seq![x] + mid + seq![y] + post).filter(p) =~= pre.filter(p)
                    + mid.filter(p) + post.filter(p));
                assert((pre + seq![y] + mid + seq![x] + post).filter(p) =~= pre.filter(p)
                    + mid.filter(p) + post.filter(p));
            }
        }
    }
}

/// A merge output that holds the classes of two consumed prefixes keeps
/// that shape when an element of the left side is appended, provided no
/// consumed right element shares its key: this is why ties must favour
/// the left span.
pub proof fn lemma_class_push_left(out: Seq<SortBar>, li: Seq<SortBar>, rj: Seq<SortBar>, b: SortBar)
    requires
        forall|c: usize| #[trigger] key_class(out, c) == key_class(li, c) + key_class(rj, c),
        forall|m: int| 0 <= m < rj.len() ==> (#[trigger] rj[m]).value != b.value,
    ensures
        forall|c: usize|
            #[trigger] key_class(out.push(b), c) == key_class(li.push(b), c) + key_class(rj, c),
{
    broadcast use Seq::lemma_filter_push;

    assert forall|c: usize|
        #[trigger] key_class(out.push(b), c) == key_class(li.push(b), c) + key_class(rj, c) by {
        let p = |e: SortBar| e.value == c;
        assert(key_class(out, c) == key_class(li, c) + key_class(rj, c));
        assert(out.push(b).filter(p) == if p(b) {
            out.filter(p).push(b)
        } else {
            out.filter(p)
        });
        assert(li.push(b).filter(p) == if p(b) {
            li.filter(p).push(b)
        } else {
            li.filter(p)
        });
        if p(b) {
            assert(rj.all(|e: SortBar| !p(e)));
            rj.lemma_all_neg_filter_empty(p);
            assert(key_class(rj, c) =~= Seq::<SortBar>::empty());
            assert((key_class(li, c) + key_class(rj, c)).push(b) =~= key_class(li, c).push(b)
                + key_class(rj, c));
        }
    }
}

/// The same shape is kept when an element of the right side is appended.
pub proof fn lemma_class_push_right(
    out: Seq<SortBar>,
    li: Seq<SortBar>,
    rj: Seq<SortBar>,
    b: SortBar,
)
    requires
        forall|c: usize| #[trigger] key_class(out, c) == key_class(li, c) + key_class(rj, c),
    ensures
        forall|c: usize|
            #[trigger] key_class(out.push(b), c) == key_class(li, c) + key_class(rj.push(b), c),
{
    broadcast use Seq::lemma_filter_push;

    assert forall|c: usize|
        #[trigger] key_class(out.push(b), c) == key_class(li, c) + key_class(rj.push(b), c) by {
        let p = |e: SortBar| e.value == c;
        assert(key_class(out, c) == key_class(li, c) + key_class(rj, c));
        assert(out.push(b).filter(p) == if p(b) {
            out.filter(p).push(b)
        } else {
            out.filter(p)
        });
        assert(rj.push(b).filter(p) == if p(b) {
            rj.filter(p).push(b)
        } else {
            rj.filter(p)
        });
        if p(b) {
            assert((key_class(li, c) + key_class(rj, c)).push(b) =~= key_class(li, c) + key_class(
                rj,
                c,
            ).push(b));
        }
    }
}

/// How often an element occurs in a store is how often it occurs in its
/// own key class.
pub proof fn lemma_class_count(s: Seq<SortBar>, b: SortBar)
    ensures
        key_class(s, b.value).to_multiset().count(b) == s.to_multiset().count(b),
    decreases s.len(),
{
    broadcast use vstd::multiset::group_multiset_axioms;
    broadcast use Seq::lemma_filter_push;
    broadcast use group_to_multiset_ensures;

    let p = |e: SortBar| e.value == b.value;
    if s.len() == 0 {
        assert(s.filter(p) =~= Seq::<SortBar>::empty()) by {
            reveal(Seq::filter);
        }
    } else {
        let rest = s.drop_last();
        lemma_class_count(rest, b);
        assert(s =~= rest.push(s.last()));
        assert(key_class(s, b.value) == rest.push(s.last()).filter(p));
        if !p(s.last()) {
            assert(s.last() != b);
        }
    }
}

/// Stores with equal key classes hold the same multiset of elements:
/// conservation follows from stability.
pub proof fn lemma_same_classes_to_multiset(s: Seq<SortBar>, t: Seq<SortBar>)
    requires
        same_key_classes(s, t),
    ensures
        s.to_multiset() == t.to_multiset(),
{
    assert forall|b: SortBar| s.to_multiset().count(b) == t.to_multiset().count(b) by {
        lemma_class_count(s, b);
        lemma_class_count(t, b);
        assert(key_class(s, b.value) == key_class(t, b.value));
    }
    assert(s.to_multiset() =~= t.to_multiset());
}

/// A suffix agreement extends to any later suffix.
pub proof fn lemma_skip_more<A>(s: Seq<A>, t: Seq<A>, k: int, m: int)
    requires
        s.len() == t.len(),
        0 <= k <= m <= s.len(),
        s.skip(k) == t.skip(k),
    ensures
        s.skip(m) == t.skip(m),
{
    assert forall|x: int| 0 <= x < s.skip(m).len() implies s.skip(m)[x] == t.skip(m)[x] by {
        assert(s.skip(k)[m - k + x] == t.skip(k)[m - k + x]);
    }
    assert(s.skip(m) =~= t.skip(m));
}

/// A property of every element survives any permutation.
pub proof fn lemma_multiset_all<A>(s: Seq<A>, t: Seq<A>, p: spec_fn(A) -> bool)
    requires
        s.to_multiset() == t.to_multiset(),
        forall|i: int| 0 <= i < s.len() ==> p(#[trigger] s[i]),
    ensures
        forall|i: int| 0 <= i < t.len() ==> p(#[trigger] t[i]),
{
    broadcast use group_to_multiset_ensures;

    assert forall|i: int| 0 <= i < t.len() implies p(#[trigger] t[i]) by {
        assert(t.contains(t[i]));
        assert(t.to_multiset().count(t[i]) > 0);
        assert(s.to_multiset().count(t[i]) > 0);
        assert(s.contains(t[i]));
        let w = choose|w: int| 0 <= w < s.len() && s[w] == t[i];
        assert(p(s[w]));
    }
}

/// Agreement on a prefix carries subranges of it across.
pub proof fn lemma_subrange_eq_from_take<A>(s: Seq<A>, t: Seq<A>, m: int, a: int, b: int)
    requires
        s.len() == t.len(),
        0 <= a <= b <= m <= s.len(),
        s.take(m) == t.take(m),
    ensures
        s.subrange(a, b) == t.subrange(a, b),
{
    assert forall|x: int| 0 <= x < b - a implies s.subrange(a, b)[x] == t.subrange(a, b)[x] by {
        assert(s.take(m)[a + x] == s[a + x]);
        assert(t.take(m)[a + x] == t[a + x]);
    }
    assert(s.subrange(a, b) =~= t.subrange(a, b));
}

/// A prefix agreement restricts to any shorter prefix.
pub proof fn lemma_take_less<A>(s: Seq<A>, t: Seq<A>, m: int, k: int)
    requires
        s.len() == t.len(),
        0 <= k <= m <= s.len(),
        s.take(m) == t.take(m),
    ensures
        s.take(k) == t.take(k),
{
    assert forall|x: int| 0 <= x < k implies s.take(k)[x] == t.take(k)[x] by {
        assert(s.take(m)[x] == s[x]);
        assert(t.take(m)[x] == t[x]);
    }
    assert(s.take(k) =~= t.take(k));
}

/// Prefix agreement, element by element.
pub proof fn lemma_points_eq_from_take<A>(s: Seq<A>, t: Seq<A>, m: int)
    requires
        s.len() == t.len(),
        0 <= m <= s.len(),
        s.take(m) == t.take(m),
    ensures
        forall|x: int| 0 <= x < m ==> #[trigger] s[x] == t[x],
{
    assert forall|x: int| 0 <= x < m implies #[trigger] s[x] == t[x] by {
        assert(s.take(m)[x] == s[x]);
        assert(t.take(m)[x] == t[x]);
    }
}

/// Suffix agreement, element by element.
pub proof fn lemma_points_eq_from_skip<A>(s: Seq<A>, t: Seq<A>, m: int)
    requires
        s.len() == t.len(),
        0 <= m <= s.len(),
        s.skip(m) == t.skip(m),
    ensures
        forall|x: int| m <= x < s.len() ==> #[trigger] s[x] == t[x],
{
    assert forall|x: int| m <= x < s.len() implies #[trigger] s[x] == t[x] by {
        assert(s.skip(m)[x - m] == s[x]);
        assert(t.skip(m)[x - m] == t[x]);
    }
}

/// A chain of adjacent bounds yields any pairwise bound.
proof fn lemma_key_chain(s: Seq<SortBar>, lo: int, hi: int, p: int, q: int)
    requires
        0 <= lo,
        hi < s.len(),
        forall|t: int| lo <= t < hi ==> (#[trigger] s[t]).value <= s[t + 1].value,
        lo <= p < q <= hi,
    ensures
        s[p].value <= s[q].value,
    decreases q - p,
{
    if p + 1 < q {
        lemma_key_chain(s, lo, hi, p + 1, q);
    }
}

/// Adjacent order over a span gives pairwise order over the span.
pub proof fn lemma_adjacent_implies_sorted(s: Seq<SortBar>, lo: int, hi: int)
    requires
        0 <= lo,
        hi < s.len(),
        forall|t: int| lo <= t < hi ==> (#[trigger] s[t]).value <= s[t + 1].value,
    ensures
        forall|p: int, q: int|
            lo <= p < q <= hi ==> (#[trigger] s[p]).value <= (#[trigger] s[q]).value,
{
    assert forall|p: int, q: int|
        lo <= p < q <= hi implies (#[trigger] s[p]).value <= (#[trigger] s[q]).value by {
        lemma_key_chain(s, lo, hi, p, q);
    }
}

/// Stores holding the same elements hold the same keys.
pub proof fn lemma_key_multiset_from_multiset(s: Seq<SortBar>, t: Seq<SortBar>)
    requires
        s.to_multiset() == t.to_multiset(),
    ensures
        key_seq(s).to_multiset() == key_seq(t).to_multiset(),
    decreases s.len(),
{
    broadcast use group_to_multiset_ensures;

    if s.len() == 0 {
        s.to_multiset_ensures();
        t.to_multiset_ensures();
        assert(t.len() == 0);
        assert(key_seq(s) =~= key_seq(t));
    } else {
        let x = s.last();
        assert(s.contains(x));
        assert(s.to_multiset().count(x) > 0);
        assert(t.contains(x));
        let q = choose|q: int| 0 <= q < t.len() && t[q] == x;
        let s2 = s.drop_last();
        let t2 = t.remove(q);
        assert(s =~= s2.push(x));
        assert(s.to_multiset() == s2.to_multiset().insert(x));
        assert(t2.to_multiset() == t.to_multiset().remove(x));
        assert(s2.to_multiset() =~= t2.to_multiset()) by {
            assert forall|a: SortBar| s2.to_multiset().count(a) == t2.to_multiset().count(a) by {
                if a == x {
                    assert(s.to_multiset().count(x) == s2.to_multiset().count(x) + 1);
                } else {
                    assert(s.to_multiset().count(a) == s2.to_multiset().count(a));
                }
            }
        }
        lemma_key_multiset_from_multiset(s2, t2);
        assert(key_seq(s) =~= key_seq(s2).push(x.value as usize));
        assert(key_seq(s).to_multiset() == key_seq(s2).to_multiset().insert(x.value as usize));
        assert(key_seq(t2) =~= key_seq(t).remove(q));
        assert(key_seq(t).remove(q).to_multiset() == key_seq(t).to_multiset().remove(
            key_seq(t)[q],
        ));
        assert(key_seq(t)[q] == x.value as usize);
        assert(key_seq(t).to_multiset().count(x.value as usize) > 0) by {
            assert(key_seq(t).contains(x.value as usize)) by {
                assert(key_seq(t)[q] == x.value as usize);
            }
        }
        assert(key_seq(s).to_multiset() =~= key_seq(t).to_multiset()) by {
            assert forall|a: usize|
                key_seq(s).to_multiset().count(a) == key_seq(t).to_multiset().count(a) by {
                if a == x.value {
                } else {
                }
            }
        }
    }
}

/// Key-class equality is transitive.
pub proof fn lemma_same_classes_trans(a: Seq<SortBar>, b: Seq<SortBar>, c: Seq<SortBar>)
    requires
        same_key_classes(a, b),
        same_key_classes(b, c),
    ensures
        same_key_classes(a, c),
{
    assert forall|k: usize| #[trigger] key_class(a, k) == key_class(c, k) by {
        assert(key_class(a, k) == key_class(b, k));
        assert(key_class(b, k) == key_class(c, k));
    }
}

/// Equal outer parts and an equal whole multiset force the middle parts
/// to hold the same multiset.
pub proof fn lemma_middle_multiset<A>(s: Seq<A>, t: Seq<A>, lo: int, hi: int)
    requires
        s.len() == t.len(),
        0 <= lo <= hi <= s.len(),
        s.take(lo) == t.take(lo),
        s.skip(hi) == t.skip(hi),
        s.to_multiset() == t.to_multiset(),
    ensures
        s.subrange(lo, hi).to_multiset() == t.subrange(lo, hi).to_multiset(),
{
    broadcast use vstd::multiset::group_multiset_axioms;
    broadcast use lemma_to_multiset_distributes_over_add;

    assert(s =~= s.take(lo) + s.subrange(lo, hi) + s.skip(hi));
    assert(t =~= t.take(lo) + t.subrange(lo, hi) + t.skip(hi));
    assert(s.subrange(lo, hi).to_multiset() =~= t.subrange(lo, hi).to_multiset()) by {
        assert forall|a: A|
            s.subrange(lo, hi).to_multiset().count(a) == t.subrange(lo, hi).to_multiset().count(
                a,
            ) by {
            assert(s.to_multiset().count(a) == s.take(lo).to_multiset().count(a) + s.subrange(
                lo,
                hi,
            ).to_multiset().count(a) + s.skip(hi).to_multiset().count(a));
            assert(t.to_multiset().count(a) == t.take(lo).to_multiset().count(a) + t.subrange(
                lo,
                hi,
            ).to_multiset().count(a) + t.skip(hi).to_multiset().count(a));
        }
    }
}

/// Stores with equal key classes have the same length.
pub proof fn lemma_same_classes_len(s: Seq<SortBar>, t: Seq<SortBar>)
    requires
        same_key_classes(s, t),
    ensures
        s.len() == t.len(),
{
    lemma_same_classes_to_multiset(s, t);
    s.to_multiset_ensures();
    t.to_multiset_ensures();
}

/// In a sorted store, a key with a non-empty class bounds the first key.
proof fn lemma_class_min(t: Seq<SortBar>, k: usize)
    requires
        sorted_keys(t),
        key_class(t, k).len() > 0,
    ensures
        t.len() > 0,
        t[0].value <= k,
    decreases t.len(),
{
    broadcast use Seq::lemma_filter_prepend;
    broadcast use lemma_filter_singleton;

    let p = |b: SortBar| b.value == k;
    if t.len() == 0 {
        assert(t.filter(p) =~= Seq::<SortBar>::empty()) by {
            reveal(Seq::filter);
        }
    } else {
        assert(t =~= seq![t[0]] + t.drop_first());
        assert(key_class(t, k) == (seq![t[0]] + t.drop_first()).filter(p));
        if t[0].value != k {
            assert(key_class(t, k) =~= t.drop_first().filter(p));
            assert(sorted_keys(t.drop_first()));
            lemma_class_min(t.drop_first(), k);
        }
    }
}

/// Two sorted stores with equal key classes are the same store: a stable
/// sort has exactly one possible output, so sorting an already-sorted
/// store gives it back unchanged.
pub proof fn lemma_sorted_same_classes_equal(s: Seq<SortBar>, t: Seq<SortBar>)
    requires
        sorted_keys(s),
        sorted_keys(t),
        same_key_classes(s, t),
    ensures
        s == t,
    decreases s.len(),
{
    broadcast use Seq::lemma_filter_prepend;
    broadcast use lemma_filter_singleton;

    lemma_same_classes_len(s, t);
    if s.len() == 0 {
        assert(s =~= t);
    } else {
        let k = s[0].value;
        assert(t[0].value <= k) by {
            let p = |b: SortBar| b.value == k;
            assert(p(s[0]));
            assert(s =~= seq![s[0]] + s.drop_first());
            assert(key_class(s, k) == (seq![s[0]] + s.drop_first()).filter(p));
            assert(key_class(s, k).len() >= 1);
            assert(key_class(t, k).len() >= 1);
            lemma_class_min(t, k);
        }
        assert(s[0].value <= t[0].value) by {
            let k2 = t[0].value;
            let p2 = |b: SortBar| b.value == k2;
            assert(p2(t[0]));
            assert(t =~= seq![t[0]] + t.drop_first());
            assert(key_class(t, k2) == (seq![t[0]] + t.drop_first()).filter(p2));
            assert(key_class(t, k2).len() >= 1);
            assert(key_class(s, k2).len() >= 1);
            lemma_class_min(s, k2);
        }
        assert(t[0].value == k);
        // The first element of the shared minimal key class is the first
        // element of each store.
        let p = |b: SortBar| b.value == k;
        assert(s =~= seq![s[0]] + s.drop_first());
        assert(t =~= seq![t[0]] + t.drop_first());
        assert(key_class(s, k) == seq![s[0]] + s.drop_first().filter(p));
        assert(key_class(t, k) == seq![t[0]] + t.drop_first().filter(p));
        assert(s[0] == key_class(s, k)[0]);
        assert(t[0] == key_class(t, k)[0]);
        assert(s[0] == t[0]);
        // The tails are sorted with equal classes: induction.
        assert(same_key_classes(s.drop_first(), t.drop_first())) by {
            assert forall|k3: usize| #[trigger] key_class(s.drop_first(), k3) == key_class(
                t.drop_first(),
                k3,
            ) by {
                let p3 = |b: SortBar| b.value == k3;
                assert(key_class(s, k3) == seq![s[0]].filter(p3) + s.drop_first().filter(p3));
                assert(key_class(t, k3) == seq![t[0]].filter(p3) + t.drop_first().filter(p3));
                assert(key_class(s, k3) == key_class(t, k3));
                if p3(s[0]) {
                    assert(seq![s[0]].filter(p3) == seq![s[0]]);
                    assert(s.drop_first().filter(p3) =~= key_class(s, k3).drop_first());
                    assert(t.drop_first().filter(p3) =~= key_class(t, k3).drop_first());
                } else {
                    assert(seq![s[0]].filter(p3) == Seq::<SortBar>::empty());
                    assert(s.drop_first().filter(p3) =~= key_class(s, k3));
                    assert(t.drop_first().filter(p3) =~= key_class(t, k3));
                }
            }
        }
        assert(sorted_keys(s.drop_first()));
        assert(sorted_keys(t.drop_first()));
        lemma_sorted_same_classes_equal(s.drop_first(), t.drop_first());
        assert(s =~= t);
    }
}

} // verus!
