use vstd::prelude::*;
use vstd::arithmetic::div_mod::{lemma_div_is_ordered, lemma_mod_breakdown};
use crate::events::{
    apply_ops_keys, emit_color, emit_overwrite, emitted, no_done, ops_wf, Operation,
};
use crate::models::{key_seq, sorted_keys, SortBar, Tag};
use crate::seq_facts::{lemma_key_multiset_from_multiset, lemma_key_seq_update};
use crate::sort_utils::push_keeps_stream_facts;

verus! {

/// The largest key the radix strategy accepts before backing off.
pub const MAX_SAFE_VALUE: usize = 100000;

/// The digit of `k` at the position weighted `exp`.
spec fn digit_of(k: usize, exp: int) -> int {
    ((k as int) / exp) % 10
}

/// Keys are in non-decreasing order modulo `m`.
spec fn sorted_by_mod(s: Seq<SortBar>, m: int) -> bool {
    forall|i: int, j: int|
        0 <= i < j < s.len() ==> ((#[trigger] s[i]).value as int) % m <= ((#[trigger] s[j]).value
            as int) % m
}

/// The elements whose digit at weight `exp` is `d`, in store order.
spec fn digit_class(s: Seq<SortBar>, exp: int, d: int) -> Seq<SortBar> {
    s.filter(|b: SortBar| digit_of(b.value, exp) == d)
}

/// The digit classes `0` to `d - 1`, concatenated: a stable pass over
/// one digit position.
spec fn digit_concat(s: Seq<SortBar>, exp: int, d: int) -> Seq<SortBar>
    decreases d,
{
    if d <= 0 {
        Seq::<SortBar>::empty()
    } else {
        digit_concat(s, exp, d - 1) + digit_class(s, exp, d - 1)
    }
}

/// One pass holds exactly the elements whose digit is below `d`.
proof fn lemma_digit_concat_multiset(s: Seq<SortBar>, exp: int, b: SortBar, d: int)
    requires
        0 <= d <= 10,
    ensures
        digit_of(b.value, exp) < d ==> digit_concat(s.push(b), exp, d).to_multiset()
            == digit_concat(s, exp, d).to_multiset().insert(b),
        digit_of(b.value, exp) >= d ==> digit_concat(s.push(b), exp, d).to_multiset()
            == digit_concat(s, exp, d).to_multiset(),
    decreases d,
{
    broadcast use vstd::multiset::group_multiset_axioms;
    broadcast use vstd::seq_lib::group_to_multiset_ensures;
    broadcast use Seq::lemma_filter_push;
    broadcast use crate::seq_facts::lemma_to_multiset_distributes_over_add;

    if d > 0 {
        lemma_digit_concat_multiset(s, exp, b, d - 1);
        let p = |e: SortBar| digit_of(e.value, exp) == d - 1;
        assert(s.push(b).filter(p) == if p(b) {
            s.filter(p).push(b)
        } else {
            s.filter(p)
        });
        if p(b) {
            assert(digit_class(s.push(b), exp, d - 1).to_multiset() == digit_class(
                s,
                exp,
                d - 1,
            ).to_multiset().insert(b));
            assert(digit_concat(s.push(b), exp, d).to_multiset() =~= digit_concat(
                s,
                exp,
                d,
            ).to_multiset().insert(b));
        } else {
            if digit_of(b.value, exp) < d - 1 {
                assert(digit_concat(s.push(b), exp, d).to_multiset() =~= digit_concat(
                    s,
                    exp,
                    d,
                ).to_multiset().insert(b));
            } else {
                assert(digit_concat(s.push(b), exp, d).to_multiset() =~= digit_concat(
                    s,
                    exp,
                    d,
                ).to_multiset());
            }
        }
    }
}

/// A whole pass holds exactly the elements of the store.
proof fn lemma_digit_pass_multiset(s: Seq<SortBar>, exp: int)
    requires
        exp >= 1,
    ensures
        digit_concat(s, exp, 10).to_multiset() == s.to_multiset(),
    decreases s.len(),
{
    broadcast use vstd::multiset::group_multiset_axioms;
    broadcast use vstd::seq_lib::group_to_multiset_ensures;
    broadcast use Seq::lemma_filter_push;

    if s.len() == 0 {
        assert forall|d: int| 0 <= d <= 10 implies digit_concat(s, exp, d)
            =~= Seq::<SortBar>::empty() by {
            lemma_digit_concat_empty(s, exp, d);
        }
        assert(digit_concat(s, exp, 10).to_multiset() =~= s.to_multiset());
    } else {
        let s2 = s.drop_last();
        let b = s.last();
        assert(s =~= s2.push(b));
        lemma_digit_pass_multiset(s2, exp);
        assert(0 <= digit_of(b.value, exp) < 10) by {
            assert((b.value as int) / exp >= 0) by {
                vstd::arithmetic::div_mod::lemma_div_pos_is_pos(b.value as int, exp);
            }
        }
        lemma_digit_concat_multiset(s2, exp, b, 10);
        assert(s.to_multiset() == s2.to_multiset().insert(b));
    }
}

proof fn lemma_digit_concat_empty(s: Seq<SortBar>, exp: int, d: int)
    requires
        s.len() == 0,
        0 <= d,
    ensures
        digit_concat(s, exp, d).len() == 0,
    decreases d,
{
    if d > 0 {
        lemma_digit_concat_empty(s, exp, d - 1);
        assert(digit_class(s, exp, d - 1).len() == 0) by {
            reveal(Seq::filter);
        }
        assert(digit_concat(s, exp, d) =~= digit_concat(s, exp, d - 1) + digit_class(
            s,
            exp,
            d - 1,
        ));
    }
}

/// Filtering keeps order modulo `m`.
proof fn lemma_filter_sorted_by_mod(s: Seq<SortBar>, m: int, p: spec_fn(SortBar) -> bool)
    requires
        sorted_by_mod(s, m),
    ensures
        sorted_by_mod(s.filter(p), m),
    decreases s.len(),
{
    broadcast use Seq::lemma_filter_push;

    if s.len() > 0 {
        let s2 = s.drop_last();
        assert(s =~= s2.push(s.last()));
        assert(sorted_by_mod(s2, m));
        lemma_filter_sorted_by_mod(s2, m, p);
        assert(s2.push(s.last()).filter(p) == if p(s.last()) {
            s2.filter(p).push(s.last())
        } else {
            s2.filter(p)
        });
        if p(s.last()) {
            assert forall|i: int, j: int|
                0 <= i < j < s.filter(p).len() implies ((#[trigger] s.filter(p)[i]).value as int)
                % m <= ((#[trigger] s.filter(p)[j]).value as int) % m by {
                if j == s.filter(p).len() - 1 {
                    assert(s.filter(p)[i] == s2.filter(p)[i]);
                    assert(s2.filter(p).contains(s2.filter(p)[i]));
                    s2.lemma_filter_contains_rev(p, s2.filter(p)[i]);
                    let w = choose|w: int| 0 <= w < s2.len() && s2[w] == s2.filter(p)[i];
                    assert((s2[w].value as int) % m <= (s.last().value as int) % m) by {
                        assert(s2.push(s.last())[w] == s2[w]);
                        assert(s[w] == s2[w]);
                        assert(s2.push(s.last())[s.len() - 1] == s.last());
                        assert(s[s.len() - 1] == s.last());
                    }
                    assert(s.filter(p)[j] == s.last());
                }
            }
        }
    }
}

/// After a pass over the digit at weight `exp`, the keys are ordered
/// modulo `exp * 10`.
#[verifier::rlimit(100)]
#[verifier::spinoff_prover]
proof fn lemma_digit_pass_sorted(s: Seq<SortBar>, exp: int, d: int)
    requires
        exp >= 1,
        sorted_by_mod(s, exp),
        0 <= d <= 10,
    ensures
        sorted_by_mod(digit_concat(s, exp, d), exp * 10),
        forall|i: int|
            0 <= i < digit_concat(s, exp, d).len() ==> 0 <= digit_of(
                (#[trigger] digit_concat(s, exp, d)[i]).value,
                exp,
            ) < d,
    decreases d,
{
    broadcast use vstd::seq_lib::group_filter_ensures;

    if d > 0 {
        lemma_digit_pass_sorted(s, exp, d - 1);
        let prev = digit_concat(s, exp, d - 1);
        let cls = digit_class(s, exp, d - 1);
        let whole = digit_concat(s, exp, d);
        assert(whole == prev + cls);
        let p = |b: SortBar| digit_of(b.value, exp) == d - 1;
        lemma_filter_sorted_by_mod(s, exp, p);
        assert forall|i: int| 0 <= i < whole.len() implies 0 <= digit_of(
            (#[trigger] whole[i]).value,
            exp,
        ) < d by {
            if i < prev.len() {
                assert(whole[i] == prev[i]);
            } else {
                assert(whole[i] == cls[i - prev.len()]);
                s.lemma_filter_pred(p, i - prev.len());
                assert((whole[i].value as int) / exp >= 0) by {
                    vstd::arithmetic::div_mod::lemma_div_pos_is_pos(whole[i].value as int, exp);
                }
            }
        }
        assert forall|i: int, j: int|
            0 <= i < j < whole.len() implies ((#[trigger] whole[i]).value as int) % (exp * 10)
            <= ((#[trigger] whole[j]).value as int) % (exp * 10) by {
            let ki = whole[i].value;
            let kj = whole[j].value;
            lemma_mod_breakdown(ki as int, exp, 10);
            lemma_mod_breakdown(kj as int, exp, 10);
            if i < prev.len() && j < prev.len() {
                assert(whole[i] == prev[i]);
                assert(whole[j] == prev[j]);
            } else if i < prev.len() {
                assert(whole[i] == prev[i]);
                assert(whole[j] == cls[j - prev.len()]);
                s.lemma_filter_pred(p, j - prev.len());
                assert(digit_of(ki, exp) < d - 1);
                assert(digit_of(kj, exp) == d - 1);
                vstd::arithmetic::mul::lemma_mul_inequality(
                    digit_of(ki, exp) + 1,
                    digit_of(kj, exp),
                    exp,
                );
                vstd::arithmetic::mul::lemma_mul_is_distributive_add(
                    exp,
                    digit_of(ki, exp),
                    1,
                );
                assert((digit_of(ki, exp) + 1) * exp == exp * (digit_of(ki, exp) + 1)) by {
                    vstd::arithmetic::mul::lemma_mul_is_commutative(
                        digit_of(ki, exp) + 1,
                        exp,
                    );
                }
                assert(digit_of(kj, exp) * exp == exp * digit_of(kj, exp)) by {
                    vstd::arithmetic::mul::lemma_mul_is_commutative(digit_of(kj, exp), exp);
                }
            } else {
                assert(whole[i] == cls[i - prev.len()]);
                assert(whole[j] == cls[j - prev.len()]);
                s.lemma_filter_pred(p, i - prev.len());
                s.lemma_filter_pred(p, j - prev.len());
                assert((cls[i - prev.len()].value as int) % exp <= (cls[j
                    - prev.len()].value as int) % exp);
            }
        }
    }
}

/// One stable distribution pass over the digit at weight `exp`,
/// recording one `Overwrite` per placement.
#[verifier::rlimit(100)]
#[verifier::spinoff_prover]
fn digit_pass(bars: &mut Vec<SortBar>, exp: usize, ops: &mut Vec<Operation>)
    requires
        exp >= 1,
    ensures
        final(bars)@.len() == old(bars)@.len(),
        final(bars)@ == digit_concat(old(bars)@, exp as int, 10),
        old(ops)@.is_prefix_of(final(ops)@),
        ops_wf(emitted(old(ops)@, final(ops)@), old(bars)@.len() as nat),
        no_done(emitted(old(ops)@, final(ops)@)),
        apply_ops_keys(key_seq(old(bars)@), emitted(old(ops)@, final(ops)@)) == key_seq(
            final(bars)@,
        ),
{
    broadcast use Seq::lemma_filter_push;

    let ghost init = bars@;
    let ghost ops0 = ops@;
    proof {
        assert(emitted(ops0, ops@) =~= Seq::<Operation>::empty());
        assert(ops0.is_prefix_of(ops@));
    }
    let n = bars.len();
    let mut result: Vec<SortBar> = Vec::new();
    let mut d: usize = 0;
    while d < 10
        invariant
            d <= 10,
            exp >= 1,
            n == bars@.len(),
            bars@ == init,
            result@ == digit_concat(init, exp as int, d as int),
        decreases 10 - d,
    {
        let mut i: usize = 0;
        proof {
            assert(digit_class(init.take(0), exp as int, d as int)
                =~= Seq::<SortBar>::empty()) by {
                reveal(Seq::filter);
            }
            assert(result@ =~= digit_concat(init, exp as int, d as int) + digit_class(
                init.take(0),
                exp as int,
                d as int,
            ));
        }
        while i < n
            invariant
                i <= n,
                d < 10,
                exp >= 1,
                n == bars@.len(),
                bars@ == init,
                result@ == digit_concat(init, exp as int, d as int) + digit_class(
                    init.take(i as int),
                    exp as int,
                    d as int,
                ),
            decreases n - i,
        {
            let b = bars[i];
            let dig = (b.value / exp) % 10;
            proof {
                broadcast use Seq::lemma_filter_push;

                assert(init.take(i + 1) =~= init.take(i as int).push(init[i as int]));
                let p = |e: SortBar| digit_of(e.value, exp as int) == d as int;
                assert(init.take(i as int).push(init[i as int]).filter(p) == if p(
                    init[i as int],
                ) {
                    init.take(i as int).filter(p).push(init[i as int])
                } else {
                    init.take(i as int).filter(p)
                });
                assert(dig == digit_of(b.value, exp as int));
            }
            if dig == d {
                result.push(b);
            }
            i = i + 1;
        }
        proof {
            assert(init.take(n as int) =~= init);
            assert(digit_concat(init, exp as int, d + 1) =~= digit_concat(
                init,
                exp as int,
                d as int,
            ) + digit_class(init, exp as int, d as int));
        }
        d = d + 1;
    }
    proof {
        broadcast use vstd::seq_lib::group_to_multiset_ensures;

        lemma_digit_pass_multiset(init, exp as int);
        init.to_multiset_ensures();
        result@.to_multiset_ensures();
        assert(result@.len() == n);
    }
    // write the distributed arrangement back, position by position
    let mut w: usize = 0;
    while w < n
        invariant
            w <= n,
            n == bars@.len(),
            n == init.len(),
            result@.len() == n,
            result@ == digit_concat(init, exp as int, 10),
            forall|p: int| 0 <= p < w ==> (#[trigger] bars@[p]) == result@[p],
            forall|p: int| w <= p < n ==> (#[trigger] bars@[p]) == init[p],
            ops0.is_prefix_of(ops@),
            ops_wf(emitted(ops0, ops@), init.len() as nat),
            no_done(emitted(ops0, ops@)),
            apply_ops_keys(key_seq(init), emitted(ops0, ops@)) == key_seq(bars@),
        decreases n - w,
    {
        let ghost pre = bars@;
        let b = result[w];
        proof {
            push_keeps_stream_facts(init, ops0, ops@, Operation::Overwrite(w, b), bars@);
        }
        emit_overwrite(bars, ops, w, b);
        proof {
            lemma_key_seq_update(pre, w as int, b);
            assert(key_seq(bars@) =~= key_seq(pre).update(w as int, b.value as usize));
        }
        w = w + 1;
    }
    proof {
        assert(bars@ =~= result@);
    }
}

/// Radix sort over the keys: stable distribution passes from the least
/// significant decimal digit upwards.  If any key exceeds the safe
/// bound the store is left untouched after a sweep of reset tags;
/// otherwise the keys end sorted and no element is created or dropped.
#[verifier::rlimit(100)]
#[verifier::spinoff_prover]
pub fn radix_sort_visual(bars: &mut Vec<SortBar>, ops: &mut Vec<Operation>)
    ensures
        final(bars)@.len() == old(bars)@.len(),
        (forall|i: int| 0 <= i < old(bars)@.len() ==> (#[trigger] old(bars)@[i]).value
            <= MAX_SAFE_VALUE) ==> sorted_keys(final(bars)@) && final(bars)@.to_multiset() == old(
            bars,
        )@.to_multiset(),
        (exists|i: int|
            0 <= i < old(bars)@.len() && (#[trigger] old(bars)@[i]).value > MAX_SAFE_VALUE)
            ==> final(bars)@ == old(bars)@,
        old(ops)@.is_prefix_of(final(ops)@),
        ops_wf(emitted(old(ops)@, final(ops)@), old(bars)@.len() as nat),
        no_done(emitted(old(ops)@, final(ops)@)),
        apply_ops_keys(key_seq(old(bars)@), emitted(old(ops)@, final(ops)@)) == key_seq(
            final(bars)@,
        ),
{
    let ghost init = bars@;
    let ghost ops0 = ops@;
    proof {
        assert(emitted(ops0, ops@) =~= Seq::<Operation>::empty());
        assert(ops0.is_prefix_of(ops@));
    }
    let n = bars.len();
    if n <= 1 {
        return ;
    }
    let mut max_val: usize = 0;
    let mut i: usize = 0;
    while i < n
        invariant
            i <= n,
            n == bars@.len(),
            bars@ == init,
            forall|p: int| 0 <= p < i ==> (#[trigger] bars@[p]).value <= max_val,
            max_val == 0 || exists|p: int| 0 <= p < i && (#[trigger] bars@[p]).value == max_val,
        decreases n - i,
    {
        if bars[i].value > max_val {
            max_val = bars[i].value;
        }
        i = i + 1;
    }
    if max_val > MAX_SAFE_VALUE {
        let mut t: usize = 0;
        while t < n
            invariant
                t <= n,
                n == bars@.len(),
                bars@ == init,
                ops0.is_prefix_of(ops@),
                ops_wf(emitted(ops0, ops@), init.len() as nat),
                no_done(emitted(ops0, ops@)),
                apply_ops_keys(key_seq(init), emitted(ops0, ops@)) == key_seq(bars@),
            decreases n - t,
        {
            proof {
                push_keeps_stream_facts(
                    init,
                    ops0,
                    ops@,
                    Operation::SetColor(t, Tag::white()),
                    bars@,
                );
            }
            emit_color(ops, t, Tag::white());
            t = t + 1;
        }
        return ;
    }
    let mut exp: usize = 1;
    proof {
        assert(sorted_by_mod(bars@, 1)) by {
            assert forall|p: int, q: int|
                0 <= p < q < bars@.len() implies (#[trigger] bars@[p]).value % 1 <= (
            #[trigger] bars@[q]).value % 1 by {
                assert((bars@[p].value as int) % 1 == 0);
                assert((bars@[q].value as int) % 1 == 0);
            }
        }
    }
    while max_val / exp > 0
        invariant
            1 <= exp <= 1000000,
            max_val <= MAX_SAFE_VALUE,
            n == bars@.len(),
            bars@.len() == init.len(),
            bars@.to_multiset() == init.to_multiset(),
            forall|p: int| 0 <= p < n ==> (#[trigger] bars@[p]).value <= max_val,
            sorted_by_mod(bars@, exp as int),
            ops0.is_prefix_of(ops@),
            ops_wf(emitted(ops0, ops@), init.len() as nat),
            no_done(emitted(ops0, ops@)),
            apply_ops_keys(key_seq(init), emitted(ops0, ops@)) == key_seq(bars@),
        decreases max_val / exp,
    {
        proof {
            assert(exp <= max_val) by {
                if exp > max_val {
                    assert(max_val / exp == 0) by {
                        vstd::arithmetic::div_mod::lemma_basic_div(max_val as int, exp as int);
                    }
                }
            }
        }
        let ghost pre_bars = bars@;
        let ghost pre_ops = ops@;
        digit_pass(bars, exp, ops);
        proof {
            crate::events::compose_stream_facts(init, ops0, pre_ops, ops@, pre_bars, bars@);
            lemma_digit_pass_multiset(pre_bars, exp as int);
            lemma_digit_pass_sorted(pre_bars, exp as int, 10);
            assert(bars@.to_multiset() == pre_bars.to_multiset());
            assert(sorted_by_mod(bars@, exp as int * 10));
            assert forall|p: int| 0 <= p < n implies (#[trigger] bars@[p]).value <= max_val by {
                crate::seq_facts::lemma_multiset_all(
                    pre_bars,
                    bars@,
                    |b: SortBar| b.value <= max_val,
                );
            }
            // the next weight still fits
            assert((max_val as int) / (exp as int * 10) < (max_val as int) / (exp as int)) by {
                assert((max_val as int) / (exp as int) >= 1);
                vstd::arithmetic::div_mod::lemma_div_denominator(max_val as int, exp as int, 10);
                vstd::arithmetic::div_mod::lemma_div_decreases(
                    (max_val as int) / (exp as int),
                    10,
                );
            }
        }
        exp = exp * 10;
    }
    proof {
        assert forall|p: int, q: int|
            0 <= p < q < bars@.len() implies (#[trigger] bars@[p]).value <= (
        #[trigger] bars@[q]).value by {
            assert(bars@[p].value <= max_val);
            assert(bars@[q].value <= max_val);
            assert((max_val as int) / (exp as int) == 0);
            lemma_div_is_ordered(bars@[p].value as int, max_val as int, exp as int);
            lemma_div_is_ordered(bars@[q].value as int, max_val as int, exp as int);
            assert((bars@[p].value as int) / (exp as int) >= 0) by {
                vstd::arithmetic::div_mod::lemma_div_pos_is_pos(
                    bars@[p].value as int,
                    exp as int,
                );
            }
            assert((bars@[q].value as int) / (exp as int) >= 0) by {
                vstd::arithmetic::div_mod::lemma_div_pos_is_pos(
                    bars@[q].value as int,
                    exp as int,
                );
            }
            assert((bars@[p].value as int) % (exp as int) == bars@[p].value) by {
                vstd::arithmetic::div_mod::lemma_fundamental_div_mod(
                    bars@[p].value as int,
                    exp as int,
                );
            }
            assert((bars@[q].value as int) % (exp as int) == bars@[q].value) by {
                vstd::arithmetic::div_mod::lemma_fundamental_div_mod(
                    bars@[q].value as int,
                    exp as int,
                );
            }
        }
        assert(sorted_keys(bars@));
        lemma_key_multiset_from_multiset(bars@, init);
    }
}

} // verus!
