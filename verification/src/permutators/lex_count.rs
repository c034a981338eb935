//! # Counting the lexicographic permutations
//!
//! Each arrangement of distinct elements has a position in lexicographic order, its rank. Every
//! step of the lexicographic permutator raises the rank by one, the first arrangement (the
//! ascending one) has rank 0 and the last one (the descending one) has rank `n! - 1`, so the
//! permutator returns `n!` arrangements, each once, and then stops.
use vstd::prelude::*;
use crate::modifier_ordering::{CompleteOrdering, ModifierOrdering, Order};
use crate::permutators::lexicographic::{
    last_above, last_ascent, lemma_last_above, lemma_last_ascent, lemma_lex_no_repeat, lemma_lex_step_advances,
    lex_before, lex_iter, lex_step, strict_before, LexicographicPermutator,
};
use crate::permutators::{clones_of, consistent, lemma_swap_multiset, sorted_from, swapped, Permutator};

verus! {

broadcast use {vstd::seq_lib::group_to_multiset_ensures, vstd::multiset::group_multiset_axioms};

/// `n!`, the number of arrangements of `n` distinct elements.
pub open spec fn factorial(n: nat) -> nat
    decreases n,
{
    if n == 0 {
        1
    } else {
        n * factorial((n - 1) as nat)
    }
}

/// Of two different elements, one comes before the other.
pub open spec fn total_before<O: ModifierOrdering<T>, T>() -> bool {
    forall|a: T, b: T|
        #![trigger O::order_spec(a, b), O::order_spec(b, a)]
        a != b ==> O::order_spec(a, b) == Order::Less || O::order_spec(b, a) == Order::Less
}

/// Every element of `s` comes before each element that follows it.
pub open spec fn ascending<O: ModifierOrdering<T>, T>(s: Seq<T>) -> bool {
    forall|i: int, j: int| 0 <= i < j < s.len() ==> O::order_spec(#[trigger] s[i], #[trigger] s[j]) == Order::Less
}

/// Every element of `s` comes after each element that follows it.
pub open spec fn descending<O: ModifierOrdering<T>, T>(s: Seq<T>) -> bool {
    forall|i: int, j: int| 0 <= i < j < s.len() ==> O::order_spec(#[trigger] s[j], #[trigger] s[i]) == Order::Less
}

/// The number of elements of `t` that come before `x`.
pub open spec fn below<O: ModifierOrdering<T>, T>(t: Seq<T>, x: T) -> nat
    decreases t.len(),
{
    if t.len() == 0 {
        0
    } else {
        below::<O, T>(t.drop_last(), x) + if O::order_spec(t.last(), x) == Order::Less {
            1nat
        } else {
            0nat
        }
    }
}

/// The position of `s` among the arrangements of its elements in lexicographic order, counted
/// from 0: for each element, the number of later elements that come before it, weighted by the
/// number of arrangements of the elements after it.
pub open spec fn lex_rank<O: ModifierOrdering<T>, T>(s: Seq<T>) -> nat
    decreases s.len(),
{
    if s.len() == 0 {
        0
    } else {
        below::<O, T>(s.drop_first(), s[0]) * factorial((s.len() - 1) as nat) + lex_rank::<O, T>(s.drop_first())
    }
}

proof fn lemma_below_remove<O: ModifierOrdering<T>, T>(t: Seq<T>, j: int, x: T)
    requires
        0 <= j < t.len(),
    ensures
        below::<O, T>(t, x) == below::<O, T>(t.remove(j), x) + if O::order_spec(t[j], x) == Order::Less {
            1nat
        } else {
            0nat
        },
    decreases t.len(),
{
    if j == t.len() - 1 {
        assert(t.remove(j) =~= t.drop_last());
    } else {
        lemma_below_remove::<O, T>(t.drop_last(), j, x);
        assert(t.remove(j).drop_last() =~= t.drop_last().remove(j));
        assert(t.remove(j).last() == t.last());
    }
}

proof fn lemma_below_multiset<O: ModifierOrdering<T>, T>(a: Seq<T>, b: Seq<T>, x: T)
    requires
        a.to_multiset() == b.to_multiset(),
    ensures
        below::<O, T>(a, x) == below::<O, T>(b, x),
    decreases a.len(),
{
    assert(a.to_multiset().len() == a.len());
    assert(b.to_multiset().len() == b.len());
    if a.len() > 0 {
        let e = a.last();
        assert(a.drop_last().push(e) =~= a);
        assert(a.to_multiset() == a.drop_last().to_multiset().insert(e));
        assert(b.to_multiset().count(e) > 0);
        assert(b.contains(e));
        let j = choose|j: int| 0 <= j < b.len() && b[j] == e;
        assert(b.remove(j).to_multiset() =~= a.drop_last().to_multiset());
        lemma_below_multiset::<O, T>(a.drop_last(), b.remove(j), x);
        lemma_below_remove::<O, T>(b, j, x);
    }
}

proof fn lemma_below_update<O: ModifierOrdering<T>, T>(t: Seq<T>, j: int, a: T, x: T)
    requires
        0 <= j < t.len(),
    ensures
        below::<O, T>(t.update(j, a), x) + (if O::order_spec(t[j], x) == Order::Less {
            1nat
        } else {
            0nat
        }) == below::<O, T>(t, x) + if O::order_spec(a, x) == Order::Less {
            1nat
        } else {
            0nat
        },
{
    lemma_below_remove::<O, T>(t, j, x);
    lemma_below_remove::<O, T>(t.update(j, a), j, x);
    assert(t.update(j, a).remove(j) =~= t.remove(j));
}

proof fn lemma_below_congruent<O: ModifierOrdering<T>, T>(t: Seq<T>, a: T, b: T)
    requires
        forall|i: int|
            0 <= i < t.len() ==> (O::order_spec(#[trigger] t[i], a) == Order::Less) == (O::order_spec(t[i], b)
                == Order::Less),
    ensures
        below::<O, T>(t, a) == below::<O, T>(t, b),
    decreases t.len(),
{
    if t.len() > 0 {
        lemma_below_congruent::<O, T>(t.drop_last(), a, b);
        assert(t.last() == t[t.len() - 1]);
    }
}

proof fn lemma_below_none<O: ModifierOrdering<T>, T>(t: Seq<T>, x: T)
    requires
        forall|i: int| 0 <= i < t.len() ==> O::order_spec(#[trigger] t[i], x) != Order::Less,
    ensures
        below::<O, T>(t, x) == 0,
    decreases t.len(),
{
    if t.len() > 0 {
        lemma_below_none::<O, T>(t.drop_last(), x);
        assert(t.last() == t[t.len() - 1]);
    }
}

proof fn lemma_below_all<O: ModifierOrdering<T>, T>(t: Seq<T>, x: T)
    requires
        forall|i: int| 0 <= i < t.len() ==> O::order_spec(#[trigger] t[i], x) == Order::Less,
    ensures
        below::<O, T>(t, x) == t.len(),
    decreases t.len(),
{
    if t.len() > 0 {
        lemma_below_all::<O, T>(t.drop_last(), x);
        assert(t.last() == t[t.len() - 1]);
    }
}

proof fn lemma_below_bound<O: ModifierOrdering<T>, T>(t: Seq<T>, x: T)
    ensures
        below::<O, T>(t, x) <= t.len(),
    decreases t.len(),
{
    if t.len() > 0 {
        lemma_below_bound::<O, T>(t.drop_last(), x);
    }
}

/// In a descending sequence, the element at position `i` has the `m - 1 - i` elements after it
/// and before position `m` below it.
proof fn lemma_below_descending<O: ModifierOrdering<T>, T>(t: Seq<T>, i: int, m: int)
    requires
        strict_before::<O, T>(),
        descending::<O, T>(t),
        0 <= i < t.len(),
        0 <= m <= t.len(),
    ensures
        below::<O, T>(t.take(m), t[i]) == if m > i + 1 {
            m - 1 - i
        } else {
            0
        },
    decreases m,
{
    if m > 0 {
        lemma_below_descending::<O, T>(t, i, m - 1);
        assert(t.take(m).drop_last() =~= t.take(m - 1));
        assert(t.take(m).last() == t[m - 1]);
        if m - 1 < i {
            assert(O::order_spec(t[i], t[m - 1]) == Order::Less);
            if O::order_spec(t[m - 1], t[i]) == Order::Less {
                assert(O::order_spec(t[i], t[i]) == Order::Less);
            }
        } else if m - 1 == i {
            assert(O::order_spec(t[i], t[i]) != Order::Less);
        } else {
            assert(O::order_spec(t[m - 1], t[i]) == Order::Less);
        }
    }
}

/// The rank of an arrangement of `n` elements is below `n!`.
proof fn lemma_rank_bound<O: ModifierOrdering<T>, T>(s: Seq<T>)
    ensures
        lex_rank::<O, T>(s) < factorial(s.len()),
    decreases s.len(),
{
    if s.len() > 0 {
        let n = s.len();
        let t = s.drop_first();
        let f = factorial((n - 1) as nat);
        let b = below::<O, T>(t, s[0]);
        let r = lex_rank::<O, T>(t);
        lemma_below_bound::<O, T>(t, s[0]);
        lemma_rank_bound::<O, T>(t);
        assert(b * f + r < n * f) by (nonlinear_arith)
            requires
                b + 1 <= n,
                r < f,
        ;
    }
}

/// An ascending arrangement has rank 0.
proof fn lemma_rank_ascending<O: ModifierOrdering<T>, T>(s: Seq<T>)
    requires
        strict_before::<O, T>(),
        ascending::<O, T>(s),
    ensures
        lex_rank::<O, T>(s) == 0,
    decreases s.len(),
{
    if s.len() > 0 {
        let t = s.drop_first();
        assert forall|i: int| 0 <= i < t.len() implies O::order_spec(#[trigger] t[i], s[0]) != Order::Less by {
            assert(O::order_spec(s[0], s[i + 1]) == Order::Less);
            if O::order_spec(t[i], s[0]) == Order::Less {
                assert(O::order_spec(s[0], s[0]) == Order::Less);
            }
        }
        lemma_below_none::<O, T>(t, s[0]);
        assert forall|i: int, j: int| 0 <= i < j < t.len() implies O::order_spec(#[trigger] t[i], #[trigger] t[j])
            == Order::Less by {
            assert(O::order_spec(s[i + 1], s[j + 1]) == Order::Less);
        }
        lemma_rank_ascending::<O, T>(t);
    }
}

/// A descending arrangement of `n` elements has rank `n! - 1`.
proof fn lemma_rank_descending<O: ModifierOrdering<T>, T>(s: Seq<T>)
    requires
        strict_before::<O, T>(),
        descending::<O, T>(s),
    ensures
        lex_rank::<O, T>(s) + 1 == factorial(s.len()),
    decreases s.len(),
{
    if s.len() > 0 {
        let t = s.drop_first();
        assert forall|i: int| 0 <= i < t.len() implies O::order_spec(#[trigger] t[i], s[0]) == Order::Less by {
            assert(O::order_spec(s[i + 1], s[0]) == Order::Less);
        }
        lemma_below_all::<O, T>(t, s[0]);
        assert forall|i: int, j: int| 0 <= i < j < t.len() implies O::order_spec(#[trigger] t[j], #[trigger] t[i])
            == Order::Less by {
            assert(O::order_spec(s[j + 1], s[i + 1]) == Order::Less);
        }
        lemma_rank_descending::<O, T>(t);
        let m = t.len();
        let f = factorial(m);
        assert(m * f + f == (m + 1) * f) by (nonlinear_arith);
    }
}

/// Two arrangements of equal length that agree on their first `k` elements and hold the same
/// elements after them differ in rank as their parts after position `k` do.
proof fn lemma_rank_prefix<O: ModifierOrdering<T>, T>(s: Seq<T>, r: Seq<T>, k: int)
    requires
        0 <= k <= s.len(),
        s.len() == r.len(),
        s.take(k) == r.take(k),
        s.skip(k).to_multiset() == r.skip(k).to_multiset(),
    ensures
        lex_rank::<O, T>(s) - lex_rank::<O, T>(s.skip(k)) == lex_rank::<O, T>(r) - lex_rank::<O, T>(r.skip(k)),
    decreases k,
{
    if k == 0 {
        assert(s.skip(0) =~= s);
        assert(r.skip(0) =~= r);
    } else {
        let s1 = s.drop_first();
        let r1 = r.drop_first();
        assert(s[0] == s.take(k)[0]);
        assert(r[0] == r.take(k)[0]);
        assert(s1.take(k - 1) =~= s.take(k).drop_first());
        assert(r1.take(k - 1) =~= r.take(k).drop_first());
        assert(s1.skip(k - 1) =~= s.skip(k));
        assert(r1.skip(k - 1) =~= r.skip(k));
        lemma_rank_prefix::<O, T>(s1, r1, k - 1);
        assert(s1 =~= s1.take(k - 1) + s1.skip(k - 1));
        assert(r1 =~= r1.take(k - 1) + r1.skip(k - 1));
        vstd::seq_lib::lemma_multiset_commutative(s1.take(k - 1), s1.skip(k - 1));
        vstd::seq_lib::lemma_multiset_commutative(r1.take(k - 1), r1.skip(k - 1));
        lemma_below_multiset::<O, T>(s1, r1, s[0]);
    }
}

/// Where each element comes after the one that follows it, the sequence is descending.
proof fn lemma_descending_chain<O: ModifierOrdering<T>, T>(t: Seq<T>)
    requires
        strict_before::<O, T>(),
        forall|p: int, q: int|
            0 <= p && q == p + 1 && q < t.len() ==> O::order_spec(#[trigger] t[q], #[trigger] t[p]) == Order::Less,
    ensures
        descending::<O, T>(t),
    decreases t.len(),
{
    if t.len() > 1 {
        let t1 = t.drop_first();
        assert forall|p: int, q: int| 0 <= p && q == p + 1 && q < t1.len() implies O::order_spec(
            #[trigger] t1[q],
            #[trigger] t1[p],
        ) == Order::Less by {
            assert(O::order_spec(t[q + 1], t[p + 1]) == Order::Less);
        }
        lemma_descending_chain::<O, T>(t1);
        assert forall|i: int, j: int| 0 <= i < j < t.len() implies O::order_spec(#[trigger] t[j], #[trigger] t[i])
            == Order::Less by {
            if i == 0 {
                assert(O::order_spec(t[1], t[0]) == Order::Less);
                if j > 1 {
                    assert(O::order_spec(t1[j - 1], t1[0]) == Order::Less);
                }
            } else {
                assert(O::order_spec(t1[j - 1], t1[i - 1]) == Order::Less);
            }
        }
    }
}

/// No element after position `k` (where `last_ascent` stops) comes before the next one, or none
/// at all where it finds nothing.
proof fn lemma_no_ascent_after<O: ModifierOrdering<T>, T>(s: Seq<T>, m: int)
    ensures
        forall|p: int, q: int|
            0 <= p && q == p + 1 && q <= m && q < s.len() && (last_ascent::<O, T>(s, m) matches Some(k) ==> k < p)
                ==> O::order_spec(#[trigger] s[p], #[trigger] s[q]) != Order::Less,
    decreases m,
{
    if m > 0 {
        lemma_no_ascent_after::<O, T>(s, m - 1);
    }
}

/// No element after the one that `last_above` finds comes after the one at `k`.
proof fn lemma_none_above_after<O: ModifierOrdering<T>, T>(s: Seq<T>, k: int, m: int)
    ensures
        forall|j: int| last_above::<O, T>(s, k, m) < j < m ==> O::order_spec(s[k], #[trigger] s[j]) != Order::Less,
    decreases m - k,
{
    if m > k + 1 && O::order_spec(s[k], s[m - 1]) != Order::Less {
        lemma_none_above_after::<O, T>(s, k, m - 1);
    }
}

/// Where no element of a sequence of distinct elements comes before the next one, the
/// sequence is descending.
proof fn lemma_no_ascent_descending<O: ModifierOrdering<T>, T>(t: Seq<T>, k: int)
    requires
        strict_before::<O, T>(),
        total_before::<O, T>(),
        t.no_duplicates(),
        -1 <= k < t.len(),
        forall|p: int, q: int|
            k < p && q == p + 1 && q < t.len() ==> O::order_spec(#[trigger] t[p], #[trigger] t[q]) != Order::Less,
    ensures
        descending::<O, T>(t.skip(k + 1)),
{
    let u = t.skip(k + 1);
    assert forall|p: int, q: int| 0 <= p && q == p + 1 && q < u.len() implies O::order_spec(
        #[trigger] u[q],
        #[trigger] u[p],
    ) == Order::Less by {
        assert(O::order_spec(t[p + k + 1], t[q + k + 1]) != Order::Less);
        assert(t[p + k + 1] != t[q + k + 1]);
        assert(O::order_spec(t[q + k + 1], t[p + k + 1]) == Order::Less || O::order_spec(t[p + k + 1], t[q + k + 1])
            == Order::Less);
    }
    lemma_descending_chain::<O, T>(u);
}

/// The rank rises by one in the step on the part from the last ascent on: `u[0]` is exchanged
/// with `u[p]`, the last element after it that comes after it, and the rest, which descends, is
/// reversed.
#[verifier::spinoff_prover]
proof fn lemma_rank_next<O: ModifierOrdering<T>, T>(u: Seq<T>, p: int)
    requires
        strict_before::<O, T>(),
        total_before::<O, T>(),
        u.no_duplicates(),
        1 <= p < u.len(),
        O::order_spec(u[0], u[p]) == Order::Less,
        descending::<O, T>(u.drop_first()),
        forall|j: int| p < j < u.len() ==> O::order_spec(u[0], #[trigger] u[j]) != Order::Less,
    ensures
        ({
            let v = swapped(u, 0, p);
            lex_rank::<O, T>(v.take(1) + v.skip(1).reverse()) == lex_rank::<O, T>(u) + 1
        }),
{
    let n = u.len();
    let u1 = u.drop_first();
    let v = swapped(u, 0, p);
    let v1 = v.skip(1);
    let w = v.take(1) + v1.reverse();
    let f = factorial((n - 1) as nat);
    assert(v1 =~= u1.update(p - 1, u[0]));
    // an element after position p comes before u[0]
    assert forall|j: int| p < j < n implies O::order_spec(#[trigger] u[j], u[0]) == Order::Less by {
        assert(O::order_spec(u[0], u[j]) != Order::Less);
        assert(u[j] != u[0]);
        assert(O::order_spec(u[j], u[0]) == Order::Less || O::order_spec(u[0], u[j]) == Order::Less);
    }
    assert forall|i: int, j: int| 0 <= i < j < v1.len() implies O::order_spec(#[trigger] v1[j], #[trigger] v1[i])
        == Order::Less by {
        if i + 1 == p {
            assert(O::order_spec(u[j + 1], u[0]) == Order::Less);
        } else if j + 1 == p {
            assert(O::order_spec(u1[p - 1], u1[i]) == Order::Less);
            assert(O::order_spec(u[0], u[p]) == Order::Less);
        } else {
            assert(O::order_spec(u1[j], u1[i]) == Order::Less);
        }
    }
    let vr = v1.reverse();
    assert forall|i: int, j: int| 0 <= i < j < vr.len() implies O::order_spec(#[trigger] vr[i], #[trigger] vr[j])
        == Order::Less by {
        assert(O::order_spec(v1[vr.len() - 1 - i], v1[vr.len() - 1 - j]) == Order::Less);
    }
    lemma_rank_ascending::<O, T>(vr);
    lemma_rank_descending::<O, T>(u1);
    assert(w.drop_first() =~= vr);
    assert(w[0] == u[p]);
    v1.lemma_reverse_to_multiset();
    lemma_below_multiset::<O, T>(vr, v1, u[p]);
    lemma_below_update::<O, T>(u1, p - 1, u[0], u[p]);
    assert(O::order_spec(u[p], u[p]) != Order::Less);
    assert forall|i: int| 0 <= i < u1.len() implies (O::order_spec(#[trigger] u1[i], u[p]) == Order::Less) == (
    O::order_spec(u1[i], u[0]) == Order::Less) by {
        let q = i + 1;
        if q < p {
            assert(O::order_spec(u1[p - 1], u1[i]) == Order::Less);
            if O::order_spec(u[q], u[p]) == Order::Less {
                assert(O::order_spec(u[p], u[p]) == Order::Less);
            }
            assert(O::order_spec(u[0], u[q]) == Order::Less);
            if O::order_spec(u[q], u[0]) == Order::Less {
                assert(O::order_spec(u[0], u[0]) == Order::Less);
            }
        } else if q == p {
            if O::order_spec(u[p], u[0]) == Order::Less {
                assert(O::order_spec(u[0], u[0]) == Order::Less);
            }
        } else {
            assert(O::order_spec(u[q], u[0]) == Order::Less);
            assert(O::order_spec(u[q], u[p]) == Order::Less);
        }
    }
    lemma_below_congruent::<O, T>(u1, u[p], u[0]);
    let b = below::<O, T>(u1, u[0]);
    assert((b + 1) * f == b * f + f) by (nonlinear_arith);
}

/// The part of a lexicographic step from position `k` on: with `u` the part of `s` from `k`,
/// the step leaves the elements before `k` and makes of `u` the exchange of `u[0]` and
/// `u[l - k]`, with the rest after position 0 reversed, which holds the elements of `u`.
proof fn lemma_step_suffix<T>(s: Seq<T>, k: int, l: int)
    requires
        0 <= k < l < s.len(),
    ensures
        ({
            let sw = swapped(s, k, l);
            let r = sw.take(k + 1) + sw.skip(k + 1).reverse();
            let v = swapped(s.skip(k), 0, l - k);
            let w = v.take(1) + v.skip(1).reverse();
            &&& r.len() == s.len()
            &&& r.skip(k) == w
            &&& r.take(k) == s.take(k)
            &&& w.to_multiset() == s.skip(k).to_multiset()
        }),
{
    let u = s.skip(k);
    let sw = swapped(s, k, l);
    let r = sw.take(k + 1) + sw.skip(k + 1).reverse();
    let v = swapped(u, 0, l - k);
    let w = v.take(1) + v.skip(1).reverse();
    assert(r.skip(k) =~= w);
    assert(r.take(k) =~= s.take(k));
    lemma_swap_multiset(u, 0, l - k);
    v.skip(1).lemma_reverse_to_multiset();
    assert(v =~= v.take(1) + v.skip(1));
    vstd::seq_lib::lemma_multiset_commutative(v.take(1), v.skip(1));
    vstd::seq_lib::lemma_multiset_commutative(v.take(1), v.skip(1).reverse());
}

/// Every lexicographic step raises the rank by one.
#[verifier::spinoff_prover]
proof fn lemma_rank_step<O: ModifierOrdering<T>, T>(s: Seq<T>)
    requires
        strict_before::<O, T>(),
        total_before::<O, T>(),
        s.no_duplicates(),
        lex_step::<O, T>(s) is Some,
    ensures
        lex_rank::<O, T>(lex_step::<O, T>(s)->Some_0) == lex_rank::<O, T>(s) + 1,
{
    let n = s.len() as int;
    lemma_last_ascent::<O, T>(s, n);
    let k = last_ascent::<O, T>(s, n)->Some_0;
    lemma_last_above::<O, T>(s, k, n);
    let l = last_above::<O, T>(s, k, n);
    let u = s.skip(k);
    assert(descending::<O, T>(u.drop_first())) by {
        lemma_no_ascent_after::<O, T>(s, n);
        lemma_no_ascent_descending::<O, T>(s, k);
        assert(u.drop_first() =~= s.skip(k + 1));
    }
    assert forall|j: int| l - k < j < u.len() implies O::order_spec(u[0], #[trigger] u[j]) != Order::Less by {
        lemma_none_above_after::<O, T>(s, k, n);
        assert(O::order_spec(s[k], s[j + k]) != Order::Less);
    }
    assert(u.no_duplicates());
    lemma_rank_next::<O, T>(u, l - k);
    lemma_step_suffix(s, k, l);
    let sw = swapped(s, k, l);
    let r = sw.take(k + 1) + sw.skip(k + 1).reverse();
    assert(r == lex_step::<O, T>(s)->Some_0);
    lemma_rank_prefix::<O, T>(s, r, k);
}

/// Elements kept, distinctness kept.
proof fn lemma_no_duplicates_kept<T>(a: Seq<T>, b: Seq<T>)
    requires
        a.no_duplicates(),
        a.to_multiset() == b.to_multiset(),
    ensures
        b.no_duplicates(),
{
    a.lemma_multiset_has_no_duplicates();
    b.lemma_multiset_has_no_duplicates_conv();
}

/// Where no lexicographic step is left, the sequence is descending.
proof fn lemma_last_is_descending<O: ModifierOrdering<T>, T>(t: Seq<T>)
    requires
        strict_before::<O, T>(),
        total_before::<O, T>(),
        t.no_duplicates(),
        lex_step::<O, T>(t) is None,
    ensures
        descending::<O, T>(t),
{
    lemma_no_ascent_after::<O, T>(t, t.len() as int);
    lemma_no_ascent_descending::<O, T>(t, -1);
    assert(t.skip(0) =~= t);
}

/// The first `i + 1` arrangements exist, where `i` is below `n!`, and the one after `i` steps
/// has rank `i` and the elements of the start.
proof fn lemma_iter_rank<O: ModifierOrdering<T>, T>(s: Seq<T>, i: nat)
    requires
        strict_before::<O, T>(),
        total_before::<O, T>(),
        s.no_duplicates(),
        ascending::<O, T>(s),
        i < factorial(s.len()),
    ensures
        lex_iter::<O, T>(s, i) is Some,
        lex_rank::<O, T>(lex_iter::<O, T>(s, i)->Some_0) == i,
        lex_iter::<O, T>(s, i)->Some_0.to_multiset() == s.to_multiset(),
        lex_iter::<O, T>(s, i)->Some_0.len() == s.len(),
        lex_iter::<O, T>(s, i)->Some_0.no_duplicates(),
    decreases i,
{
    if i == 0 {
        lemma_rank_ascending::<O, T>(s);
    } else {
        lemma_iter_rank::<O, T>(s, (i - 1) as nat);
        let t = lex_iter::<O, T>(s, (i - 1) as nat)->Some_0;
        if lex_step::<O, T>(t) is None {
            lemma_last_is_descending::<O, T>(t);
            lemma_rank_descending::<O, T>(t);
        }
        lemma_rank_step::<O, T>(t);
        lemma_lex_step_advances::<O, T>(t);
        lemma_no_duplicates_kept(t, lex_step::<O, T>(t)->Some_0);
    }
}

/// Two descending sequences with the same elements, all distinct, are equal.
proof fn lemma_descending_unique<O: ModifierOrdering<T>, T>(a: Seq<T>, b: Seq<T>)
    requires
        strict_before::<O, T>(),
        descending::<O, T>(a),
        descending::<O, T>(b),
        a.to_multiset() == b.to_multiset(),
    ensures
        a == b,
{
    assert(a.to_multiset().len() == a.len());
    assert(b.to_multiset().len() == b.len());
    assert(a.take(a.len() as int) =~= a);
    assert(b.take(b.len() as int) =~= b);
    assert forall|i: int| 0 <= i < a.len() implies a[i] == b[i] by {
        assert(a.to_multiset().count(a[i]) > 0);
        assert(b.contains(a[i]));
        let j = choose|j: int| 0 <= j < b.len() && b[j] == a[i];
        lemma_below_descending::<O, T>(a, i, a.len() as int);
        lemma_below_descending::<O, T>(b, j, b.len() as int);
        lemma_below_multiset::<O, T>(a, b, a[i]);
    }
    assert(a =~= b);
}

/// # Enumeration by the lexicographic permutator
/// Started on `n` distinct elements in ascending order, under an order in which "comes before"
/// is strict and of two different elements one comes before the other, the lexicographic steps
/// give `n!` arrangements, counted from the start: each holds the elements of the start, each
/// comes before the next in lexicographic order (so no two are equal), the last is the start
/// reversed, and after it there is no further step.
#[verifier::spinoff_prover]
pub proof fn lemma_lex_enumeration<O: ModifierOrdering<T>, T>(s: Seq<T>)
    requires
        strict_before::<O, T>(),
        total_before::<O, T>(),
        s.no_duplicates(),
        ascending::<O, T>(s),
    ensures
        forall|i: nat|
            i < factorial(s.len()) ==> {
                &&& #[trigger] lex_iter::<O, T>(s, i) is Some
                &&& lex_iter::<O, T>(s, i)->Some_0.to_multiset() == s.to_multiset()
                &&& lex_iter::<O, T>(s, i)->Some_0.len() == s.len()
            },
        forall|i: nat, j: nat|
            i < j < factorial(s.len()) ==> lex_before::<O, T>(
                #[trigger] lex_iter::<O, T>(s, i)->Some_0,
                #[trigger] lex_iter::<O, T>(s, j)->Some_0,
            ) && lex_iter::<O, T>(s, i) != lex_iter::<O, T>(s, j),
        lex_iter::<O, T>(s, 0) == Some(s),
        lex_iter::<O, T>(s, (factorial(s.len()) - 1) as nat) == Some(s.reverse()),
        lex_iter::<O, T>(s, factorial(s.len())) is None,
{
    let n = s.len();
    let f = factorial(n);
    lemma_rank_bound::<O, T>(s);
    assert forall|i: nat| i < f implies {
        &&& #[trigger] lex_iter::<O, T>(s, i) is Some
        &&& lex_iter::<O, T>(s, i)->Some_0.to_multiset() == s.to_multiset()
        &&& lex_iter::<O, T>(s, i)->Some_0.len() == s.len()
    } by {
        lemma_iter_rank::<O, T>(s, i);
    }
    assert forall|i: nat, j: nat| i < j < f implies lex_before::<O, T>(
        #[trigger] lex_iter::<O, T>(s, i)->Some_0,
        #[trigger] lex_iter::<O, T>(s, j)->Some_0,
    ) && lex_iter::<O, T>(s, i) != lex_iter::<O, T>(s, j) by {
        lemma_iter_rank::<O, T>(s, j);
        lemma_lex_no_repeat::<O, T>(s, i, j);
    }
    let last = (f - 1) as nat;
    lemma_iter_rank::<O, T>(s, last);
    let t = lex_iter::<O, T>(s, last)->Some_0;
    if lex_step::<O, T>(t) is Some {
        lemma_rank_step::<O, T>(t);
        lemma_lex_step_advances::<O, T>(t);
        lemma_rank_bound::<O, T>(lex_step::<O, T>(t)->Some_0);
    }
    assert(lex_iter::<O, T>(s, f) is None);
    lemma_last_is_descending::<O, T>(t);
    let sr = s.reverse();
    assert forall|i: int, j: int| 0 <= i < j < sr.len() implies O::order_spec(#[trigger] sr[j], #[trigger] sr[i])
        == Order::Less by {
        assert(O::order_spec(s[n - 1 - j], s[n - 1 - i]) == Order::Less);
    }
    s.lemma_reverse_to_multiset();
    lemma_descending_unique::<O, T>(t, sr);
}

/// The ordering compares by its specification; "comes before" is a strict order in which, of
/// two different elements, one comes before the other; and an element comes after another
/// exactly where the other comes before it.
pub open spec fn strict_total<O: ModifierOrdering<T>, T>() -> bool {
    &&& O::obeys_order()
    &&& strict_before::<O, T>()
    &&& total_before::<O, T>()
    &&& forall|a: T, b: T|
        #![trigger O::order_spec(a, b), O::order_spec(b, a)]
        (O::order_spec(a, b) == Order::Greater) == (O::order_spec(b, a) == Order::Less)
}

/// Under such an order, sorting distinct elements makes them ascend.
#[verifier::spinoff_prover]
proof fn lemma_sorted_ascending<O: ModifierOrdering<T>, T>(d: Seq<T>, input: Seq<T>)
    requires
        strict_total::<O, T>(),
        input.no_duplicates(),
        sorted_from::<O, T>(d, input),
    ensures
        ascending::<O, T>(d),
        d.no_duplicates(),
{
    assert forall|a: T, b: T| #[trigger] O::order_spec(a, b) == Order::Greater implies O::order_spec(b, a)
        != Order::Greater by {
        assert(O::order_spec(b, a) == Order::Less);
        if O::order_spec(b, a) == Order::Greater {
            assert(O::order_spec(a, b) == Order::Less);
        }
    }
    assert forall|a: T, b: T, c: T|
        #[trigger] O::order_spec(a, b) != Order::Greater && #[trigger] O::order_spec(b, c) != Order::Greater implies O::order_spec(a, c)
        != Order::Greater by {
        assert((O::order_spec(b, a) == Order::Less) == (O::order_spec(a, b) == Order::Greater));
        assert((O::order_spec(c, b) == Order::Less) == (O::order_spec(b, c) == Order::Greater));
        assert((O::order_spec(c, a) == Order::Less) == (O::order_spec(a, c) == Order::Greater));
        if a != b && b != c && a != c {
            assert(O::order_spec(a, b) == Order::Less || O::order_spec(b, a) == Order::Less);
            assert(O::order_spec(b, c) == Order::Less || O::order_spec(c, b) == Order::Less);
            if O::order_spec(c, a) == Order::Less {
                assert(O::order_spec(a, c) == Order::Less);
            }
        } else if a == c {
            assert(O::order_spec(a, a) != Order::Less);
        }
    }
    assert(consistent::<O, T>());
    lemma_no_duplicates_kept(input, d);
    assert forall|i: int, j: int| 0 <= i < j < d.len() implies O::order_spec(#[trigger] d[i], #[trigger] d[j])
        == Order::Less by {
        assert(O::order_spec(d[i], d[j]) != Order::Greater);
        assert((O::order_spec(d[j], d[i]) == Order::Less) == (O::order_spec(d[i], d[j]) == Order::Greater));
        assert(d[i] != d[j]);
        assert(O::order_spec(d[i], d[j]) == Order::Less || O::order_spec(d[j], d[i]) == Order::Less);
    }
}

/// The state after `i` calls of `next`, and what the last of them returned.
proof fn lemma_lex_run_state<O: ModifierOrdering<T> + CompleteOrdering, T: Clone>(
    input: Seq<T>,
    states: Seq<LexicographicPermutator<O, T>>,
    outs: Seq<Option<Vec<T>>>,
    i: int,
)
    requires
        strict_total::<O, T>(),
        input.no_duplicates(),
        states.len() == outs.len() + 1,
        states[0].initial(input),
        forall|k: int| 0 <= k < outs.len() ==> states[k].transition(states[k + 1], #[trigger] outs[k]),
        1 <= i <= outs.len(),
    ensures
        !states[i].at_start(),
        ({
            let d = states[0].data_view();
            let f = factorial(d.len());
            &&& i - 1 < f ==> states[i].data_view() == lex_iter::<O, T>(d, (i - 1) as nat)->Some_0
                && clones_of(outs[i - 1], lex_iter::<O, T>(d, (i - 1) as nat))
            &&& i - 1 >= f ==> states[i].data_view() == lex_iter::<O, T>(d, (f - 1) as nat)->Some_0
                && outs[i - 1] is None
        }),
    decreases i,
{
    let d = states[0].data_view();
    let f = factorial(d.len());
    lemma_sorted_ascending::<O, T>(d, input);
    lemma_lex_enumeration::<O, T>(d);
    assert(states[i - 1].transition(states[i], outs[i - 1]));
    if i > 1 {
        lemma_lex_run_state::<O, T>(input, states, outs, i - 1);
        if i - 1 < f {
            assert(lex_iter::<O, T>(d, (i - 2) as nat) is Some);
            assert(lex_iter::<O, T>(d, (i - 1) as nat) is Some);
        } else {
            assert(lex_iter::<O, T>(d, (f - 1) as nat) is Some);
            assert(lex_iter::<O, T>(d, f) is None);
        }
    }
}

/// # The outputs of the lexicographic permutator
/// A run of the permutator on distinct elements, under an order as `strict_total` describes:
/// `states[0]` is what `new` made of `input`, and the call of `next` on `states[i]` left
/// `states[i + 1]` and returned `outs[i]`. Then `new` sorted the input into ascending order, the
/// `i`-th output, for `i` below `n!`, is a clone of the arrangement after `i` lexicographic steps
/// from it, and every later output is `None`. By `lemma_lex_enumeration`, these are `n!`
/// arrangements of the input in increasing lexicographic order, each once, from the sorted
/// input to its reverse.
pub proof fn lemma_lex_run<O: ModifierOrdering<T> + CompleteOrdering, T: Clone>(
    input: Seq<T>,
    states: Seq<LexicographicPermutator<O, T>>,
    outs: Seq<Option<Vec<T>>>,
)
    requires
        strict_total::<O, T>(),
        input.no_duplicates(),
        states.len() == outs.len() + 1,
        states[0].initial(input),
        forall|i: int| 0 <= i < outs.len() ==> states[i].transition(states[i + 1], #[trigger] outs[i]),
    ensures
        ascending::<O, T>(states[0].data_view()),
        states[0].data_view().to_multiset() == input.to_multiset(),
        forall|i: int|
            0 <= i < outs.len() && i < factorial(input.len()) ==> clones_of(
                #[trigger] outs[i],
                lex_iter::<O, T>(states[0].data_view(), i as nat),
            ),
        forall|i: int| factorial(input.len()) <= i < outs.len() ==> #[trigger] outs[i] is None,
{
    lemma_sorted_ascending::<O, T>(states[0].data_view(), input);
    assert forall|i: int| 0 <= i < outs.len() && i < factorial(input.len()) implies clones_of(
        #[trigger] outs[i],
        lex_iter::<O, T>(states[0].data_view(), i as nat),
    ) by {
        lemma_lex_run_state::<O, T>(input, states, outs, i + 1);
    }
    assert forall|i: int| factorial(input.len()) <= i < outs.len() implies #[trigger] outs[i] is None by {
        lemma_lex_run_state::<O, T>(input, states, outs, i + 1);
    }
}

} // verus!
