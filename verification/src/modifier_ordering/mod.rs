//! # ModifierOrdering
//!
//! This module defines different orderings for the modifications of a reconfiguration, and a
//! trait as an interface.
//!
//! Orderings can be [`CompleteOrdering`], which means that the comparison `order(a, b)` only
//! returns [`Order::Equal`] if `a == b`.
pub mod random;
pub mod simple;
pub mod std_order;
pub mod unordered;

pub use random::RandomOrdering;
pub use simple::SimpleOrdering;
pub use std_order::StdOrdering;
pub use unordered::NoOrdering;

use vstd::prelude::*;

verus! {

broadcast use {vstd::seq_lib::group_to_multiset_ensures, vstd::multiset::group_multiset_axioms};

/// The result of comparing two elements.
#[derive(Debug, Clone, Copy, PartialEq, Eq, Structural)]
pub enum Order {
    /// The first element comes before the second
    Less,
    /// Both elements have the same rank
    Equal,
    /// The first element comes after the second
    Greater,
}

/// # ModifierOrdering
/// Trait for defining different orderings, used in `Permutators` and `Strategies`.
pub trait ModifierOrdering<T> {
    /// Whether `order` compares by `order_spec`.
    spec fn obeys_order() -> bool;

    /// How `a` compares to `b`.
    spec fn order_spec(a: T, b: T) -> Order;

    /// Whether `sort` keeps elements that need not move in the order of the input.
    spec fn sorts_stably() -> bool;

    /// Sort a sequence of config modifiers. The elements are kept: the result is a permutation
    /// of the input. Where the order is consistent (an element that comes after another does not
    /// also come before it, and not coming after is transitive), no element of the result comes
    /// after one that follows it. Where the sort is stable, an element that stood after another
    /// in the input is placed before it only where the other comes after it.
    fn sort(modifiers: &mut Vec<T>)
        ensures
            final(modifiers)@.to_multiset() == old(modifiers)@.to_multiset(),
            final(modifiers)@.len() == old(modifiers)@.len(),
            Self::obeys_order() && (forall|a: T, b: T| #[trigger] Self::order_spec(a, b) == Order::Greater ==> Self::order_spec(b, a)
                != Order::Greater) && (forall|a: T, b: T, c: T|
                #[trigger] Self::order_spec(a, b) != Order::Greater && #[trigger] Self::order_spec(b, c)
                    != Order::Greater ==> Self::order_spec(a, c) != Order::Greater) ==> forall|i: int, j: int|
                0 <= i < j < final(modifiers)@.len() ==> Self::order_spec(
                    #[trigger] final(modifiers)@[i],
                    #[trigger] final(modifiers)@[j],
                ) != Order::Greater,
            Self::obeys_order() && Self::sorts_stably() ==> exists|p: Seq<int>|
                {
                    &&& #[trigger] p.len() == old(modifiers)@.len()
                    &&& forall|i: int| 0 <= i < p.len() ==> 0 <= #[trigger] p[i] < p.len()
                    &&& forall|i: int, j: int| 0 <= i < j < p.len() ==> #[trigger] p[i] != #[trigger] p[j]
                    &&& forall|i: int| 0 <= i < p.len() ==> #[trigger] final(modifiers)@[i] == old(modifiers)@[p[i]]
                    &&& forall|i: int, j: int|
                        0 <= i < j < p.len() && #[trigger] p[i] > #[trigger] p[j] ==> Self::order_spec(
                            final(modifiers)@[j],
                            final(modifiers)@[i],
                        ) == Order::Greater
                },
    {
        let ghost laws = Self::obeys_order() && (forall|a: T, b: T| #[trigger] Self::order_spec(a, b) == Order::Greater ==> Self::order_spec(b, a)
                != Order::Greater) && (forall|a: T, b: T, c: T|
                #[trigger] Self::order_spec(a, b) != Order::Greater && #[trigger] Self::order_spec(b, c)
                    != Order::Greater ==> Self::order_spec(a, c) != Order::Greater);
        let ghost input = modifiers@;
        // for each sorted element, its position in the input
        let ghost mut perm: Seq<int> = Seq::empty();
        let mut sorted: Vec<T> = Vec::new();
        while modifiers.len() > 0
            invariant
                sorted@.to_multiset().add(modifiers@.to_multiset()) == old(modifiers)@.to_multiset(),
                sorted@.len() + modifiers@.len() == old(modifiers)@.len(),
                input == old(modifiers)@,
                modifiers@ == input.skip(sorted@.len() as int),
                perm.len() == sorted@.len(),
                forall|i: int| 0 <= i < perm.len() ==> 0 <= #[trigger] perm[i] < perm.len(),
                forall|i: int, j: int| 0 <= i < j < perm.len() ==> #[trigger] perm[i] != #[trigger] perm[j],
                forall|i: int| 0 <= i < perm.len() ==> #[trigger] sorted@[i] == input[perm[i]],
                Self::obeys_order() ==> forall|i: int, j: int|
                    0 <= i < j < perm.len() && #[trigger] perm[i] > #[trigger] perm[j] ==> Self::order_spec(
                        sorted@[j],
                        sorted@[i],
                    ) == Order::Greater,
                laws == (Self::obeys_order() && (forall|a: T, b: T| #[trigger] Self::order_spec(a, b) == Order::Greater ==> Self::order_spec(b, a)
                != Order::Greater) && (forall|a: T, b: T, c: T|
                #[trigger] Self::order_spec(a, b) != Order::Greater && #[trigger] Self::order_spec(b, c)
                    != Order::Greater ==> Self::order_spec(a, c) != Order::Greater)),
                laws ==> forall|i: int, j: int|
                    0 <= i < j < sorted@.len() ==> Self::order_spec(#[trigger] sorted@[i], #[trigger] sorted@[j])
                        != Order::Greater,
            decreases modifiers@.len(),
        {
            let ghost before = modifiers@;
            let ghost sorted_before = sorted@;
            let ghost count = sorted@.len() as int;
            let x = modifiers.remove(0);
            proof {
                vstd::seq_lib::to_multiset_remove(before, 0);
                assert(before.to_multiset().contains(x));
                assert(x == input[count]);
                assert(modifiers@ =~= input.skip(count + 1));
            }
            // insert `x` right after the last element that does not come after it
            let mut pos = sorted.len();
            while pos > 0
                invariant
                    pos <= sorted.len(),
                    sorted@ == sorted_before,
                    laws == (Self::obeys_order() && (forall|a: T, b: T| #[trigger] Self::order_spec(a, b) == Order::Greater ==> Self::order_spec(b, a)
                != Order::Greater) && (forall|a: T, b: T, c: T|
                #[trigger] Self::order_spec(a, b) != Order::Greater && #[trigger] Self::order_spec(b, c)
                    != Order::Greater ==> Self::order_spec(a, c) != Order::Greater)),
                    Self::obeys_order() ==> forall|k: int| pos <= k < sorted_before.len() ==> Self::order_spec(
                        #[trigger] sorted_before[k],
                        x,
                    ) == Order::Greater,
                ensures
                    pos <= sorted.len(),
                    sorted@ == sorted_before,
                    Self::obeys_order() ==> forall|k: int| pos <= k < sorted_before.len() ==> Self::order_spec(
                        #[trigger] sorted_before[k],
                        x,
                    ) == Order::Greater,
                    laws && pos > 0 ==> Self::order_spec(sorted_before[pos - 1], x) != Order::Greater,
                decreases pos,
            {
                if Self::order(&sorted[pos - 1], &x) == Order::Greater {
                    pos = pos - 1;
                } else {
                    break;
                }
            }
            proof {
                if laws && pos > 0 {
                    assert(Self::order_spec(sorted_before[pos - 1], x) != Order::Greater);
                }
            }
            sorted.insert(pos, x);
            proof {
                vstd::seq_lib::to_multiset_insert(sorted_before, pos as int, x);
                assert(sorted@.to_multiset().add(modifiers@.to_multiset()) =~= sorted_before.to_multiset().add(
                    before.to_multiset(),
                ));
                let p = pos as int;
                let t = sorted@;
                assert(t == sorted_before.insert(p, x));
                let perm0 = perm;
                let perm1 = perm0.insert(p, count);
                assert forall|i: int| 0 <= i < perm1.len() implies #[trigger] t[i] == input[perm1[i]] by {
                    if i < p {
                        assert(t[i] == sorted_before[i] && perm1[i] == perm0[i]);
                    } else if i > p {
                        assert(t[i] == sorted_before[i - 1] && perm1[i] == perm0[i - 1]);
                    }
                }
                assert forall|i: int| 0 <= i < perm1.len() implies 0 <= #[trigger] perm1[i] < perm1.len() by {
                    if i < p {
                        assert(perm1[i] == perm0[i]);
                    } else if i > p {
                        assert(perm1[i] == perm0[i - 1]);
                    }
                }
                assert forall|i: int, j: int| 0 <= i < j < perm1.len() implies #[trigger] perm1[i] != #[trigger] perm1[j] by {
                    if i < p && j < p {
                        assert(perm1[i] == perm0[i] && perm1[j] == perm0[j]);
                    } else if i < p && j == p {
                        assert(perm1[i] == perm0[i]);
                    } else if i < p {
                        assert(perm1[i] == perm0[i] && perm1[j] == perm0[j - 1]);
                    } else if i == p {
                        assert(perm1[j] == perm0[j - 1]);
                    } else {
                        assert(perm1[i] == perm0[i - 1] && perm1[j] == perm0[j - 1]);
                    }
                }
                if Self::obeys_order() {
                    assert forall|i: int, j: int|
                        0 <= i < j < perm1.len() && #[trigger] perm1[i] > #[trigger] perm1[j] implies Self::order_spec(
                        t[j],
                        t[i],
                    ) == Order::Greater by {
                        if i < p && j < p {
                            assert(perm1[i] == perm0[i] && perm1[j] == perm0[j]);
                            assert(t[i] == sorted_before[i] && t[j] == sorted_before[j]);
                        } else if i < p && j == p {
                            assert(perm1[i] == perm0[i]);
                        } else if i < p {
                            assert(perm1[i] == perm0[i] && perm1[j] == perm0[j - 1]);
                            assert(t[i] == sorted_before[i] && t[j] == sorted_before[j - 1]);
                        } else if i == p {
                            assert(t[j] == sorted_before[j - 1]);
                        } else {
                            assert(perm1[i] == perm0[i - 1] && perm1[j] == perm0[j - 1]);
                            assert(t[i] == sorted_before[i - 1] && t[j] == sorted_before[j - 1]);
                        }
                    }
                }
                perm = perm1;
                if laws {
                    assert forall|i: int, j: int| 0 <= i < j < t.len() implies Self::order_spec(
                        #[trigger] t[i],
                        #[trigger] t[j],
                    ) != Order::Greater by {
                        if j < p {
                            assert(t[i] == sorted_before[i] && t[j] == sorted_before[j]);
                        } else if j == p {
                            assert(t[i] == sorted_before[i] && t[j] == x);
                            if i < p - 1 {
                                assert(Self::order_spec(sorted_before[i], sorted_before[p - 1]) != Order::Greater);
                            }
                            assert(Self::order_spec(sorted_before[p - 1], x) != Order::Greater);
                        } else if i == p {
                            assert(t[j] == sorted_before[j - 1]);
                            assert(Self::order_spec(sorted_before[j - 1], x) == Order::Greater);
                        } else if i < p {
                            assert(t[i] == sorted_before[i] && t[j] == sorted_before[j - 1]);
                        } else {
                            assert(t[i] == sorted_before[i - 1] && t[j] == sorted_before[j - 1]);
                        }
                    }
                }
            }
        }
        proof {
            assert(modifiers@.to_multiset() =~= vstd::multiset::Multiset::empty());
            assert(sorted@.to_multiset() =~= sorted@.to_multiset().add(modifiers@.to_multiset()));
            if Self::obeys_order() && Self::sorts_stably() {
                assert(perm.len() == input.len());
            }
        }
        std::mem::swap(modifiers, &mut sorted);
    }

    /// Order two config modifiers
    fn order(a: &T, b: &T) -> (r: Order)
        ensures
            Self::obeys_order() ==> r == Self::order_spec(*a, *b),
    ;
}

/// # Complete Ordering
/// This trait should only be implemented by `ModifierOrderings` if all members of the
/// modifiers are compared, and when [`Order::Equal`] is returned only if both modifiers are
/// actually equal.
pub trait CompleteOrdering {}

} // verus!
