//! # Random Modifier Ordering
use vstd::prelude::*;
use rand::seq::SliceRandom;
use std::marker::PhantomData;
use crate::modifier_ordering::{ModifierOrdering, Order};

verus! {

/// Calls `SliceRandom::shuffle` of `rand` with the thread-local generator. The shuffle swaps
/// elements of the slice, so it keeps every element; which permutation comes out is random, so
/// nothing more is stated.
#[verifier::external_body]
fn shuffle<T>(v: &mut Vec<T>)
    ensures
        final(v)@.to_multiset() == old(v)@.to_multiset(),
        final(v)@.len() == old(v)@.len(),
{
    v.shuffle(&mut rand::thread_rng());
}

/// # RandomOrdering
///
/// This returns a random ordering when calling sort. But every item is still treated as equal
/// in terms of ordering.
pub struct RandomOrdering<T> {
    phantom: PhantomData<T>,
}

impl<T> ModifierOrdering<T> for RandomOrdering<T> {
    fn sort(modifiers: &mut Vec<T>) {
        shuffle(modifiers);
    }

    open spec fn sorts_stably() -> bool {
        false
    }

    open spec fn obeys_order() -> bool {
        true
    }

    open spec fn order_spec(a: T, b: T) -> Order {
        Order::Equal
    }

    fn order(a: &T, b: &T) -> (r: Order)
        ensures
            r == Order::Equal,
    {
        Order::Equal
    }
}

} // verus!
