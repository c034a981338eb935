//! # NoOrdering
//!
//! This represents the unordered ordering
use vstd::prelude::*;
use crate::modifier_ordering::{ModifierOrdering, Order};

verus! {

/// # NoOrdering
///
/// This makes every modifier to be treated equal to any other modifier.
pub struct NoOrdering {}

impl<T> ModifierOrdering<T> for NoOrdering {
    /// Keeps the modifiers as they are.
    fn sort(modifiers: &mut Vec<T>)
        ensures
            final(modifiers)@ == old(modifiers)@,
    {
        proof {
            let n = modifiers@.len();
            let p = Seq::new(n, |i: int| i);
            assert(p.len() == n);
            assert(forall|i: int| 0 <= i < p.len() ==> #[trigger] modifiers@[i] == modifiers@[p[i]]);
        }
    }

    open spec fn sorts_stably() -> bool {
        true
    }

    open spec fn obeys_order() -> bool {
        true
    }

    open spec fn order_spec(a: T, b: T) -> Order {
        Order::Equal
    }

    fn order(a: &T, b: &T) -> (r: Order)
        ensures
            r == Order::Equal,
    {
        Order::Equal
    }
}

} // verus!
