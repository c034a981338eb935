//! # StdOrdering
//!
//! The ordering of a type that has a total order in the standard library.
use vstd::prelude::*;
use core::cmp::Ordering;
use std::marker::PhantomData;
use vstd::std_specs::cmp::OrdSpec;
use crate::modifier_ordering::{CompleteOrdering, ModifierOrdering, Order};

verus! {

/// The comparison result of the standard library as an [`Order`].
pub open spec fn order_of(o: Ordering) -> Order {
    match o {
        Ordering::Less => Order::Less,
        Ordering::Equal => Order::Equal,
        Ordering::Greater => Order::Greater,
    }
}

/// # StdOrdering
/// Standard ordering defined by the rust standard library.
pub struct StdOrdering<T: Ord> {
    marker: PhantomData<T>,
}

impl<T: Ord> ModifierOrdering<T> for StdOrdering<T> {
    open spec fn sorts_stably() -> bool {
        true
    }

    open spec fn obeys_order() -> bool {
        T::obeys_cmp_spec()
    }

    open spec fn order_spec(a: T, b: T) -> Order {
        order_of(a.cmp_spec(&b))
    }

    fn order(a: &T, b: &T) -> (r: Order)
        ensures
            T::obeys_cmp_spec() ==> r == order_of(a.cmp_spec(b)),
    {
        match a.cmp(b) {
            Ordering::Less => Order::Less,
            Ordering::Equal => Order::Equal,
            Ordering::Greater => Order::Greater,
        }
    }
}

impl<T: Ord> CompleteOrdering for StdOrdering<T> {}

} // verus!
