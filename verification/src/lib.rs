//! # Snowcap
//!
//! Synthesizing network-wide configuration updates: the policies that every state of a
//! reconfiguration must satisfy, and the orders in which modifications are tried.
pub mod hard_policies;
pub mod modifier_ordering;
pub mod netsim;
pub mod permutators;
pub mod soft_policies;

use vstd::prelude::*;
use std::sync::{Arc, RwLock};

verus! {

/// The shared flag of a [`Stopper`] is a `std::sync::RwLock`; what it holds is set by other
/// threads, so nothing is known of it here.
#[verifier::external_type_specification]
#[verifier::external_body]
#[verifier::reject_recursive_types(T)]
pub struct ExRwLock<T: ?Sized>(RwLock<T>);

/// Calls `RwLock::new` on `value`. Nothing is stated of the lock, whose contents stay hidden.
#[verifier::external_body]
fn new_lock(value: bool) -> RwLock<bool> {
    RwLock::new(value)
}

/// Calls `RwLock::write` and writes `value` into the flag. It blocks until the write lock is
/// acquired.
#[verifier::external_body]
fn set_flag(flag: &RwLock<bool>, value: bool) {
    *flag.write().unwrap() = value;
}

/// Calls `RwLock::read` and returns the flag. It blocks until the read lock is acquired; what it
/// reads was written by any thread, so nothing is stated of it.
#[verifier::external_body]
fn read_flag(flag: &RwLock<bool>) -> bool {
    *flag.read().unwrap()
}

/// Calls `RwLock::try_read`: `None` if the read lock cannot be acquired at once, else the flag.
/// Whether the lock is free depends on other threads, so nothing is stated of the result.
#[verifier::external_body]
fn try_read_flag(flag: &RwLock<bool>) -> Option<bool> {
    flag.try_read().map(|x| *x).ok()
}

/// Stopper, to check when to stop, or to send the stop command
#[derive(Debug)]
pub struct Stopper {
    b: Arc<RwLock<bool>>,
    c: usize,
}

impl Stopper {
    /// The lock is only tried on every ninth call of `try_is_stop`: the number of calls since the
    /// last try is below nine.
    #[verifier::type_invariant]
    spec fn inv(self) -> bool {
        self.c < 9
    }

    /// The number of calls to `try_is_stop` since the lock was last tried.
    pub closed spec fn calls(&self) -> nat {
        self.c as nat
    }

    /// Create a new stopper
    pub fn new() -> (r: Self)
        ensures
            r.calls() == 0,
    {
        Stopper { b: Arc::new(new_lock(false)), c: 0 }
    }

    /// Send the stop command. This function will block until the write lock can be acquired.
    pub fn send_stop(&self) {
        set_flag(&self.b, true);
    }

    /// Checks if the stop flag is set. This function will not block: the lock is only tried on
    /// every ninth call, and `None` is returned on the others or if the read-lock cannot be
    /// acquired.
    pub fn try_is_stop(&mut self) -> (r: Option<bool>)
        ensures
            old(self).calls() < 8 ==> r is None && final(self).calls() == old(self).calls() + 1,
            old(self).calls() == 8 ==> final(self).calls() == 0,
            final(self).calls() < 9,
    {
        proof {
            use_type_invariant(&*self);
        }
        if self.c + 1 >= 9 {
            self.c = 0;
            try_read_flag(&self.b)
        } else {
            self.c = self.c + 1;
            None
        }
    }

    /// Checks if the stop flag is set. This function will block until the read lock can be
    /// acquired.
    pub fn is_stop(&self) -> bool {
        read_flag(&self.b)
    }
}

impl Clone for Stopper {
    /// A stopper that shares the flag of `self`, with the same count of calls.
    fn clone(&self) -> (r: Self)
        ensures
            r.calls() == self.calls(),
    {
        proof {
            use_type_invariant(self);
        }
        Stopper { b: Arc::clone(&self.b), c: self.c }
    }
}

impl Default for Stopper {
    fn default() -> (r: Self)
        ensures
            r.calls() == 0,
    {
        Stopper::new()
    }
}

/// Index of a value in a table of `n_prefixes` columns.
pub fn get_idx(rid: usize, pid: usize, n_prefixes: usize) -> (r: usize)
    requires
        rid * n_prefixes + pid <= usize::MAX,
    ensures
        r == rid * n_prefixes + pid,
{
    rid * n_prefixes + pid
}

} // verus!
