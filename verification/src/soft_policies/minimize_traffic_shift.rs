//! Soft Policy to minimize traffic shifts
use vstd::prelude::*;
use crate::netsim::RouterId;

verus! {

/// The number of positions below `m` at which both tables have a next hop and the next hops
/// differ.
pub open spec fn shifts(old: Seq<Option<RouterId>>, new: Seq<Option<RouterId>>, m: int) -> nat
    decreases m,
{
    if m <= 0 {
        0
    } else {
        shifts(old, new, m - 1) + if old[m - 1] is Some && new[m - 1] is Some && old[m - 1] != new[m - 1] {
            1nat
        } else {
            0nat
        }
    }
}

/// The positions below `m` at which both tables have a next hop and the two differ.
pub open spec fn shifted_positions(old: Seq<Option<RouterId>>, new: Seq<Option<RouterId>>, m: int) -> Set<int> {
    Set::new(|i: int| 0 <= i < m && old[i] is Some && new[i] is Some && old[i] != new[i])
}

/// The number of traffic shifts is the number of positions at which both tables have a next hop
/// and the next hops are different, whatever their IDs; it does not depend on which table is
/// the old one.
pub proof fn lemma_shifts_count(old: Seq<Option<RouterId>>, new: Seq<Option<RouterId>>, m: int)
    requires
        0 <= m,
    ensures
        shifted_positions(old, new, m).finite(),
        shifts(old, new, m) == shifted_positions(old, new, m).len(),
        shifts(old, new, m) == shifts(new, old, m),
    decreases m,
{
    if m == 0 {
        assert(shifted_positions(old, new, 0) =~= Set::<int>::empty());
    } else {
        lemma_shifts_count(old, new, m - 1);
        let p = shifted_positions(old, new, m - 1);
        let q = shifted_positions(old, new, m);
        assert(!p.contains(m - 1));
        if old[m - 1] is Some && new[m - 1] is Some && old[m - 1] != new[m - 1] {
            assert(q =~= p.insert(m - 1));
        } else {
            assert(q =~= p);
        }
    }
}

/// # Soft Policy: Minimize Traffic Shift
///
/// This is a soft policy trying to minimize the number of traffic shifts during reconfiguration.
/// Traffic shifts are counted in the following way: For every router and every prefix, if the next
/// hop changes from the previous state to the current state, then increase the count by 1. The
/// next hops are kept in a table with one entry per device and prefix, at position
/// `device * num_prefixes + prefix`; an entry is `None` where there is no next hop.
#[derive(Clone, Debug)]
pub struct MinimizeTrafficShift {
    current_next_hops: Vec<Option<RouterId>>,
    num_prefixes: usize,
    num_routers: usize,
    num_different: usize,
}

impl MinimizeTrafficShift {
    /// The next hops of the last state.
    pub closed spec fn next_hops_view(&self) -> Seq<Option<RouterId>> {
        self.current_next_hops@
    }

    /// The number of next hops that changed in the last update.
    pub closed spec fn different_view(&self) -> nat {
        self.num_different as nat
    }

    /// The number of routers and of prefixes.
    pub closed spec fn dims(&self) -> (nat, nat) {
        (self.num_routers as nat, self.num_prefixes as nat)
    }

    /// Crates the policy from the next hops of the initial state, for `num_routers` routers and
    /// `num_prefixes` prefixes; nothing has changed yet.
    pub fn new(next_hops: Vec<Option<RouterId>>, num_routers: usize, num_prefixes: usize) -> (r: Self)
        requires
            num_prefixes > 0,
            num_routers > 0,
        ensures
            r.next_hops_view() == next_hops@,
            r.different_view() == 0,
            r.dims() == (num_routers as nat, num_prefixes as nat),
    {
        MinimizeTrafficShift { current_next_hops: next_hops, num_prefixes, num_routers, num_different: 0 }
    }

    /// Takes the next hops of a new state: counts the positions at which both the last and the
    /// new state have a next hop and they differ, and keeps the new next hops.
    pub fn update(&mut self, next_hops: Vec<Option<RouterId>>)
        requires
            next_hops@.len() == old(self).next_hops_view().len(),
        ensures
            final(self).next_hops_view() == next_hops@,
            final(self).different_view() == shifts(old(self).next_hops_view(), next_hops@, next_hops@.len() as int),
            final(self).different_view() == shifted_positions(old(self).next_hops_view(), next_hops@, next_hops@.len() as int).len(),
            final(self).dims() == old(self).dims(),
    {
        let mut count: usize = 0;
        let mut i: usize = 0;
        while i < next_hops.len()
            invariant
                next_hops@.len() == self.current_next_hops@.len(),
                self.current_next_hops@ == old(self).current_next_hops@,
                i <= next_hops@.len(),
                count == shifts(self.current_next_hops@, next_hops@, i as int),
                count <= i,
            decreases next_hops@.len() - i,
        {
            let new_next_hop = next_hops[i];
            let old_next_hop = self.current_next_hops[i];
            if new_next_hop.is_some() && old_next_hop.is_some() && new_next_hop != old_next_hop {
                count += 1;
            }
            i += 1;
        }
        proof {
            lemma_shifts_count(self.current_next_hops@, next_hops@, next_hops@.len() as int);
        }
        self.current_next_hops = next_hops;
        self.num_different = count;
    }

    /// The number of next hops that changed in the last update.
    pub fn num_different(&self) -> (r: usize)
        ensures
            r == self.different_view(),
    {
        self.num_different
    }

    /// The number of entries of the table of next hops.
    pub fn table_len(&self) -> (r: usize)
        ensures
            r == self.next_hops_view().len(),
    {
        self.current_next_hops.len()
    }

    /// The number of routers and of prefixes.
    pub fn dimensions(&self) -> (r: (usize, usize))
        ensures
            (r.0 as nat, r.1 as nat) == self.dims(),
    {
        (self.num_routers, self.num_prefixes)
    }
}

} // verus!
