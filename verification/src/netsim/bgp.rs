//! # BGP routes and RIB entries
//!
//! The routes that BGP speakers exchange, the entries of their routing information bases, and
//! the events by which routes are announced and withdrawn.
use vstd::prelude::*;
use crate::netsim::{AsId, BgpSessionType, LinkWeight, Prefix, RouterId};

verus! {

/// A BGP route, as a plain value.
pub struct RouteView {
    /// The prefix
    pub prefix: Prefix,
    /// The AS path
    pub as_path: Seq<AsId>,
    /// The next hop
    pub next_hop: RouterId,
    /// The local preference, where it is set
    pub local_pref: Option<u32>,
    /// The MED attribute, where it is set
    pub med: Option<u32>,
    /// The community, where it is set
    pub community: Option<u32>,
}

/// A BGP route
#[derive(Debug)]
pub struct BgpRoute {
    /// IP Prefix
    pub prefix: Prefix,
    /// AS Path, where the origin of the route is last, and the ID of a new AS is prepended.
    pub as_path: Vec<AsId>,
    /// Next Hop for IBGP, used mainly for route reflection
    pub next_hop: RouterId,
    /// Local Preference, used only within the same AS
    pub local_pref: Option<u32>,
    /// Multi-Exit Discriminator
    pub med: Option<u32>,
    /// Community
    pub community: Option<u32>,
}

impl View for BgpRoute {
    type V = RouteView;

    open spec fn view(&self) -> RouteView {
        RouteView {
            prefix: self.prefix,
            as_path: self.as_path@,
            next_hop: self.next_hop,
            local_pref: self.local_pref,
            med: self.med,
            community: self.community,
        }
    }
}

impl BgpRoute {
    /// Whether both routes are equal.
    pub fn equals(&self, other: &BgpRoute) -> (r: bool)
        ensures
            r == (self@ == other@),
    {
        if self.prefix != other.prefix || self.next_hop != other.next_hop || self.local_pref != other.local_pref
            || self.med != other.med || self.community != other.community || self.as_path.len()
            != other.as_path.len() {
            return false;
        }
        let mut i: usize = 0;
        while i < self.as_path.len()
            invariant
                i <= self.as_path@.len(),
                self.as_path@.len() == other.as_path@.len(),
                forall|k: int| 0 <= k < i ==> self.as_path@[k] == other.as_path@[k],
            decreases self.as_path@.len() - i,
        {
            if self.as_path[i] != other.as_path[i] {
                return false;
            }
            i += 1;
        }
        assert(self.as_path@ =~= other.as_path@);
        true
    }

    /// A copy of the route.
    pub fn copy(&self) -> (r: BgpRoute)
        ensures
            r@ == self@,
    {
        let mut path: Vec<AsId> = Vec::new();
        let mut i: usize = 0;
        while i < self.as_path.len()
            invariant
                i <= self.as_path@.len(),
                path@ == self.as_path@.take(i as int),
            decreases self.as_path@.len() - i,
        {
            path.push(self.as_path[i]);
            i += 1;
            assert(path@ =~= self.as_path@.take(i as int));
        }
        assert(self.as_path@.take(self.as_path@.len() as int) =~= self.as_path@);
        BgpRoute {
            prefix: self.prefix,
            as_path: path,
            next_hop: self.next_hop,
            local_pref: self.local_pref,
            med: self.med,
            community: self.community,
        }
    }
}

impl Clone for BgpRoute {
    fn clone(&self) -> (r: Self)
        ensures
            r@ == self@,
    {
        self.copy()
    }
}

impl PartialEq for BgpRoute {
    fn eq(&self, other: &Self) -> (r: bool) {
        self.equals(other)
    }
}

impl vstd::std_specs::cmp::PartialEqSpecImpl for BgpRoute {
    open spec fn obeys_eq_spec() -> bool {
        true
    }

    open spec fn eq_spec(&self, other: &BgpRoute) -> bool {
        self@ == other@
    }
}

/// An entry of a BGP routing information base, as a plain value.
pub struct EntryView {
    /// The route
    pub route: RouteView,
    /// The type of the session the route was learned over (or is sent over)
    pub from_type: BgpSessionType,
    /// The peer the route was learned from
    pub from_id: RouterId,
    /// The peer the route is sent to, for an outgoing entry
    pub to_id: Option<RouterId>,
    /// The IGP cost to the next hop, where it is known
    pub igp_cost: Option<LinkWeight>,
}

/// BGP RIB Table entry
#[derive(Debug)]
pub struct BgpRibEntry {
    /// the actual bgp route
    pub route: BgpRoute,
    /// the type of session, from which the route was learned
    pub from_type: BgpSessionType,
    /// the client from which the route was learned
    pub from_id: RouterId,
    /// the client to which the route is distributed (only in RibOut)
    pub to_id: Option<RouterId>,
    /// the igp cost to the next_hop
    pub igp_cost: Option<LinkWeight>,
}

impl View for BgpRibEntry {
    type V = EntryView;

    open spec fn view(&self) -> EntryView {
        EntryView {
            route: self.route@,
            from_type: self.from_type,
            from_id: self.from_id,
            to_id: self.to_id,
            igp_cost: self.igp_cost,
        }
    }
}

impl BgpRibEntry {
    /// A copy of the entry.
    pub fn copy(&self) -> (r: BgpRibEntry)
        ensures
            r@ == self@,
    {
        BgpRibEntry {
            route: self.route.copy(),
            from_type: self.from_type,
            from_id: self.from_id,
            to_id: self.to_id,
            igp_cost: self.igp_cost,
        }
    }
}

impl Clone for BgpRibEntry {
    fn clone(&self) -> (r: Self)
        ensures
            r@ == self@,
    {
        self.copy()
    }
}

/// BGP Events
#[derive(Debug)]
pub enum BgpEvent {
    /// Withdraw a previously advertised route
    Withdraw(Prefix),
    /// Update a route, or add a new one.
    Update(BgpRoute),
}

/// A BGP event, as a plain value.
pub enum EventView {
    /// Withdraw a previously advertised route
    Withdraw(Prefix),
    /// Update a route, or add a new one.
    Update(RouteView),
}

impl View for BgpEvent {
    type V = EventView;

    open spec fn view(&self) -> EventView {
        match self {
            BgpEvent::Withdraw(p) => EventView::Withdraw(*p),
            BgpEvent::Update(r) => EventView::Update(r@),
        }
    }
}

} // verus!
