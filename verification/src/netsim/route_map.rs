//! # Route-Maps
//!
//! The parts of a route map that decide whether it applies: its state, the clauses it matches
//! values with, and the direction in which it is applied.
use vstd::prelude::*;
use core::cmp::Ordering;
use vstd::std_specs::cmp::{PartialEqSpec, PartialEqSpecImpl, PartialOrdSpec};
use crate::netsim::types::LinkWeight;
use crate::hard_policies::repr::{append_decimal, append_u32, decimal};
use crate::netsim::{AsId, Prefix, RouterId};
use crate::netsim::bgp::{BgpRibEntry, EntryView};

verus! {

/// State of a route map, which can either be allow or deny
#[derive(Debug, Clone, Copy, PartialEq, Eq, Structural)]
pub enum RouteMapState {
    /// Set the state to allow
    Allow,
    /// Set the state to deny
    Deny,
}

impl RouteMapState {
    /// Returns `true` if the state is set to `Allow`.
    pub fn is_allow(&self) -> (r: bool)
        ensures
            r == (*self == RouteMapState::Allow),
    {
        *self == RouteMapState::Allow
    }

    /// Returns `true` if the state is set to `Deny`.
    pub fn is_deny(&self) -> (r: bool)
        ensures
            r == (*self == RouteMapState::Deny),
    {
        *self == RouteMapState::Deny
    }
}

/// Generic RouteMapMatchClause to match on all, a range or on a specific element
#[derive(Debug, Clone, PartialEq, Eq, Structural)]
pub enum RouteMapMatchClause<T> {
    /// Matches a range of values (inclusive)
    Range(T, T),
    /// Matches a range of values (exclusive)
    RangeExclusive(T, T),
    /// Matches the exact value
    Equal(T),
}

/// `a` is greater than or equal to `b` by the order of `T`.
pub open spec fn at_least<T: PartialOrd>(a: T, b: T) -> bool {
    a.partial_cmp_spec(&b) matches Some(Ordering::Greater | Ordering::Equal)
}

/// `a` is less than or equal to `b` by the order of `T`.
pub open spec fn at_most<T: PartialOrd>(a: T, b: T) -> bool {
    a.partial_cmp_spec(&b) matches Some(Ordering::Less | Ordering::Equal)
}

/// `a` is less than `b` by the order of `T`.
pub open spec fn below<T: PartialOrd>(a: T, b: T) -> bool {
    a.partial_cmp_spec(&b) == Some(Ordering::Less)
}

impl<T: PartialOrd + PartialEq> RouteMapMatchClause<T> {
    /// Whether the clause matches `val`, for a type whose comparisons follow their
    /// specification.
    pub open spec fn matches_spec(self, val: T) -> bool {
        match self {
            RouteMapMatchClause::Range(min, max) => at_least(val, min) && at_most(val, max),
            RouteMapMatchClause::RangeExclusive(min, max) => at_least(val, min) && below(val, max),
            RouteMapMatchClause::Equal(x) => val.eq_spec(&x),
        }
    }

    /// Returns true if the value matches the clause.
    pub fn matches(&self, val: &T) -> (r: bool)
        ensures
            T::obeys_partial_cmp_spec() && T::obeys_eq_spec() ==> r == self.matches_spec(*val),
    {
        match self {
            RouteMapMatchClause::Range(min, max) => val >= min && val <= max,
            RouteMapMatchClause::RangeExclusive(min, max) => val >= min && val < max,
            RouteMapMatchClause::Equal(x) => val == x,
        }
    }
}

/// Direction of the Route Map
#[derive(Debug, Clone, Copy, PartialEq, Eq, Structural, Hash)]
pub enum RouteMapDirection {
    /// Incoming Route Map
    Incoming,
    /// Outgoing Route Map
    Outgoing,
}

/// Match statement of the route map. Can be combined to generate complex match statements
#[derive(Debug, Clone, PartialEq, Eq, Structural)]
pub enum RouteMapMatch {
    /// Matches on the neighbor (exact value)
    Neighbor(RouterId),
    /// Matches on the Prefix (exact value or a range)
    Prefix(RouteMapMatchClause<Prefix>),
    /// Matches on the As Path (either if it contains an as, or on the length of the path)
    AsPath(RouteMapMatchAsPath),
    /// Matches on the Next Hop (exact value)
    NextHop(RouterId),
    /// Matches on the community (either not set, or set and matches a value or a range)
    Community(Option<RouteMapMatchClause<u32>>),
}

/// Clause to match on the as path
#[derive(Debug, Clone, PartialEq, Eq, Structural)]
pub enum RouteMapMatchAsPath {
    /// Contains a specific AsId
    Contains(AsId),
    /// Match on the length of the As Path
    Length(RouteMapMatchClause<usize>),
}

impl RouteMapMatchAsPath {
    /// Whether the AS path `path` matches the clause.
    pub open spec fn matches_spec(self, path: Seq<AsId>) -> bool {
        match self {
            RouteMapMatchAsPath::Contains(a) => path.contains(a),
            RouteMapMatchAsPath::Length(RouteMapMatchClause::Range(min, max)) => min <= path.len() <= max,
            RouteMapMatchAsPath::Length(RouteMapMatchClause::RangeExclusive(min, max)) => min <= path.len()
                < max,
            RouteMapMatchAsPath::Length(RouteMapMatchClause::Equal(x)) => path.len() == x,
        }
    }

    /// Returns true if the value matches the clause
    pub fn matches(&self, path: &[AsId]) -> (r: bool)
        ensures
            r == self.matches_spec(path@),
    {
        match self {
            RouteMapMatchAsPath::Contains(as_id) => {
                let mut i: usize = 0;
                while i < path.len()
                    invariant
                        *self == RouteMapMatchAsPath::Contains(*as_id),
                        i <= path@.len(),
                        forall|k: int| 0 <= k < i ==> path@[k] != *as_id,
                    decreases path@.len() - i,
                {
                    if path[i] == *as_id {
                        assert(path@[i as int] == *as_id);
                        assert(path@.contains(*as_id));
                        return true;
                    }
                    i += 1;
                }
                false
            },
            RouteMapMatchAsPath::Length(clause) => {
                let n = path.len();
                match clause {
                    RouteMapMatchClause::Range(min, max) => *min <= n && n <= *max,
                    RouteMapMatchClause::RangeExclusive(min, max) => *min <= n && n < *max,
                    RouteMapMatchClause::Equal(x) => n == *x,
                }
            },
        }
    }
}

/// Set action, if a route map matches
#[derive(Debug, Clone)]
pub enum RouteMapSet {
    /// overwrite the next hop
    NextHop(RouterId),
    /// overwrite the local preference (None means reset to 100)
    LocalPref(Option<u32>),
    /// overwrite the MED attribute (None means reset to 0)
    Med(Option<u32>),
    /// overwrite the distance attribute (IGP weight). This does not affect peers.
    IgpCost(LinkWeight),
    /// Set the community value
    Community(Option<u32>),
}

impl RouteMapSet {
    /// Both actions are the same: costs are compared by the numbers they encode.
    pub open spec fn same_as(self, other: RouteMapSet) -> bool {
        match (self, other) {
            (RouteMapSet::IgpCost(a), RouteMapSet::IgpCost(b)) => a.same_value(b),
            _ => self == other,
        }
    }

    /// Whether both actions are the same.
    pub fn equals(&self, other: &RouteMapSet) -> (r: bool)
        ensures
            r == self.same_as(*other),
    {
        match (self, other) {
            (RouteMapSet::NextHop(a), RouteMapSet::NextHop(b)) => a == b,
            (RouteMapSet::LocalPref(a), RouteMapSet::LocalPref(b)) => a == b,
            (RouteMapSet::Med(a), RouteMapSet::Med(b)) => a == b,
            (RouteMapSet::IgpCost(a), RouteMapSet::IgpCost(b)) => a.same(b),
            (RouteMapSet::Community(a), RouteMapSet::Community(b)) => a == b,
            _ => false,
        }
    }
}

impl PartialEq for RouteMapSet {
    fn eq(&self, other: &Self) -> (r: bool) {
        self.equals(other)
    }
}

impl PartialEqSpecImpl for RouteMapSet {
    open spec fn obeys_eq_spec() -> bool {
        true
    }

    open spec fn eq_spec(&self, other: &RouteMapSet) -> bool {
        self.same_as(*other)
    }
}

/// Whether the clause matches the number `v`.
pub open spec fn clause_holds(c: RouteMapMatchClause<u32>, v: u32) -> bool {
    match c {
        RouteMapMatchClause::Range(min, max) => min <= v <= max,
        RouteMapMatchClause::RangeExclusive(min, max) => min <= v < max,
        RouteMapMatchClause::Equal(x) => v == x,
    }
}

/// Whether the clause matches the prefix `p`, prefixes being ordered by their numbers.
pub open spec fn prefix_clause_holds(c: RouteMapMatchClause<Prefix>, p: Prefix) -> bool {
    match c {
        RouteMapMatchClause::Range(min, max) => min.0 <= p.0 <= max.0,
        RouteMapMatchClause::RangeExclusive(min, max) => min.0 <= p.0 < max.0,
        RouteMapMatchClause::Equal(x) => p.0 == x.0,
    }
}

/// Whether the clause matches the number `v`.
fn clause_matches_u32(c: &RouteMapMatchClause<u32>, v: u32) -> (r: bool)
    ensures
        r == clause_holds(*c, v),
{
    match c {
        RouteMapMatchClause::Range(min, max) => *min <= v && v <= *max,
        RouteMapMatchClause::RangeExclusive(min, max) => *min <= v && v < *max,
        RouteMapMatchClause::Equal(x) => v == *x,
    }
}

/// Whether the clause matches the prefix `p`.
fn clause_matches_prefix(c: &RouteMapMatchClause<Prefix>, p: Prefix) -> (r: bool)
    ensures
        r == prefix_clause_holds(*c, p),
{
    match c {
        RouteMapMatchClause::Range(min, max) => min.0 <= p.0 && p.0 <= max.0,
        RouteMapMatchClause::RangeExclusive(min, max) => min.0 <= p.0 && p.0 < max.0,
        RouteMapMatchClause::Equal(x) => p.0 == x.0,
    }
}

impl RouteMapMatch {
    /// Whether the match statement holds for the entry `e`: the neighbor is the peer the entry
    /// is sent to, or else the one it was learned from.
    pub open spec fn matches_entry(self, e: EntryView) -> bool {
        match self {
            RouteMapMatch::Neighbor(n) => (match e.to_id {
                Some(t) => t,
                None => e.from_id,
            }) == n,
            RouteMapMatch::Prefix(c) => prefix_clause_holds(c, e.route.prefix),
            RouteMapMatch::AsPath(c) => c.matches_spec(e.route.as_path),
            RouteMapMatch::NextHop(nh) => e.route.next_hop == nh,
            RouteMapMatch::Community(Some(c)) => match e.route.community {
                Some(x) => clause_holds(c, x),
                None => false,
            },
            RouteMapMatch::Community(None) => e.route.community is None,
        }
    }

    /// Returns true if the `BgpRibEntry` matches the expression
    pub fn matches(&self, entry: &BgpRibEntry) -> (r: bool)
        ensures
            r == self.matches_entry(entry@),
    {
        match self {
            RouteMapMatch::Neighbor(n) => {
                let peer = match entry.to_id {
                    Some(t) => t,
                    None => entry.from_id,
                };
                peer == *n
            },
            RouteMapMatch::Prefix(c) => clause_matches_prefix(c, entry.route.prefix),
            RouteMapMatch::AsPath(c) => c.matches(entry.route.as_path.as_slice()),
            RouteMapMatch::NextHop(nh) => entry.route.next_hop == *nh,
            RouteMapMatch::Community(Some(c)) => match entry.route.community {
                Some(x) => clause_matches_u32(c, x),
                None => false,
            },
            RouteMapMatch::Community(None) => entry.route.community.is_none(),
        }
    }
}

impl RouteMapSet {
    /// The entry `e` after the set action: a new next hop forgets the IGP cost, a local
    /// preference or MED that is reset becomes 100 or 0, and a community may be removed.
    pub open spec fn set_on(self, e: EntryView) -> EntryView {
        match self {
            RouteMapSet::NextHop(nh) => EntryView {
                route: crate::netsim::bgp::RouteView { next_hop: nh, ..e.route },
                igp_cost: None,
                ..e
            },
            RouteMapSet::LocalPref(lp) => EntryView {
                route: crate::netsim::bgp::RouteView {
                    local_pref: Some(
                        match lp {
                            Some(x) => x,
                            None => 100u32,
                        },
                    ),
                    ..e.route
                },
                ..e
            },
            RouteMapSet::Med(med) => EntryView {
                route: crate::netsim::bgp::RouteView {
                    med: Some(
                        match med {
                            Some(x) => x,
                            None => 0u32,
                        },
                    ),
                    ..e.route
                },
                ..e
            },
            RouteMapSet::IgpCost(w) => EntryView { igp_cost: Some(w), ..e },
            RouteMapSet::Community(c) => EntryView {
                route: crate::netsim::bgp::RouteView { community: c, ..e.route },
                ..e
            },
        }
    }

    /// Apply the set statement to a route
    pub fn apply(&self, entry: &mut BgpRibEntry)
        ensures
            final(entry)@ == self.set_on(old(entry)@),
    {
        match self {
            RouteMapSet::NextHop(nh) => {
                entry.route.next_hop = *nh;
                // at the same time, reset the igp cost to None, such that it can be recomputed
                entry.igp_cost = None;
            },
            RouteMapSet::LocalPref(lp) => {
                entry.route.local_pref = Some(
                    match lp {
                        Some(x) => *x,
                        None => 100,
                    },
                );
            },
            RouteMapSet::Med(med) => {
                entry.route.med = Some(
                    match med {
                        Some(x) => *x,
                        None => 0,
                    },
                );
            },
            RouteMapSet::IgpCost(w) => {
                entry.igp_cost = Some(*w);
            },
            RouteMapSet::Community(c) => {
                entry.route.community = *c;
            },
        }
    }
}

/// A route map matches an entry exactly where every one of its match statements matches it: one
/// statement that fails keeps the map from matching, and a map without statements matches every
/// entry.
pub proof fn lemma_match_needs_every_statement(conds: Seq<RouteMapMatch>, e: EntryView)
    ensures
        all_match(conds, e) <==> forall|k: int| 0 <= k < conds.len() ==> (#[trigger] conds[k]).matches_entry(e),
        (exists|k: int| 0 <= k < conds.len() && !(#[trigger] conds[k]).matches_entry(e)) ==> !all_match(conds, e),
        conds.len() == 0 ==> all_match(conds, e),
{
}

/// What each set action does: it changes only its own field (a new next hop also clears the IGP
/// cost, to be computed anew), sets it to the value given, and a local preference or MED without
/// a value becomes 100 or 0. The prefix, the AS path, and where the entry comes from and goes to
/// stay as they are.
pub proof fn lemma_set_action(s: RouteMapSet, e: EntryView)
    ensures
        s.set_on(e).route.prefix == e.route.prefix,
        s.set_on(e).route.as_path == e.route.as_path,
        s.set_on(e).from_type == e.from_type,
        s.set_on(e).from_id == e.from_id,
        s.set_on(e).to_id == e.to_id,
        s matches RouteMapSet::NextHop(nh) ==> s.set_on(e).route.next_hop == nh && s.set_on(e).igp_cost is None
            && s.set_on(e).route.local_pref == e.route.local_pref && s.set_on(e).route.med == e.route.med
            && s.set_on(e).route.community == e.route.community,
        s matches RouteMapSet::LocalPref(lp) ==> s.set_on(e).route.local_pref == Some(
            if lp is Some {
                lp->Some_0
            } else {
                100u32
            },
        ) && s.set_on(e).route.next_hop == e.route.next_hop && s.set_on(e).igp_cost == e.igp_cost && s.set_on(
            e,
        ).route.med == e.route.med && s.set_on(e).route.community == e.route.community,
        s matches RouteMapSet::Med(med) ==> s.set_on(e).route.med == Some(
            if med is Some {
                med->Some_0
            } else {
                0u32
            },
        ) && s.set_on(e).route.next_hop == e.route.next_hop && s.set_on(e).igp_cost == e.igp_cost && s.set_on(
            e,
        ).route.local_pref == e.route.local_pref && s.set_on(e).route.community == e.route.community,
        s matches RouteMapSet::IgpCost(w) ==> s.set_on(e).igp_cost == Some(w) && s.set_on(e).route == e.route,
        s matches RouteMapSet::Community(c) ==> s.set_on(e).route.community == c && s.set_on(e).route.next_hop
            == e.route.next_hop && s.set_on(e).igp_cost == e.igp_cost && s.set_on(e).route.local_pref
            == e.route.local_pref && s.set_on(e).route.med == e.route.med,
{
}

/// The set actions of a route map act one after the other, in their order: the actions and then
/// one more give what that one more does to the result of the others; no action leaves the entry
/// as it is.
pub proof fn lemma_sets_in_order(sets: Seq<RouteMapSet>, s: RouteMapSet, e: EntryView)
    ensures
        sets_applied(sets.push(s), e) == s.set_on(sets_applied(sets, e)),
        sets_applied(Seq::<RouteMapSet>::empty(), e) == e,
{
    assert(sets.push(s).drop_last() =~= sets);
}

/// Route maps are checked in their order and the first one that matches decides: where the maps
/// before position `k` do not match and the one at `k` does, the entry is denied where that map
/// denies, and otherwise comes out with its set actions applied; where no map matches, the entry
/// passes unchanged and no map is said to have matched.
pub proof fn lemma_first_match_decides(maps: Seq<RouteMap>, e: EntryView, k: int)
    requires
        0 <= k <= maps.len(),
        forall|j: int| 0 <= j < k ==> !all_match((#[trigger] maps[j]).parts().2, e),
    ensures
        k == maps.len() ==> maps_outcome(maps, e) == (false, Some(e)),
        k < maps.len() && all_match(maps[k].parts().2, e) && maps[k].parts().1 == RouteMapState::Deny ==> maps_outcome(
            maps,
            e,
        ) == (true, None::<EntryView>),
        k < maps.len() && all_match(maps[k].parts().2, e) && maps[k].parts().1 != RouteMapState::Deny ==> maps_outcome(
            maps,
            e,
        ) == (true, Some(sets_applied(maps[k].parts().3, e))),
    decreases k,
{
    if k > 0 {
        let rest = maps.drop_first();
        assert forall|j: int| 0 <= j < k - 1 implies !all_match((#[trigger] rest[j]).parts().2, e) by {
            assert(rest[j] == maps[j + 1]);
        }
        assert(!all_match(maps[0].parts().2, e));
        lemma_first_match_decides(rest, e, k - 1);
        if k < maps.len() {
            assert(rest[k - 1] == maps[k]);
        }
    }
}

/// What each match statement checks: a neighbor is the peer the entry is sent to, or where it
/// is sent to none, the one it was learned from; a prefix or a community lies in the inclusive
/// range, in the range without its upper end, or equals the value; an AS path contains the AS
/// or has a length in the range or equal to it; a next hop is equal; a missing community
/// matches only an entry without one.
pub proof fn lemma_match_statement(m: RouteMapMatch, e: EntryView)
    ensures
        m matches RouteMapMatch::Neighbor(n) ==> (m.matches_entry(e) <==> (if e.to_id is Some {
            e.to_id->Some_0 == n
        } else {
            e.from_id == n
        })),
        m matches RouteMapMatch::Prefix(RouteMapMatchClause::Range(a, b)) ==> (m.matches_entry(e) <==> a.0 <= e.route.prefix.0
            && e.route.prefix.0 <= b.0),
        m matches RouteMapMatch::Prefix(RouteMapMatchClause::RangeExclusive(a, b)) ==> (m.matches_entry(e) <==> a.0
            <= e.route.prefix.0 && e.route.prefix.0 < b.0),
        m matches RouteMapMatch::Prefix(RouteMapMatchClause::Equal(a)) ==> (m.matches_entry(e) <==> e.route.prefix.0
            == a.0),
        m matches RouteMapMatch::AsPath(RouteMapMatchAsPath::Contains(a)) ==> (m.matches_entry(e) <==> exists|i: int|
            0 <= i < e.route.as_path.len() && e.route.as_path[i] == a),
        m matches RouteMapMatch::AsPath(RouteMapMatchAsPath::Length(RouteMapMatchClause::Range(a, b))) ==> (
        m.matches_entry(e) <==> a <= e.route.as_path.len() && e.route.as_path.len() <= b),
        m matches RouteMapMatch::AsPath(RouteMapMatchAsPath::Length(RouteMapMatchClause::RangeExclusive(a, b))) ==> (
        m.matches_entry(e) <==> a <= e.route.as_path.len() && e.route.as_path.len() < b),
        m matches RouteMapMatch::AsPath(RouteMapMatchAsPath::Length(RouteMapMatchClause::Equal(a))) ==> (
        m.matches_entry(e) <==> e.route.as_path.len() == a),
        m matches RouteMapMatch::NextHop(nh) ==> (m.matches_entry(e) <==> e.route.next_hop == nh),
        m matches RouteMapMatch::Community(None) ==> (m.matches_entry(e) <==> e.route.community is None),
        m matches RouteMapMatch::Community(Some(RouteMapMatchClause::Range(a, b))) ==> (m.matches_entry(e) <==> (
        e.route.community is Some && a <= e.route.community->Some_0 && e.route.community->Some_0 <= b)),
        m matches RouteMapMatch::Community(Some(RouteMapMatchClause::RangeExclusive(a, b))) ==> (m.matches_entry(e) <==> (
        e.route.community is Some && a <= e.route.community->Some_0 && e.route.community->Some_0 < b)),
        m matches RouteMapMatch::Community(Some(RouteMapMatchClause::Equal(a))) ==> (m.matches_entry(e) <==> (
        e.route.community is Some && e.route.community->Some_0 == a)),
{
}

/// Every match statement of `conds` holds for the entry `e`.
pub open spec fn all_match(conds: Seq<RouteMapMatch>, e: EntryView) -> bool {
    forall|k: int| 0 <= k < conds.len() ==> (#[trigger] conds[k]).matches_entry(e)
}

/// The entry `e` after the set actions `sets`, applied in their order.
pub open spec fn sets_applied(sets: Seq<RouteMapSet>, e: EntryView) -> EntryView
    decreases sets.len(),
{
    if sets.len() == 0 {
        e
    } else {
        sets.last().set_on(sets_applied(sets.drop_last(), e))
    }
}

/// # Route Map Builder
///
/// Convenience type to build a route map. You are required to at least call `order` and `state`
/// once on the builder, before you can call `build`. If you don't call `add_match` (or any function
/// adding a `match` statement) on the builder, it will match on any route.
#[derive(Debug)]
pub struct RouteMapBuilder {
    order: Option<usize>,
    state: Option<RouteMapState>,
    conds: Vec<RouteMapMatch>,
    set: Vec<RouteMapSet>,
}

impl RouteMapBuilder {
    /// The order, the state, the match statements and the set actions given so far.
    pub closed spec fn parts(&self) -> (Option<usize>, Option<RouteMapState>, Seq<RouteMapMatch>, Seq<RouteMapSet>) {
        (self.order, self.state, self.conds@, self.set@)
    }

    /// Create an empty RouteMapBuilder
    pub fn new() -> (r: Self)
        ensures
            r.parts() == (None::<usize>, None::<RouteMapState>, Seq::<RouteMapMatch>::empty(), Seq::<RouteMapSet>::empty()),
    {
        let r = RouteMapBuilder { order: None, state: None, conds: Vec::new(), set: Vec::new() };
        assert(r.conds@ =~= Seq::<RouteMapMatch>::empty());
        assert(r.set@ =~= Seq::<RouteMapSet>::empty());
        r
    }

    /// Set the order of the Route-Map.
    pub fn order(&mut self, order: usize) -> (r: &mut Self)
        ensures
            r.parts() == (Some(order), old(self).parts().1, old(self).parts().2, old(self).parts().3),
            *final(self) == *final(r),
    {
        self.order = Some(order);
        self
    }

    /// Set the state of the Route-Map.
    pub fn state(&mut self, state: RouteMapState) -> (r: &mut Self)
        ensures
            r.parts() == (old(self).parts().0, Some(state), old(self).parts().2, old(self).parts().3),
            *final(self) == *final(r),
    {
        self.state = Some(state);
        self
    }

    /// Set the state of the Route-Map to allow. This function is identical to calling
    /// `state(RouteMapState::Allow)`.
    pub fn allow(&mut self) -> (r: &mut Self)
        ensures
            r.parts() == (old(self).parts().0, Some(RouteMapState::Allow), old(self).parts().2, old(self).parts().3),
            *final(self) == *final(r),
    {
        self.state = Some(RouteMapState::Allow);
        self
    }

    /// Set the state of the Route-Map to deny. This function is identical to calling
    /// `state(RouteMapState::Deny)`.
    pub fn deny(&mut self) -> (r: &mut Self)
        ensures
            r.parts() == (old(self).parts().0, Some(RouteMapState::Deny), old(self).parts().2, old(self).parts().3),
            *final(self) == *final(r),
    {
        self.state = Some(RouteMapState::Deny);
        self
    }

    /// Add a match condition to the Route-Map.
    pub fn cond(&mut self, cond: RouteMapMatch) -> (r: &mut Self)
        ensures
            r.parts() == (old(self).parts().0, old(self).parts().1, old(self).parts().2.push(cond), old(self).parts().3),
            *final(self) == *final(r),
    {
        self.conds.push(cond);
        self
    }

    /// Add a match condition to the Route-Map, matching on the neighbor
    pub fn match_neighbor(&mut self, neighbor: RouterId) -> (r: &mut Self)
        ensures
            r.parts() == (old(self).parts().0, old(self).parts().1, old(self).parts().2.push(
                RouteMapMatch::Neighbor(neighbor),
            ), old(self).parts().3),
            *final(self) == *final(r),
    {
        self.cond(RouteMapMatch::Neighbor(neighbor))
    }

    /// Add a match condition to the Route-Map, matching on the prefix with exact value
    pub fn match_prefix(&mut self, prefix: Prefix) -> (r: &mut Self)
        ensures
            r.parts() == (old(self).parts().0, old(self).parts().1, old(self).parts().2.push(
                RouteMapMatch::Prefix(RouteMapMatchClause::Equal(prefix)),
            ), old(self).parts().3),
            *final(self) == *final(r),
    {
        self.cond(RouteMapMatch::Prefix(RouteMapMatchClause::Equal(prefix)))
    }

    /// Add a match condition to the Route-Map, matching on the prefix with an inclusive range
    pub fn match_prefix_range(&mut self, from: Prefix, to: Prefix) -> (r: &mut Self)
        ensures
            r.parts() == (old(self).parts().0, old(self).parts().1, old(self).parts().2.push(
                RouteMapMatch::Prefix(RouteMapMatchClause::Range(from, to)),
            ), old(self).parts().3),
            *final(self) == *final(r),
    {
        self.cond(RouteMapMatch::Prefix(RouteMapMatchClause::Range(from, to)))
    }

    /// Add a match condition to the Route-Map, requiring that the as path contains a specific AS
    pub fn match_as_path_contains(&mut self, as_id: AsId) -> (r: &mut Self)
        ensures
            r.parts() == (old(self).parts().0, old(self).parts().1, old(self).parts().2.push(
                RouteMapMatch::AsPath(RouteMapMatchAsPath::Contains(as_id)),
            ), old(self).parts().3),
            *final(self) == *final(r),
    {
        self.cond(RouteMapMatch::AsPath(RouteMapMatchAsPath::Contains(as_id)))
    }

    /// Add a match condition to the Route-Map, matching on the as path length with exact value
    pub fn match_as_path_length(&mut self, as_path_len: usize) -> (r: &mut Self)
        ensures
            r.parts() == (old(self).parts().0, old(self).parts().1, old(self).parts().2.push(
                RouteMapMatch::AsPath(RouteMapMatchAsPath::Length(RouteMapMatchClause::Equal(as_path_len))),
            ), old(self).parts().3),
            *final(self) == *final(r),
    {
        self.cond(RouteMapMatch::AsPath(RouteMapMatchAsPath::Length(RouteMapMatchClause::Equal(as_path_len))))
    }

    /// Add a match condition to the Route-Map, matching on the as path length with an inclusive
    /// range
    pub fn match_as_path_length_range(&mut self, from: usize, to: usize) -> (r: &mut Self)
        ensures
            r.parts() == (old(self).parts().0, old(self).parts().1, old(self).parts().2.push(
                RouteMapMatch::AsPath(RouteMapMatchAsPath::Length(RouteMapMatchClause::Range(from, to))),
            ), old(self).parts().3),
            *final(self) == *final(r),
    {
        self.cond(RouteMapMatch::AsPath(RouteMapMatchAsPath::Length(RouteMapMatchClause::Range(from, to))))
    }

    /// Add a match condition to the Route-Map, matching on the next hop
    pub fn match_next_hop(&mut self, next_hop: RouterId) -> (r: &mut Self)
        ensures
            r.parts() == (old(self).parts().0, old(self).parts().1, old(self).parts().2.push(
                RouteMapMatch::NextHop(next_hop),
            ), old(self).parts().3),
            *final(self) == *final(r),
    {
        self.cond(RouteMapMatch::NextHop(next_hop))
    }

    /// Add a match condition to the Route-Map, matching on the community with exact value
    pub fn match_community(&mut self, community: u32) -> (r: &mut Self)
        ensures
            r.parts() == (old(self).parts().0, old(self).parts().1, old(self).parts().2.push(
                RouteMapMatch::Community(Some(RouteMapMatchClause::Equal(community))),
            ), old(self).parts().3),
            *final(self) == *final(r),
    {
        self.cond(RouteMapMatch::Community(Some(RouteMapMatchClause::Equal(community))))
    }

    /// Add a match condition to the Route-Map, matching on routes without community
    pub fn match_community_empty(&mut self) -> (r: &mut Self)
        ensures
            r.parts() == (old(self).parts().0, old(self).parts().1, old(self).parts().2.push(
                RouteMapMatch::Community(None),
            ), old(self).parts().3),
            *final(self) == *final(r),
    {
        self.cond(RouteMapMatch::Community(None))
    }

    /// Add a match condition to the Route-Map, matching on the community with an inclusive range
    pub fn match_community_range(&mut self, from: u32, to: u32) -> (r: &mut Self)
        ensures
            r.parts() == (old(self).parts().0, old(self).parts().1, old(self).parts().2.push(
                RouteMapMatch::Community(Some(RouteMapMatchClause::Range(from, to))),
            ), old(self).parts().3),
            *final(self) == *final(r),
    {
        self.cond(RouteMapMatch::Community(Some(RouteMapMatchClause::Range(from, to))))
    }

    /// Add a set expression to the Route-Map.
    pub fn add_set(&mut self, set: RouteMapSet) -> (r: &mut Self)
        ensures
            r.parts() == (old(self).parts().0, old(self).parts().1, old(self).parts().2, old(self).parts().3.push(set)),
            *final(self) == *final(r),
    {
        self.set.push(set);
        self
    }

    /// Add a set expression, overwriting the next hop value
    pub fn set_next_hop(&mut self, next_hop: RouterId) -> (r: &mut Self)
        ensures
            r.parts() == (old(self).parts().0, old(self).parts().1, old(self).parts().2, old(self).parts().3.push(
                RouteMapSet::NextHop(next_hop),
            )),
            *final(self) == *final(r),
    {
        self.add_set(RouteMapSet::NextHop(next_hop))
    }

    /// Add a set expression, overwriting the Local-Pref
    pub fn set_local_pref(&mut self, local_pref: u32) -> (r: &mut Self)
        ensures
            r.parts() == (old(self).parts().0, old(self).parts().1, old(self).parts().2, old(self).parts().3.push(
                RouteMapSet::LocalPref(Some(local_pref)),
            )),
            *final(self) == *final(r),
    {
        self.add_set(RouteMapSet::LocalPref(Some(local_pref)))
    }

    /// Add a set expression, resetting the local-pref
    pub fn reset_local_pref(&mut self) -> (r: &mut Self)
        ensures
            r.parts() == (old(self).parts().0, old(self).parts().1, old(self).parts().2, old(self).parts().3.push(
                RouteMapSet::LocalPref(None),
            )),
            *final(self) == *final(r),
    {
        self.add_set(RouteMapSet::LocalPref(None))
    }

    /// Add a set expression, overwriting the MED
    pub fn set_med(&mut self, med: u32) -> (r: &mut Self)
        ensures
            r.parts() == (old(self).parts().0, old(self).parts().1, old(self).parts().2, old(self).parts().3.push(
                RouteMapSet::Med(Some(med)),
            )),
            *final(self) == *final(r),
    {
        self.add_set(RouteMapSet::Med(Some(med)))
    }

    /// Add a set expression, resetting the MED
    pub fn reset_med(&mut self) -> (r: &mut Self)
        ensures
            r.parts() == (old(self).parts().0, old(self).parts().1, old(self).parts().2, old(self).parts().3.push(
                RouteMapSet::Med(None),
            )),
            *final(self) == *final(r),
    {
        self.add_set(RouteMapSet::Med(None))
    }

    /// Add a set expression, overwriting the Igp Cost to reach the next-hop
    pub fn set_igp_cost(&mut self, cost: LinkWeight) -> (r: &mut Self)
        ensures
            r.parts() == (old(self).parts().0, old(self).parts().1, old(self).parts().2, old(self).parts().3.push(
                RouteMapSet::IgpCost(cost),
            )),
            *final(self) == *final(r),
    {
        self.add_set(RouteMapSet::IgpCost(cost))
    }

    /// Add a set expression, overwriting the Community
    pub fn set_community(&mut self, community: u32) -> (r: &mut Self)
        ensures
            r.parts() == (old(self).parts().0, old(self).parts().1, old(self).parts().2, old(self).parts().3.push(
                RouteMapSet::Community(Some(community)),
            )),
            *final(self) == *final(r),
    {
        self.add_set(RouteMapSet::Community(Some(community)))
    }

    /// Add a set expression, resetting the Community
    pub fn reset_community(&mut self) -> (r: &mut Self)
        ensures
            r.parts() == (old(self).parts().0, old(self).parts().1, old(self).parts().2, old(self).parts().3.push(
                RouteMapSet::Community(None),
            )),
            *final(self) == *final(r),
    {
        self.add_set(RouteMapSet::Community(None))
    }

    /// Build the route-map. The order and the state must be set; a route map that denies has no
    /// set actions.
    pub fn build(&self) -> (r: RouteMap)
        requires
            self.parts().0 is Some,
            self.parts().1 is Some,
        ensures
            r.parts() == (self.parts().0->Some_0, self.parts().1->Some_0, self.parts().2, if self.parts().1
                == Some(RouteMapState::Deny) {
                Seq::<RouteMapSet>::empty()
            } else {
                self.parts().3
            }),
    {
        let order = match self.order {
            Some(o) => o,
            None => 0,
        };
        let state = match self.state {
            Some(s) => s,
            None => RouteMapState::Allow,
        };
        let conds = copy_matches(&self.conds);
        let set = if state.is_deny() { Vec::new() } else { copy_sets(&self.set) };
        proof {
            if state == RouteMapState::Deny {
                assert(set@ =~= Seq::<RouteMapSet>::empty());
            }
        }
        RouteMap::new(order, state, conds, set)
    }
}

/// A copy of the clause.
fn copy_clause<T: Copy>(c: &RouteMapMatchClause<T>) -> (r: RouteMapMatchClause<T>)
    ensures
        r == *c,
{
    match c {
        RouteMapMatchClause::Range(a, b) => RouteMapMatchClause::Range(*a, *b),
        RouteMapMatchClause::RangeExclusive(a, b) => RouteMapMatchClause::RangeExclusive(*a, *b),
        RouteMapMatchClause::Equal(a) => RouteMapMatchClause::Equal(*a),
    }
}

/// A copy of the match statement.
fn copy_match(m: &RouteMapMatch) -> (r: RouteMapMatch)
    ensures
        r == *m,
{
    match m {
        RouteMapMatch::Neighbor(n) => RouteMapMatch::Neighbor(*n),
        RouteMapMatch::Prefix(c) => RouteMapMatch::Prefix(copy_clause(c)),
        RouteMapMatch::AsPath(RouteMapMatchAsPath::Contains(a)) => RouteMapMatch::AsPath(RouteMapMatchAsPath::Contains(*a)),
        RouteMapMatch::AsPath(RouteMapMatchAsPath::Length(c)) => RouteMapMatch::AsPath(RouteMapMatchAsPath::Length(copy_clause(c))),
        RouteMapMatch::NextHop(n) => RouteMapMatch::NextHop(*n),
        RouteMapMatch::Community(Some(c)) => RouteMapMatch::Community(Some(copy_clause(c))),
        RouteMapMatch::Community(None) => RouteMapMatch::Community(None),
    }
}

/// A copy of the match statements.
fn copy_matches(v: &Vec<RouteMapMatch>) -> (r: Vec<RouteMapMatch>)
    ensures
        r@ == v@,
{
    let mut r: Vec<RouteMapMatch> = Vec::new();
    let mut i: usize = 0;
    while i < v.len()
        invariant
            i <= v@.len(),
            r@ == v@.take(i as int),
        decreases v@.len() - i,
    {
        r.push(copy_match(&v[i]));
        assert(r@ =~= v@.take(i + 1));
        i += 1;
    }
    assert(v@.take(v@.len() as int) =~= v@);
    r
}

/// A copy of the set actions.
fn copy_sets(v: &Vec<RouteMapSet>) -> (r: Vec<RouteMapSet>)
    ensures
        r@ == v@,
{
    let mut r: Vec<RouteMapSet> = Vec::new();
    let mut i: usize = 0;
    while i < v.len()
        invariant
            i <= v@.len(),
            r@ == v@.take(i as int),
        decreases v@.len() - i,
    {
        let s = match &v[i] {
            RouteMapSet::NextHop(n) => RouteMapSet::NextHop(*n),
            RouteMapSet::LocalPref(x) => RouteMapSet::LocalPref(*x),
            RouteMapSet::Med(x) => RouteMapSet::Med(*x),
            RouteMapSet::IgpCost(w) => RouteMapSet::IgpCost(*w),
            RouteMapSet::Community(x) => RouteMapSet::Community(*x),
        };
        r.push(s);
        assert(r@ =~= v@.take(i + 1));
        i += 1;
    }
    assert(v@.take(v@.len() as int) =~= v@);
    r
}

/// A route map: the route maps of a router are checked in their order; one that matches a route
/// denies it, or allows it and applies its set actions.
#[derive(Debug)]
pub struct RouteMap {
    /// In which order should the route maps be checked. Lower values mean that they are checked
    /// earlier.
    order: usize,
    /// Either Allow or Deny. If the last state matched RouteMap is deny, the route is denied. Else,
    /// it is allowed.
    state: RouteMapState,
    /// Match statements of the RouteMap, connected in an and
    conds: Vec<RouteMapMatch>,
    /// Set actions of the RouteMap
    set: Vec<RouteMapSet>,
}

impl RouteMap {
    /// The order, the state, the match statements and the set actions.
    pub closed spec fn parts(&self) -> (usize, RouteMapState, Seq<RouteMapMatch>, Seq<RouteMapSet>) {
        (self.order, self.state, self.conds@, self.set@)
    }

    /// Generate a new route map
    pub fn new(order: usize, state: RouteMapState, conds: Vec<RouteMapMatch>, set: Vec<RouteMapSet>) -> (r: Self)
        ensures
            r.parts() == (order, state, conds@, set@),
    {
        RouteMap { order, state, conds, set }
    }

    /// Returns the order of the RouteMap.
    pub fn order(&self) -> (r: usize)
        ensures
            r == self.parts().0,
    {
        self.order
    }

    /// Returns the state, either Allow or Deny.
    pub fn state(&self) -> (r: RouteMapState)
        ensures
            r == self.parts().1,
    {
        self.state
    }

    /// Return a reference to the conditions
    pub fn conds(&self) -> (r: &Vec<RouteMapMatch>)
        ensures
            r@ == self.parts().2,
    {
        &self.conds
    }

    /// Return a reference to the actions
    pub fn actions(&self) -> (r: &Vec<RouteMapSet>)
        ensures
            r@ == self.parts().3,
    {
        &self.set
    }

    /// Returns wether the Route Map matches the given entry
    pub fn matches(&self, route: &BgpRibEntry) -> (r: bool)
        ensures
            r == all_match(self.parts().2, route@),
            r == (forall|k: int| 0 <= k < self.parts().2.len() ==> (#[trigger] self.parts().2[k]).matches_entry(route@)),
    {
        let mut i: usize = 0;
        while i < self.conds.len()
            invariant
                i <= self.conds@.len(),
                forall|k: int| 0 <= k < i ==> (#[trigger] self.conds@[k]).matches_entry(route@),
            decreases self.conds@.len() - i,
        {
            if !self.conds[i].matches(route) {
                return false;
            }
            i += 1;
        }
        true
    }

    /// Apply the route map on a route (`BgpRibEntry`). The first value says whether the route
    /// map matched; the second is `None` where it matched and denies the route, the route with
    /// the set actions applied where it matched and allows it, and the route itself where it did
    /// not match.
    pub fn apply(&self, route: BgpRibEntry) -> (r: (bool, Option<BgpRibEntry>))
        ensures
            (exists|k: int| 0 <= k < self.parts().2.len() && !(#[trigger] self.parts().2[k]).matches_entry(route@)) ==> !r.0
                && (r.1 matches Some(e) && e@ == route@),
            (forall|k: int| 0 <= k < self.parts().2.len() ==> (#[trigger] self.parts().2[k]).matches_entry(route@)) ==> r.0,
            !all_match(self.parts().2, route@) ==> !r.0 && (r.1 matches Some(e) && e@ == route@),
            all_match(self.parts().2, route@) && self.parts().1 == RouteMapState::Deny ==> r.0 && r.1 is None,
            all_match(self.parts().2, route@) && self.parts().1 == RouteMapState::Allow ==> r.0 && (r.1 matches Some(
                e,
            ) && e@ == sets_applied(self.parts().3, route@)),
    {
        let mut route = route;
        if self.matches(&route) {
            if self.state.is_deny() {
                // route is denied
                (true, None)
            } else {
                // route is allowed. apply the set condition
                let ghost start = route@;
                let mut i: usize = 0;
                while i < self.set.len()
                    invariant
                        i <= self.set@.len(),
                        route@ == sets_applied(self.set@.take(i as int), start),
                    decreases self.set@.len() - i,
                {
                    self.set[i].apply(&mut route);
                    proof {
                        assert(self.set@.take(i + 1).drop_last() =~= self.set@.take(i as int));
                    }
                    i += 1;
                }
                proof {
                    assert(self.set@.take(self.set@.len() as int) =~= self.set@);
                }
                (true, Some(route))
            }
        } else {
            // route does not match
            (false, Some(route))
        }
    }

    /// Returns the neighbor if this route map matches any neighbor. If not, then this function
    /// returns `None`.
    pub fn match_neighbor(&self) -> (r: Option<RouterId>)
        ensures
            r is None <==> forall|k: int| 0 <= k < self.parts().2.len() ==> !(#[trigger] self.parts().2[k] is Neighbor),
            r matches Some(n) ==> exists|k: int| 0 <= k < self.parts().2.len() && self.parts().2[k] == RouteMapMatch::Neighbor(n)
                && forall|j: int| 0 <= j < k ==> !(#[trigger] self.parts().2[j] is Neighbor),
    {
        let mut i: usize = 0;
        while i < self.conds.len()
            invariant
                i <= self.conds@.len(),
                forall|k: int| 0 <= k < i ==> !(#[trigger] self.conds@[k] is Neighbor),
            decreases self.conds@.len() - i,
        {
            match &self.conds[i] {
                RouteMapMatch::Neighbor(n) => {
                    return Some(*n);
                },
                _ => {},
            }
            i += 1;
        }
        None
    }
}

/// The parts of two route maps are the same: equal order, state and match statements, and set
/// actions that are pairwise the same.
pub open spec fn same_parts(
    a: (usize, RouteMapState, Seq<RouteMapMatch>, Seq<RouteMapSet>),
    b: (usize, RouteMapState, Seq<RouteMapMatch>, Seq<RouteMapSet>),
) -> bool {
    &&& a.0 == b.0
    &&& a.1 == b.1
    &&& a.2 == b.2
    &&& a.3.len() == b.3.len()
    &&& forall|i: int| 0 <= i < a.3.len() ==> (#[trigger] a.3[i]).same_as(b.3[i])
}

impl RouteMap {
    /// Whether both route maps are the same.
    pub fn equals(&self, other: &RouteMap) -> (r: bool)
        ensures
            r == same_parts(self.parts(), other.parts()),
    {
        if self.order != other.order || self.state != other.state || self.conds.len() != other.conds.len()
            || self.set.len() != other.set.len() {
            return false;
        }
        let mut i: usize = 0;
        while i < self.conds.len()
            invariant
                i <= self.conds@.len(),
                self.conds@.len() == other.conds@.len(),
                forall|k: int| 0 <= k < i ==> #[trigger] self.conds@[k] == other.conds@[k],
            decreases self.conds@.len() - i,
        {
            if self.conds[i] != other.conds[i] {
                return false;
            }
            i += 1;
        }
        assert(self.conds@ =~= other.conds@);
        let mut j: usize = 0;
        while j < self.set.len()
            invariant
                j <= self.set@.len(),
                self.set@.len() == other.set@.len(),
                forall|k: int| 0 <= k < j ==> (#[trigger] self.set@[k]).same_as(other.set@[k]),
            decreases self.set@.len() - j,
        {
            if !self.set[j].equals(&other.set[j]) {
                return false;
            }
            j += 1;
        }
        true
    }
}

impl PartialEq for RouteMap {
    fn eq(&self, other: &Self) -> (r: bool) {
        self.equals(other)
    }
}

impl PartialEqSpecImpl for RouteMap {
    open spec fn obeys_eq_spec() -> bool {
        true
    }

    open spec fn eq_spec(&self, other: &RouteMap) -> bool {
        same_parts(self.parts(), other.parts())
    }
}

impl Clone for RouteMap {
    fn clone(&self) -> (r: Self)
        ensures
            r.parts() == self.parts(),
    {
        RouteMap::new(self.order, self.state, copy_matches(&self.conds), copy_sets(&self.set))
    }
}

/// How a clause on numbers is written: a range as `in (a..b)`, an exclusive one as `in (a..b])`,
/// an exact value as `== a`.
pub open spec fn clause_text(c: RouteMapMatchClause<nat>) -> Seq<char> {
    match c {
        RouteMapMatchClause::Range(a, b) => "in ("@ + decimal(a) + ".."@ + decimal(b) + ")"@,
        RouteMapMatchClause::RangeExclusive(a, b) => "in ("@ + decimal(a) + ".."@ + decimal(b) + "])"@,
        RouteMapMatchClause::Equal(a) => "== "@ + decimal(a),
    }
}

impl RouteMapMatchClause<Prefix> {
    /// The clause on the numbers of the prefixes.
    pub open spec fn numbers(self) -> RouteMapMatchClause<nat> {
        match self {
            RouteMapMatchClause::Range(a, b) => RouteMapMatchClause::Range(a.0 as nat, b.0 as nat),
            RouteMapMatchClause::RangeExclusive(a, b) => RouteMapMatchClause::RangeExclusive(a.0 as nat, b.0 as nat),
            RouteMapMatchClause::Equal(a) => RouteMapMatchClause::Equal(a.0 as nat),
        }
    }

    /// Represent the clause as a string, with the numbers of the prefixes.
    pub fn repr(&self) -> (s: String)
        ensures
            s@ == clause_text(self.numbers()),
    {
        let c: RouteMapMatchClause<u32> = match self {
            RouteMapMatchClause::Range(a, b) => RouteMapMatchClause::Range(a.0, b.0),
            RouteMapMatchClause::RangeExclusive(a, b) => RouteMapMatchClause::RangeExclusive(a.0, b.0),
            RouteMapMatchClause::Equal(a) => RouteMapMatchClause::Equal(a.0),
        };
        c.repr()
    }
}

impl RouteMapMatchClause<u32> {
    /// The clause on the numbers.
    pub open spec fn numbers(self) -> RouteMapMatchClause<nat> {
        match self {
            RouteMapMatchClause::Range(a, b) => RouteMapMatchClause::Range(a as nat, b as nat),
            RouteMapMatchClause::RangeExclusive(a, b) => RouteMapMatchClause::RangeExclusive(a as nat, b as nat),
            RouteMapMatchClause::Equal(a) => RouteMapMatchClause::Equal(a as nat),
        }
    }

    /// Represent the clause as a string.
    pub fn repr(&self) -> (s: String)
        ensures
            s@ == clause_text(self.numbers()),
    {
        match self {
            RouteMapMatchClause::Range(a, b) => {
                let mut s = String::from_str("in (");
                append_u32(&mut s, *a);
                s.append("..");
                append_u32(&mut s, *b);
                s.append(")");
                s
            },
            RouteMapMatchClause::RangeExclusive(a, b) => {
                let mut s = String::from_str("in (");
                append_u32(&mut s, *a);
                s.append("..");
                append_u32(&mut s, *b);
                s.append("])");
                s
            },
            RouteMapMatchClause::Equal(a) => {
                let mut s = String::from_str("== ");
                append_u32(&mut s, *a);
                s
            },
        }
    }
}

impl RouteMapMatchClause<usize> {
    /// The clause on the numbers.
    pub open spec fn numbers(self) -> RouteMapMatchClause<nat> {
        match self {
            RouteMapMatchClause::Range(a, b) => RouteMapMatchClause::Range(a as nat, b as nat),
            RouteMapMatchClause::RangeExclusive(a, b) => RouteMapMatchClause::RangeExclusive(a as nat, b as nat),
            RouteMapMatchClause::Equal(a) => RouteMapMatchClause::Equal(a as nat),
        }
    }

    /// Represent the clause as a string.
    pub fn repr(&self) -> (s: String)
        ensures
            s@ == clause_text(self.numbers()),
    {
        match self {
            RouteMapMatchClause::Range(a, b) => {
                let mut s = String::from_str("in (");
                append_decimal(&mut s, *a);
                s.append("..");
                append_decimal(&mut s, *b);
                s.append(")");
                s
            },
            RouteMapMatchClause::RangeExclusive(a, b) => {
                let mut s = String::from_str("in (");
                append_decimal(&mut s, *a);
                s.append("..");
                append_decimal(&mut s, *b);
                s.append("])");
                s
            },
            RouteMapMatchClause::Equal(a) => {
                let mut s = String::from_str("== ");
                append_decimal(&mut s, *a);
                s
            },
        }
    }
}

impl RouteMapMatchAsPath {
    /// How the clause is written: `a in AsPath`, or `len(AsPath)` and the clause on the length.
    pub open spec fn text(self) -> Seq<char> {
        match self {
            RouteMapMatchAsPath::Contains(a) => decimal(a.0 as nat) + " in AsPath"@,
            RouteMapMatchAsPath::Length(c) => "len(AsPath) "@ + clause_text(c.numbers()),
        }
    }

    /// Represent the clause as a string.
    pub fn repr(&self) -> (s: String)
        ensures
            s@ == self.text(),
    {
        match self {
            RouteMapMatchAsPath::Contains(a) => {
                let mut s = String::new();
                append_u32(&mut s, a.0);
                s.append(" in AsPath");
                assert(s@ =~= self.text());
                s
            },
            RouteMapMatchAsPath::Length(c) => {
                let mut s = String::from_str("len(AsPath) ");
                let t = c.repr();
                s.append(t.as_str());
                s
            },
        }
    }
}

/// What the route maps `maps`, checked in their order, make of the entry `e`: the first one that
/// matches decides, with `(true, None)` where it denies and `(true, Some(..))` with its set
/// actions applied where it allows; `(false, Some(e))` where none matches.
pub open spec fn maps_outcome(maps: Seq<RouteMap>, e: EntryView) -> (bool, Option<EntryView>)
    decreases maps.len(),
{
    if maps.len() == 0 {
        (false, Some(e))
    } else if all_match(maps[0].parts().2, e) {
        if maps[0].parts().1 == RouteMapState::Deny {
            (true, None)
        } else {
            (true, Some(sets_applied(maps[0].parts().3, e)))
        }
    } else {
        maps_outcome(maps.drop_first(), e)
    }
}

/// Applies the route maps `maps` in their order to the entry: the first one that matches decides.
#[verifier::loop_isolation(false)]
pub fn apply_route_maps(maps: &Vec<RouteMap>, entry: BgpRibEntry) -> (r: (bool, Option<BgpRibEntry>))
    ensures
        r.0 == maps_outcome(maps@, entry@).0,
        r.1 is Some == maps_outcome(maps@, entry@).1 is Some,
        r.1 matches Some(e) ==> e@ == maps_outcome(maps@, entry@).1->Some_0,
{
    let ghost start = entry@;
    let mut entry = entry;
    let mut i: usize = 0;
    proof {
        assert(maps@.skip(0) =~= maps@);
    }
    while i < maps.len()
        invariant
            i <= maps@.len(),
            entry@ == start,
            maps_outcome(maps@.skip(i as int), start) == maps_outcome(maps@, start),
        decreases maps@.len() - i,
    {
        proof {
            assert(maps@.skip(i as int).drop_first() =~= maps@.skip(i + 1));
            assert(maps@.skip(i as int)[0] == maps@[i as int]);
            assert(maps@.skip(i as int).len() > 0);
        }
        let (matched, out) = maps[i].apply(entry);
        if matched {
            proof {
                assert(all_match(maps@[i as int].parts().2, start));
                let rest = maps@.skip(i as int);
                assert(all_match(rest[0].parts().2, start));
                assert(maps_outcome(rest, start).0);
            }
            return (true, out);
        }
        entry = match out {
            Some(e) => e,
            None => {
                proof {
                    assert(false);
                }
                return (false, None);
            },
        };
        i += 1;
    }
    proof {
        assert(maps@.skip(i as int).len() == 0);
    }
    (false, Some(entry))
}

} // verus!
