//! # Network Configuration
//! This module represents the network configuration. There are several different structs in this
//! module. Here is an overview:
//!
//! - [`Config`]: Network-wide configuration. The datastructure is a collection of several
//!   [`ConfigExpr`].
//! - [`ConfigExpr`]: Single configuration expresison (line in a router configuraiton).
//! - [`ConfigPatch`]: Difference between two [`Config`] structs. The datastructure is a collection
//!   of several [`ConfigModifier`].
//! - [`ConfigModifier`]: A modification of a single [`ConfigExpr`] in a configuration. A
//!   modification can either be an insertion of a new expression, a removal of an existing
//!   expression, or a moification of an existing expression.
//!
//! Computing the difference of two configurations and applying it to the first makes it equal to
//! the second ([`lemma_patch_of_diff`]); a modifier followed by its reverse gives back the
//! configuration it was applied to ([`lemma_reverse_undoes`]).
use vstd::prelude::*;
use vstd::std_specs::cmp::{PartialEqSpec, PartialEqSpecImpl};
use crate::netsim::route_map::{same_parts, RouteMap, RouteMapDirection, RouteMapMatch, RouteMapSet, RouteMapState};
use crate::netsim::types::{BgpSessionType, ConfigError, LinkWeight, Prefix, RouterId};

verus! {

/// The order, the state, the match statements and the set actions of a route map.
pub type MapParts = (usize, RouteMapState, Seq<RouteMapMatch>, Seq<RouteMapSet>);

/// What a configuration expression holds, with a route map taken by its parts.
pub enum ExprView {
    /// Link weight of a single link (directional)
    IgpLinkWeight { source: RouterId, target: RouterId, weight: LinkWeight },
    /// A BGP session
    BgpSession { source: RouterId, target: RouterId, session_type: BgpSessionType },
    /// A BGP route map
    BgpRouteMap { router: RouterId, direction: RouteMapDirection, map: MapParts },
    /// A static route
    StaticRoute { router: RouterId, prefix: Prefix, target: RouterId },
}

impl ExprView {
    /// The key of the expression: what it configures, without the value it sets.
    pub open spec fn key(self) -> ConfigExprKey {
        match self {
            ExprView::IgpLinkWeight { source, target, .. } => ConfigExprKey::IgpLinkWeight { source, target },
            ExprView::BgpSession { source, target, .. } => if source < target {
                ConfigExprKey::BgpSession { speaker_a: source, speaker_b: target }
            } else {
                ConfigExprKey::BgpSession { speaker_a: target, speaker_b: source }
            },
            ExprView::BgpRouteMap { router, direction, map } => ConfigExprKey::BgpRouteMap {
                router,
                direction,
                order: map.0,
            },
            ExprView::StaticRoute { router, prefix, .. } => ConfigExprKey::StaticRoute { router, prefix },
        }
    }

    /// Both expressions are equal: weights are compared by the numbers they encode, route maps
    /// by their parts.
    pub open spec fn same(self, other: ExprView) -> bool {
        match (self, other) {
            (
                ExprView::IgpLinkWeight { source: s1, target: t1, weight: w1 },
                ExprView::IgpLinkWeight { source: s2, target: t2, weight: w2 },
            ) => s1 == s2 && t1 == t2 && w1.same_value(w2),
            (
                ExprView::BgpRouteMap { router: r1, direction: d1, map: m1 },
                ExprView::BgpRouteMap { router: r2, direction: d2, map: m2 },
            ) => r1 == r2 && d1 == d2 && same_parts(m1, m2),
            _ => self == other,
        }
    }

    /// The expression is equal to itself: it holds no weight that is NaN.
    pub open spec fn regular(self) -> bool {
        self.same(self)
    }

    /// The routers on which the expression is configured.
    pub open spec fn routers(self) -> Seq<RouterId> {
        match self {
            ExprView::IgpLinkWeight { source, target, .. } => seq![source, target],
            ExprView::BgpSession { source, target, .. } => seq![source, target],
            ExprView::BgpRouteMap { router, .. } => seq![router],
            ExprView::StaticRoute { router, .. } => seq![router],
        }
    }
}

/// # Single configuration expression
/// The expression sets a specific thing in the network.
#[derive(Debug)]
pub enum ConfigExpr {
    /// Sets the link weight of a single link (directional)
    IgpLinkWeight {
        /// Source router for link
        source: RouterId,
        /// Target router for link
        target: RouterId,
        /// Link weight for IGP
        weight: LinkWeight,
    },
    /// Create a BGP session
    BgpSession {
        /// Source router for Session
        source: RouterId,
        /// Target router for Session
        target: RouterId,
        /// Session type
        session_type: BgpSessionType,
    },
    /// Set the BGP Route Map
    BgpRouteMap {
        /// Router to configure the route map
        router: RouterId,
        /// Direction (incoming or outgoing)
        direction: RouteMapDirection,
        /// Route Map
        map: RouteMap,
    },
    /// Set a static route
    StaticRoute {
        /// On which router set the static route
        router: RouterId,
        /// For which prefix to set the static route
        prefix: Prefix,
        /// To which neighbor to forward packets to.
        target: RouterId,
    },
}

impl View for ConfigExpr {
    type V = ExprView;

    open spec fn view(&self) -> ExprView {
        match self {
            ConfigExpr::IgpLinkWeight { source, target, weight } => ExprView::IgpLinkWeight {
                source: *source,
                target: *target,
                weight: *weight,
            },
            ConfigExpr::BgpSession { source, target, session_type } => ExprView::BgpSession {
                source: *source,
                target: *target,
                session_type: *session_type,
            },
            ConfigExpr::BgpRouteMap { router, direction, map } => ExprView::BgpRouteMap {
                router: *router,
                direction: *direction,
                map: map.parts(),
            },
            ConfigExpr::StaticRoute { router, prefix, target } => ExprView::StaticRoute {
                router: *router,
                prefix: *prefix,
                target: *target,
            },
        }
    }
}

impl ConfigExpr {
    /// Returns the key of the config expression. The key says what the expression configures,
    /// without the value it sets; a configuration holds one expression per key.
    pub fn key(&self) -> (r: ConfigExprKey)
        ensures
            r == self@.key(),
    {
        match self {
            ConfigExpr::IgpLinkWeight { source, target, weight: _ } => {
                ConfigExprKey::IgpLinkWeight { source: *source, target: *target }
            },
            ConfigExpr::BgpSession { source, target, session_type: _ } => {
                if source < target {
                    ConfigExprKey::BgpSession { speaker_a: *source, speaker_b: *target }
                } else {
                    ConfigExprKey::BgpSession { speaker_a: *target, speaker_b: *source }
                }
            },
            ConfigExpr::BgpRouteMap { router, direction, map } => ConfigExprKey::BgpRouteMap {
                router: *router,
                direction: *direction,
                order: map.order(),
            },
            ConfigExpr::StaticRoute { router, prefix, target: _ } => {
                ConfigExprKey::StaticRoute { router: *router, prefix: *prefix }
            },
        }
    }

    /// Returns the router IDs on which the configuration is applied and have to be changed.
    pub fn routers(&self) -> (r: Vec<RouterId>)
        ensures
            r@ == self@.routers(),
    {
        match self {
            ConfigExpr::IgpLinkWeight { source, target, .. } => vec![*source, *target],
            ConfigExpr::BgpSession { source, target, .. } => vec![*source, *target],
            ConfigExpr::BgpRouteMap { router, .. } => vec![*router],
            ConfigExpr::StaticRoute { router, .. } => vec![*router],
        }
    }

    /// Whether both expressions are equal.
    pub fn equals(&self, other: &ConfigExpr) -> (r: bool)
        ensures
            r == self@.same(other@),
    {
        match (self, other) {
            (
                ConfigExpr::IgpLinkWeight { source: s1, target: t1, weight: w1 },
                ConfigExpr::IgpLinkWeight { source: s2, target: t2, weight: w2 },
            ) => s1 == s2 && t1 == t2 && w1.same(w2),
            (
                ConfigExpr::BgpSession { source: s1, target: t1, session_type: x1 },
                ConfigExpr::BgpSession { source: s2, target: t2, session_type: x2 },
            ) => s1 == s2 && t1 == t2 && x1 == x2,
            (
                ConfigExpr::BgpRouteMap { router: r1, direction: d1, map: m1 },
                ConfigExpr::BgpRouteMap { router: r2, direction: d2, map: m2 },
            ) => r1 == r2 && d1 == d2 && m1.equals(m2),
            (
                ConfigExpr::StaticRoute { router: r1, prefix: p1, target: t1 },
                ConfigExpr::StaticRoute { router: r2, prefix: p2, target: t2 },
            ) => r1 == r2 && p1 == p2 && t1 == t2,
            _ => false,
        }
    }
}

impl Clone for ConfigExpr {
    fn clone(&self) -> (r: Self)
        ensures
            r@ == self@,
    {
        match self {
            ConfigExpr::IgpLinkWeight { source, target, weight } => ConfigExpr::IgpLinkWeight {
                source: *source,
                target: *target,
                weight: *weight,
            },
            ConfigExpr::BgpSession { source, target, session_type } => ConfigExpr::BgpSession {
                source: *source,
                target: *target,
                session_type: *session_type,
            },
            ConfigExpr::BgpRouteMap { router, direction, map } => ConfigExpr::BgpRouteMap {
                router: *router,
                direction: *direction,
                map: map.clone(),
            },
            ConfigExpr::StaticRoute { router, prefix, target } => ConfigExpr::StaticRoute {
                router: *router,
                prefix: *prefix,
                target: *target,
            },
        }
    }
}

impl PartialEq for ConfigExpr {
    fn eq(&self, other: &Self) -> (r: bool) {
        self.equals(other)
    }
}

impl PartialEqSpecImpl for ConfigExpr {
    open spec fn obeys_eq_spec() -> bool {
        true
    }

    open spec fn eq_spec(&self, other: &ConfigExpr) -> bool {
        self@.same(other@)
    }
}

/// # Key for Config Expressions
/// Key for a single configuration expression, where the value is missing. A configuration holds
/// at most one expression for each key.
#[derive(Debug, Clone, Copy, PartialEq, Eq, Structural, Hash)]
pub enum ConfigExprKey {
    /// Sets the link weight of a single link (directional)
    IgpLinkWeight {
        /// Source router for link
        source: RouterId,
        /// Target router for link
        target: RouterId,
    },
    /// Create a BGP session
    BgpSession {
        /// Source router for Session
        speaker_a: RouterId,
        /// Target router for Session
        speaker_b: RouterId,
    },
    /// Sets the local preference of an incoming route from an eBGp session, based on the router ID.
    BgpRouteMap {
        /// Rotuer for configuration
        router: RouterId,
        /// External Router of which to modify all BGP routes.
        direction: RouteMapDirection,
        /// order of the route map
        order: usize,
    },
    /// Key for setting a static route
    StaticRoute {
        /// Router to be configured
        router: RouterId,
        /// Prefix for which to configure the router
        prefix: Prefix,
    },
}

/// What a modifier holds, with its expressions taken by their views.
pub enum ModView {
    /// Insert a new expression
    Insert(ExprView),
    /// Remove an existing expression
    Remove(ExprView),
    /// Change a config expression
    Update { from: ExprView, to: ExprView },
}

impl ModView {
    /// The key of the expression that the modifier sets.
    pub open spec fn key(self) -> ConfigExprKey {
        match self {
            ModView::Insert(e) => e.key(),
            ModView::Remove(e) => e.key(),
            ModView::Update { to, .. } => to.key(),
        }
    }

    /// The routers that the modifier changes.
    pub open spec fn routers(self) -> Seq<RouterId> {
        match self {
            ModView::Insert(e) => e.routers(),
            ModView::Remove(e) => e.routers(),
            ModView::Update { to, .. } => to.routers(),
        }
    }

    /// The modifier that undoes this one.
    pub open spec fn reverse(self) -> ModView {
        match self {
            ModView::Insert(e) => ModView::Remove(e),
            ModView::Remove(e) => ModView::Insert(e),
            ModView::Update { from, to } => ModView::Update { from: to, to: from },
        }
    }

    /// Both modifiers are equal: they are of the same kind, with equal expressions.
    pub open spec fn same(self, other: ModView) -> bool {
        match (self, other) {
            (ModView::Insert(a), ModView::Insert(b)) => a.same(b),
            (ModView::Remove(a), ModView::Remove(b)) => a.same(b),
            (ModView::Update { from: f1, to: t1 }, ModView::Update { from: f2, to: t2 }) => f1.same(f2)
                && t1.same(t2),
            _ => false,
        }
    }
}

/// # Config Modifier
/// A single patch to apply on a configuration. The modifier can either insert a new expression,
/// update an existing expression or remove an old expression.
#[derive(Debug)]
pub enum ConfigModifier {
    /// Insert a new expression
    Insert(ConfigExpr),
    /// Remove an existing expression
    Remove(ConfigExpr),
    /// Change a config expression
    Update {
        /// Configuration expression before the change
        from: ConfigExpr,
        /// New configuration expression, which replaces the `from` expression.
        to: ConfigExpr,
    },
}

impl View for ConfigModifier {
    type V = ModView;

    open spec fn view(&self) -> ModView {
        match self {
            ConfigModifier::Insert(e) => ModView::Insert(e@),
            ConfigModifier::Remove(e) => ModView::Remove(e@),
            ConfigModifier::Update { from, to } => ModView::Update { from: from@, to: to@ },
        }
    }
}

impl ConfigModifier {
    /// Returns the ConfigExprKey for the config expression stored inside.
    pub fn key(&self) -> (r: ConfigExprKey)
        ensures
            r == self@.key(),
    {
        match self {
            ConfigModifier::Insert(e) => e.key(),
            ConfigModifier::Remove(e) => e.key(),
            ConfigModifier::Update { to, .. } => to.key(),
        }
    }

    /// Returns the RouterId(s) of the router(s) which will be updated by this modifier
    pub fn routers(&self) -> (r: Vec<RouterId>)
        ensures
            r@ == self@.routers(),
    {
        match self {
            ConfigModifier::Insert(e) => e.routers(),
            ConfigModifier::Remove(e) => e.routers(),
            ConfigModifier::Update { to, .. } => to.routers(),
        }
    }

    /// Reverses the modifier. An insert becomes a remove, and viceversa. An update updates from the
    /// new one to the old one
    pub fn reverse(self) -> (r: Self)
        ensures
            r@ == self@.reverse(),
    {
        match self {
            ConfigModifier::Insert(e) => ConfigModifier::Remove(e),
            ConfigModifier::Remove(e) => ConfigModifier::Insert(e),
            ConfigModifier::Update { from, to } => ConfigModifier::Update { from: to, to: from },
        }
    }

    /// Whether both modifiers are equal.
    pub fn equals(&self, other: &ConfigModifier) -> (r: bool)
        ensures
            r == self@.same(other@),
    {
        match (self, other) {
            (ConfigModifier::Insert(a), ConfigModifier::Insert(b)) => a.equals(b),
            (ConfigModifier::Remove(a), ConfigModifier::Remove(b)) => a.equals(b),
            (ConfigModifier::Update { from: f1, to: t1 }, ConfigModifier::Update { from: f2, to: t2 }) => {
                f1.equals(f2) && t1.equals(t2)
            },
            _ => false,
        }
    }
}

impl Clone for ConfigModifier {
    fn clone(&self) -> (r: Self)
        ensures
            r@ == self@,
    {
        match self {
            ConfigModifier::Insert(e) => ConfigModifier::Insert(e.clone()),
            ConfigModifier::Remove(e) => ConfigModifier::Remove(e.clone()),
            ConfigModifier::Update { from, to } => ConfigModifier::Update { from: from.clone(), to: to.clone() },
        }
    }
}

impl PartialEq for ConfigModifier {
    fn eq(&self, other: &Self) -> (r: bool) {
        self.equals(other)
    }
}

impl PartialEqSpecImpl for ConfigModifier {
    open spec fn obeys_eq_spec() -> bool {
        true
    }

    open spec fn eq_spec(&self, other: &ConfigModifier) -> bool {
        self@.same(other@)
    }
}

/// # Config Patch
/// A series of `ConfigModifiers` which can be applied on a `Config` to get a new `Config`. The
/// series is an ordered list, and the modifiers are applied in the order they were added.
#[derive(Debug)]
pub struct ConfigPatch {
    /// List of all modifiers, in the order in which they are applied.
    pub modifiers: Vec<ConfigModifier>,
}

impl View for ConfigPatch {
    type V = Seq<ModView>;

    open spec fn view(&self) -> Seq<ModView> {
        self.modifiers@.map_values(|m: ConfigModifier| m@)
    }
}

impl ConfigPatch {
    /// Create an empty patch
    pub fn new() -> (r: Self)
        ensures
            r@ == Seq::<ModView>::empty(),
    {
        let r = ConfigPatch { modifiers: Vec::new() };
        assert(r@ =~= Seq::<ModView>::empty());
        r
    }

    /// Add a new modifier to the patch
    pub fn add(&mut self, modifier: ConfigModifier)
        ensures
            final(self)@ == old(self)@.push(modifier@),
    {
        self.modifiers.push(modifier);
        assert(self@ =~= old(self)@.push(modifier@));
    }
}

impl Default for ConfigPatch {
    fn default() -> (r: Self)
        ensures
            r@ == Seq::<ModView>::empty(),
    {
        Self::new()
    }
}

impl Clone for ConfigPatch {
    fn clone(&self) -> (r: Self)
        ensures
            r@ == self@,
    {
        let mut modifiers: Vec<ConfigModifier> = Vec::new();
        let mut i: usize = 0;
        while i < self.modifiers.len()
            invariant
                i <= self.modifiers@.len(),
                modifiers@.len() == i,
                forall|k: int| 0 <= k < i ==> (#[trigger] modifiers@[k])@ == self.modifiers@[k]@,
            decreases self.modifiers@.len() - i,
        {
            modifiers.push(self.modifiers[i].clone());
            i += 1;
        }
        let r = ConfigPatch { modifiers };
        assert(r@ =~= self@);
        r
    }
}

impl PartialEq for ConfigPatch {
    fn eq(&self, other: &Self) -> (r: bool) {
        if self.modifiers.len() != other.modifiers.len() {
            return false;
        }
        let mut i: usize = 0;
        while i < self.modifiers.len()
            invariant
                i <= self.modifiers@.len(),
                self.modifiers@.len() == other.modifiers@.len(),
                forall|k: int| 0 <= k < i ==> (#[trigger] self@[k]).same(other@[k]),
            decreases self.modifiers@.len() - i,
        {
            assert(self@[i as int] == self.modifiers@[i as int]@ && other@[i as int] == other.modifiers@[i as int]@);
            if !self.modifiers[i].equals(&other.modifiers[i]) {
                return false;
            }
            i += 1;
        }
        true
    }
}

impl PartialEqSpecImpl for ConfigPatch {
    open spec fn obeys_eq_spec() -> bool {
        true
    }

    open spec fn eq_spec(&self, other: &ConfigPatch) -> bool {
        &&& self@.len() == other@.len()
        &&& forall|i: int| 0 <= i < self@.len() ==> (#[trigger] self@[i]).same(other@[i])
    }
}

/// No two expressions have the same key.
pub open spec fn unique_keys(s: Seq<ExprView>) -> bool {
    forall|i: int, j: int|
        0 <= i < s.len() && 0 <= j < s.len() && i != j ==> #[trigger] s[i].key() != #[trigger] s[j].key()
}

/// Some expression has the key `k`.
pub open spec fn has_key(s: Seq<ExprView>, k: ConfigExprKey) -> bool {
    exists|i: int| 0 <= i < s.len() && #[trigger] s[i].key() == k
}

/// The expressions by their keys.
pub open spec fn as_map(s: Seq<ExprView>) -> Map<ConfigExprKey, ExprView> {
    Map::new(
        |k: ConfigExprKey| has_key(s, k),
        |k: ConfigExprKey| s[choose|i: int| 0 <= i < s.len() && #[trigger] s[i].key() == k],
    )
}

/// Each expression is found under its key.
pub proof fn lemma_as_map(s: Seq<ExprView>)
    requires
        unique_keys(s),
    ensures
        forall|i: int|
            0 <= i < s.len() ==> as_map(s).contains_key(#[trigger] s[i].key()) && as_map(s)[s[i].key()] == s[i],
{
    assert forall|i: int| 0 <= i < s.len() implies as_map(s).contains_key(#[trigger] s[i].key()) && as_map(s)[s[i].key()]
        == s[i] by {
        assert(has_key(s, s[i].key()));
        let j = choose|j: int| 0 <= j < s.len() && #[trigger] s[j].key() == s[i].key();
        assert(s[j].key() == s[i].key());
    }
}

/// A map that holds each expression under its key, and no other key, is the map of the
/// expressions.
proof fn lemma_map_of(s: Seq<ExprView>, m: Map<ConfigExprKey, ExprView>)
    requires
        unique_keys(s),
        forall|k: ConfigExprKey| #[trigger] m.contains_key(k) <==> has_key(s, k),
        forall|i: int| 0 <= i < s.len() ==> m[#[trigger] s[i].key()] == s[i],
    ensures
        as_map(s) == m,
{
    lemma_as_map(s);
    assert forall|k: ConfigExprKey| #[trigger] as_map(s).contains_key(k) implies as_map(s)[k] == m[k] by {
        let i = choose|i: int| 0 <= i < s.len() && #[trigger] s[i].key() == k;
        assert(as_map(s)[s[i].key()] == s[i]);
    }
    assert(as_map(s) =~= m);
}

/// Appending an expression with a new key adds it to the map.
proof fn lemma_push(s: Seq<ExprView>, e: ExprView)
    requires
        unique_keys(s),
        !has_key(s, e.key()),
    ensures
        unique_keys(s.push(e)),
        as_map(s.push(e)) == as_map(s).insert(e.key(), e),
{
    let t = s.push(e);
    assert forall|i: int, j: int| 0 <= i < t.len() && 0 <= j < t.len() && i != j implies #[trigger] t[i].key()
        != #[trigger] t[j].key() by {
        if i < s.len() && j < s.len() {
            assert(s[i].key() != s[j].key());
        } else if i < s.len() {
            assert(s[i].key() != e.key());
        } else {
            assert(s[j].key() != e.key());
        }
    }
    lemma_as_map(s);
    let m = as_map(s).insert(e.key(), e);
    assert forall|k: ConfigExprKey| #[trigger] m.contains_key(k) <==> has_key(t, k) by {
        if has_key(s, k) {
            let i = choose|i: int| 0 <= i < s.len() && #[trigger] s[i].key() == k;
            assert(t[i].key() == k);
        }
        if k == e.key() {
            assert(t[s.len() as int].key() == k);
        }
        if has_key(t, k) {
            let i = choose|i: int| 0 <= i < t.len() && #[trigger] t[i].key() == k;
            if i < s.len() {
                assert(s[i].key() == k);
            }
        }
    }
    assert forall|i: int| 0 <= i < t.len() implies m[#[trigger] t[i].key()] == t[i] by {
        if i < s.len() {
            assert(s[i].key() != e.key());
            assert(as_map(s)[s[i].key()] == s[i]);
        }
    }
    lemma_map_of(t, m);
}

/// Removing the expression at `i` removes its key from the map.
proof fn lemma_remove(s: Seq<ExprView>, i: int)
    requires
        unique_keys(s),
        0 <= i < s.len(),
    ensures
        unique_keys(s.remove(i)),
        as_map(s.remove(i)) == as_map(s).remove(s[i].key()),
{
    let t = s.remove(i);
    assert forall|a: int, b: int| 0 <= a < t.len() && 0 <= b < t.len() && a != b implies #[trigger] t[a].key()
        != #[trigger] t[b].key() by {
        let a1 = if a < i { a } else { a + 1 };
        let b1 = if b < i { b } else { b + 1 };
        assert(t[a] == s[a1] && t[b] == s[b1]);
        assert(s[a1].key() != s[b1].key());
    }
    lemma_as_map(s);
    let m = as_map(s).remove(s[i].key());
    assert forall|k: ConfigExprKey| #[trigger] m.contains_key(k) <==> has_key(t, k) by {
        if m.contains_key(k) {
            let j = choose|j: int| 0 <= j < s.len() && #[trigger] s[j].key() == k;
            assert(j != i);
            let j1 = if j < i { j } else { j - 1 };
            assert(t[j1] == s[j]);
            assert(t[j1].key() == k);
        }
        if has_key(t, k) {
            let j = choose|j: int| 0 <= j < t.len() && #[trigger] t[j].key() == k;
            let j1 = if j < i { j } else { j + 1 };
            assert(t[j] == s[j1]);
            assert(s[j1].key() == k);
            assert(s[j1].key() != s[i].key());
        }
    }
    assert forall|a: int| 0 <= a < t.len() implies m[#[trigger] t[a].key()] == t[a] by {
        let a1 = if a < i { a } else { a + 1 };
        assert(t[a] == s[a1]);
        assert(s[a1].key() != s[i].key());
        assert(as_map(s)[s[a1].key()] == s[a1]);
    }
    lemma_map_of(t, m);
}

/// Replacing the expression at `i` by one with the same key replaces it in the map.
proof fn lemma_update(s: Seq<ExprView>, i: int, e: ExprView)
    requires
        unique_keys(s),
        0 <= i < s.len(),
        e.key() == s[i].key(),
    ensures
        unique_keys(s.update(i, e)),
        as_map(s.update(i, e)) == as_map(s).insert(e.key(), e),
{
    let t = s.update(i, e);
    assert forall|a: int, b: int| 0 <= a < t.len() && 0 <= b < t.len() && a != b implies #[trigger] t[a].key()
        != #[trigger] t[b].key() by {
        assert(s[a].key() != s[b].key());
    }
    lemma_as_map(s);
    let m = as_map(s).insert(e.key(), e);
    assert forall|k: ConfigExprKey| #[trigger] m.contains_key(k) <==> has_key(t, k) by {
        if has_key(s, k) {
            let j = choose|j: int| 0 <= j < s.len() && #[trigger] s[j].key() == k;
            assert(t[j].key() == k);
        }
        if k == e.key() {
            assert(t[i].key() == k);
        }
        if has_key(t, k) {
            let j = choose|j: int| 0 <= j < t.len() && #[trigger] t[j].key() == k;
            if j != i {
                assert(s[j].key() == k);
            }
        }
    }
    assert forall|a: int| 0 <= a < t.len() implies m[#[trigger] t[a].key()] == t[a] by {
        if a != i {
            assert(s[a].key() != s[i].key());
            assert(as_map(s)[s[a].key()] == s[a]);
        }
    }
    lemma_map_of(t, m);
}

/// What applying `m` to a configuration with the expressions `c` gives: `None` where the
/// modifier cannot be applied. An insertion needs a key that is not configured; a removal needs
/// the configured expression to equal the one it names; an update needs `from` and `to` to have
/// one key and that key to be configured, whatever expression stands under it.
pub open spec fn apply_one(c: Map<ConfigExprKey, ExprView>, m: ModView) -> Option<Map<ConfigExprKey, ExprView>> {
    match m {
        ModView::Insert(e) => if c.contains_key(e.key()) {
            None
        } else {
            Some(c.insert(e.key(), e))
        },
        ModView::Remove(e) => if c.contains_key(e.key()) && c[e.key()].same(e) {
            Some(c.remove(e.key()))
        } else {
            None
        },
        ModView::Update { from, to } => if from.key() == to.key() && c.contains_key(from.key()) {
            Some(c.insert(from.key(), to))
        } else {
            None
        },
    }
}

/// What applying the modifiers in turn gives, or the first one that cannot be applied.
pub open spec fn apply_all(c: Map<ConfigExprKey, ExprView>, mods: Seq<ModView>) -> Result<
    Map<ConfigExprKey, ExprView>,
    ModView,
>
    decreases mods.len(),
{
    if mods.len() == 0 {
        Ok(c)
    } else {
        match apply_all(c, mods.drop_last()) {
            Ok(c1) => match apply_one(c1, mods.last()) {
                Some(c2) => Ok(c2),
                None => Err(mods.last()),
            },
            Err(bad) => Err(bad),
        }
    }
}

/// Once a modifier cannot be applied, the modifiers after it change nothing of the outcome.
proof fn lemma_apply_all_err(c: Map<ConfigExprKey, ExprView>, mods: Seq<ModView>, n: int)
    requires
        0 <= n <= mods.len(),
        apply_all(c, mods.take(n)) is Err,
    ensures
        apply_all(c, mods) == apply_all(c, mods.take(n)),
    decreases mods.len() - n,
{
    if n < mods.len() {
        assert(mods.take(n + 1).drop_last() =~= mods.take(n));
        lemma_apply_all_err(c, mods, n + 1);
    } else {
        assert(mods.take(n) =~= mods);
    }
}

/// # Network Configuration
/// This struct represents the configuration of a network. It is made up of several *unordered*
/// [`ConfigExpr`]. Two configurations can be compared by computing the difference, which returns a
/// [`ConfigPatch`].
///
/// In comparison to the Patch, a `Config` struct is unordered, which means that it just represents
/// the configuration, but not the way how it got there.
///
/// The `Config` struct contains only "unique" `ConfigExpr`. This means, that a config cannot have a
/// expression to set a specific link weight to 1, and another expression setting the same link to
/// 2.0.
#[derive(Debug)]
pub struct Config {
    expr: Vec<ConfigExpr>,
}

impl View for Config {
    type V = Map<ConfigExprKey, ExprView>;

    /// The expressions by their keys.
    open spec fn view(&self) -> Map<ConfigExprKey, ExprView> {
        as_map(self.exprs())
    }
}

impl Config {
    /// The expressions, in the order in which they are held.
    pub closed spec fn exprs(&self) -> Seq<ExprView> {
        self.expr@.map_values(|e: ConfigExpr| e@)
    }

    /// No two expressions of the configuration have the same key.
    pub open spec fn wf(&self) -> bool {
        unique_keys(self.exprs())
    }

    #[verifier::type_invariant]
    spec fn inv(self) -> bool {
        unique_keys(self.exprs())
    }

    /// Create an empty configuration
    pub fn new() -> (r: Self)
        ensures
            r.wf(),
            r.exprs() == Seq::<ExprView>::empty(),
            r@ == Map::<ConfigExprKey, ExprView>::empty(),
    {
        let r = Config { expr: Vec::new() };
        assert(r.exprs() =~= Seq::<ExprView>::empty());
        assert(r@ =~= Map::<ConfigExprKey, ExprView>::empty());
        r
    }

    /// The configuration is well formed.
    pub fn well_formed(&self)
        ensures
            self.wf(),
    {
        proof {
            use_type_invariant(self);
        }
    }

    /// The position of the expression with the given key.
    fn find(&self, key: &ConfigExprKey) -> (r: Option<usize>)
        ensures
            r is None ==> !has_key(self.exprs(), *key),
            r matches Some(i) ==> i < self.exprs().len() && self.exprs()[i as int].key() == *key,
    {
        let mut i: usize = 0;
        while i < self.expr.len()
            invariant
                i <= self.expr@.len(),
                forall|j: int| 0 <= j < i ==> (#[trigger] self.exprs()[j]).key() != *key,
            decreases self.expr@.len() - i,
        {
            assert(self.exprs()[i as int] == self.expr@[i as int]@);
            if self.expr[i].key() == *key {
                return Some(i);
            }
            i += 1;
        }
        proof {
            if has_key(self.exprs(), *key) {
                let j = choose|j: int| 0 <= j < self.exprs().len() && #[trigger] self.exprs()[j].key() == *key;
                assert(self.exprs()[j].key() != *key);
            }
        }
        None
    }

    /// Add a single configuration expression. This fails if a similar expression already exists.
    pub fn add(&mut self, expr: ConfigExpr) -> (r: Result<(), ConfigError>)
        ensures
            final(self).wf(),
            r is Ok <==> !old(self)@.contains_key(expr@.key()),
            r is Ok ==> final(self).exprs() == old(self).exprs().push(expr@) && final(self)@ == old(self)@.insert(
                expr@.key(),
                expr@,
            ),
            r is Err ==> (r matches Err(ConfigError::ConfigExprOverload)) && final(self).exprs() == old(self).exprs(),
    {
        proof {
            use_type_invariant(&*self);
        }
        let key = expr.key();
        match self.find(&key) {
            Some(_) => {
                proof {
                    lemma_as_map(self.exprs());
                }
                Err(ConfigError::ConfigExprOverload)
            },
            None => {
                let ghost e = expr@;
                let ghost before = self.exprs();
                let mut v: Vec<ConfigExpr> = Vec::new();
                std::mem::swap(&mut self.expr, &mut v);
                v.push(expr);
                proof {
                    assert(v@.map_values(|x: ConfigExpr| x@) =~= before.push(e));
                    lemma_push(before, e);
                }
                self.expr = v;
                proof {
                    use_type_invariant(&*self);
                }
                Ok(())
            },
        }
    }

    /// Apply a single `ConfigModifier` to the configuration, updating the `Config` struct. This
    /// function checks if the modifier can be applied. If the modifier inserts an already existing
    /// expression, or if the modifier removes or updates a non-existing expression, the function
    /// will return an error, and the `Config` struct will remain untouched.
    ///
    /// For Modifiers of type `ConfigModifier::Update`, the first `from` expression does not exactly
    /// need to match the existing config expression. It just needs to have the same `ConfigExprKey`
    /// as the already existing expression. Also, both expressions in `ConfigModifier::Update` must
    /// produce the same `ConfigExprKey`.
    pub fn apply_modifier(&mut self, modifier: &ConfigModifier) -> (r: Result<(), ConfigError>)
        ensures
            final(self).wf(),
            match apply_one(old(self)@, modifier@) {
                Some(m) => r is Ok && final(self)@ == m,
                None => (r matches Err(ConfigError::ConfigModifierError(x)) && x@ == modifier@) && final(self).exprs()
                    == old(self).exprs(),
            },
    {
        proof {
            use_type_invariant(&*self);
            lemma_as_map(self.exprs());
        }
        let ghost before = self.exprs();
        match modifier {
            ConfigModifier::Insert(expr) => {
                let key = expr.key();
                match self.find(&key) {
                    Some(_) => {
                        return Err(ConfigError::ConfigModifierError(modifier.clone()));
                    },
                    None => {
                        let e = expr.clone();
                        let mut v: Vec<ConfigExpr> = Vec::new();
                        std::mem::swap(&mut self.expr, &mut v);
                        v.push(e);
                        proof {
                            assert(v@.map_values(|x: ConfigExpr| x@) =~= before.push(expr@));
                            lemma_push(before, expr@);
                        }
                        self.expr = v;
                    },
                }
            },
            ConfigModifier::Remove(expr) => {
                let key = expr.key();
                match self.find(&key) {
                    Some(i) => {
                        assert(before[i as int] == self.expr@[i as int]@);
                        if !self.expr[i].equals(expr) {
                            return Err(ConfigError::ConfigModifierError(modifier.clone()));
                        }
                        let mut v: Vec<ConfigExpr> = Vec::new();
                        std::mem::swap(&mut self.expr, &mut v);
                        v.remove(i);
                        proof {
                            assert(v@.map_values(|x: ConfigExpr| x@) =~= before.remove(i as int));
                            lemma_remove(before, i as int);
                        }
                        self.expr = v;
                    },
                    None => {
                        return Err(ConfigError::ConfigModifierError(modifier.clone()));
                    },
                }
            },
            ConfigModifier::Update { from, to } => {
                let key = from.key();
                if key != to.key() {
                    return Err(ConfigError::ConfigModifierError(modifier.clone()));
                }
                match self.find(&key) {
                    Some(i) => {
                        let e = to.clone();
                        let mut v: Vec<ConfigExpr> = Vec::new();
                        std::mem::swap(&mut self.expr, &mut v);
                        v.set(i, e);
                        proof {
                            assert(v@.map_values(|x: ConfigExpr| x@) =~= before.update(i as int, to@));
                            lemma_update(before, i as int, to@);
                        }
                        self.expr = v;
                    },
                    None => {
                        return Err(ConfigError::ConfigModifierError(modifier.clone()));
                    },
                }
            },
        }
        proof {
            use_type_invariant(&*self);
        }
        Ok(())
    }

    /// Apply a patch on the current configuration. `self` will be updated to reflect all chages in
    /// the patch. The function will return an error if the patch cannot be applied. If an error
    /// occurs, the config will remain untouched.
    pub fn apply_patch(&mut self, patch: &ConfigPatch) -> (r: Result<(), ConfigError>)
        ensures
            final(self).wf(),
            match apply_all(old(self)@, patch@) {
                Ok(m) => r is Ok && final(self)@ == m,
                Err(bad) => (r matches Err(ConfigError::ConfigModifierError(x)) && x@ == bad) && final(self).exprs()
                    == old(self).exprs(),
            },
    {
        proof {
            use_type_invariant(&*self);
        }
        let mut config_before = copy_exprs(&self.expr);
        let mut i: usize = 0;
        assert(patch@.take(0) =~= Seq::<ModView>::empty());
        while i < patch.modifiers.len()
            invariant
                i <= patch@.len(),
                patch@.len() == patch.modifiers@.len(),
                unique_keys(old(self).exprs()),
                self.wf(),
                apply_all(old(self)@, patch@.take(i as int)) == Ok::<Map<ConfigExprKey, ExprView>, ModView>(self@),
                config_before@.map_values(|x: ConfigExpr| x@) == old(self).exprs(),
            decreases patch@.len() - i,
        {
            assert(patch@.take(i + 1).drop_last() =~= patch@.take(i as int));
            assert(patch@.take(i + 1).last() == patch.modifiers@[i as int]@);
            match self.apply_modifier(&patch.modifiers[i]) {
                Ok(()) => {},
                Err(e) => {
                    proof {
                        lemma_apply_all_err(old(self)@, patch@, i + 1);
                    }
                    std::mem::swap(&mut self.expr, &mut config_before);
                    return Err(e);
                },
            }
            i += 1;
        }
        assert(patch@.take(patch@.len() as int) =~= patch@);
        Ok(())
    }

    /// returns a ConfigPatch containing the difference between self and other
    /// When the patch is applied on self, it will be the same as other.
    pub fn get_diff(&self, other: &Self) -> (r: ConfigPatch)
        ensures
            r@ == diff(self.exprs(), other.exprs()),
    {
        proof {
            use_type_invariant(self);
            use_type_invariant(other);
            lemma_as_map(other.exprs());
        }
        let ghost s = self.exprs();
        let ghost o = other.exprs();
        let mut patch = ConfigPatch::new();
        // expressions missing in other (must be removed)
        let mut i: usize = 0;
        assert(s.take(0) =~= Seq::<ExprView>::empty());
        while i < self.expr.len()
            invariant
                i <= s.len(),
                s == self.exprs(),
                o == other.exprs(),
                patch@ == removals(s.take(i as int), o),
            decreases s.len() - i,
        {
            assert(s.take(i + 1).drop_last() =~= s.take(i as int));
            assert(s[i as int] == self.expr@[i as int]@);
            let k = self.expr[i].key();
            if other.find(&k).is_none() {
                patch.add(ConfigModifier::Remove(self.expr[i].clone()));
            }
            i += 1;
        }
        assert(s.take(s.len() as int) =~= s);
        let ghost p1 = patch@;
        // expressions missing in self (must be inserted)
        let mut j: usize = 0;
        assert(o.take(0) =~= Seq::<ExprView>::empty());
        assert(p1 + insertions(o.take(0), s) =~= p1);
        while j < other.expr.len()
            invariant
                j <= o.len(),
                s == self.exprs(),
                o == other.exprs(),
                patch@ == p1 + insertions(o.take(j as int), s),
            decreases o.len() - j,
        {
            assert(o.take(j + 1).drop_last() =~= o.take(j as int));
            assert(o[j as int] == other.expr@[j as int]@);
            let k = other.expr[j].key();
            if self.find(&k).is_none() {
                let ghost before = patch@;
                patch.add(ConfigModifier::Insert(other.expr[j].clone()));
                assert(patch@ =~= p1 + insertions(o.take(j + 1), s));
            }
            j += 1;
        }
        assert(o.take(o.len() as int) =~= o);
        let ghost p2 = patch@;
        // expressions which have changed
        let mut i: usize = 0;
        assert(p2 + updates(s.take(0), o) =~= p2);
        while i < self.expr.len()
            invariant
                i <= s.len(),
                s == self.exprs(),
                o == other.exprs(),
                unique_keys(o),
                patch@ == p2 + updates(s.take(i as int), o),
            decreases s.len() - i,
        {
            assert(s.take(i + 1).drop_last() =~= s.take(i as int));
            assert(s[i as int] == self.expr@[i as int]@);
            let k = self.expr[i].key();
            match other.find(&k) {
                Some(j) => {
                    proof {
                        lemma_as_map(o);
                        assert(o[j as int] == other.expr@[j as int]@);
                        assert(has_key(o, k));
                    }
                    if !self.expr[i].equals(&other.expr[j]) {
                        patch.add(ConfigModifier::Update { from: self.expr[i].clone(), to: other.expr[j].clone() });
                        assert(patch@ =~= p2 + updates(s.take(i + 1), o));
                    }
                },
                None => {},
            }
            i += 1;
        }
        assert(s.take(s.len() as int) =~= s);
        patch
    }

    /// Returns the number of config expressions in the config.
    pub fn len(&self) -> (r: usize)
        ensures
            r == self.exprs().len(),
    {
        self.expr.len()
    }

    /// Returns `true` if the config is empty
    pub fn is_empty(&self) -> (r: bool)
        ensures
            r == (self.exprs().len() == 0),
    {
        self.expr.len() == 0
    }

    /// Returns all expressions in the configuration.
    pub fn iter(&self) -> (r: &Vec<ConfigExpr>)
        ensures
            r@.map_values(|x: ConfigExpr| x@) == self.exprs(),
    {
        &self.expr
    }
}

impl Default for Config {
    fn default() -> (r: Self)
        ensures
            r.wf(),
            r.exprs() == Seq::<ExprView>::empty(),
            r@ == Map::<ConfigExprKey, ExprView>::empty(),
    {
        Self::new()
    }
}

impl Clone for Config {
    fn clone(&self) -> (r: Self)
        ensures
            r.exprs() == self.exprs(),
    {
        proof {
            use_type_invariant(self);
        }
        Config { expr: copy_exprs(&self.expr) }
    }
}

/// Every expression of `a` is found in `b` under its key, with an equal expression. Two
/// configurations are equal where each covers the other.
pub open spec fn covered(a: Map<ConfigExprKey, ExprView>, b: Map<ConfigExprKey, ExprView>) -> bool {
    forall|k: ConfigExprKey| #[trigger] a.contains_key(k) ==> b.contains_key(k) && a[k].same(b[k])
}

impl Config {
    /// Every expression of `self` is configured in `other` too, with an equal expression.
    fn covers(&self, other: &Self) -> (r: bool)
        ensures
            r == covered(self@, other@),
    {
        proof {
            use_type_invariant(self);
            use_type_invariant(other);
            lemma_as_map(self.exprs());
            lemma_as_map(other.exprs());
        }
        let ghost s = self.exprs();
        let ghost o = other.exprs();
        let mut i: usize = 0;
        while i < self.expr.len()
            invariant
                i <= s.len(),
                s == self.exprs(),
                o == other.exprs(),
                unique_keys(s),
                unique_keys(o),
                forall|l: int| 0 <= l < i ==> as_map(o).contains_key(#[trigger] s[l].key()) && s[l].same(as_map(o)[s[l].key()]),
            decreases s.len() - i,
        {
            assert(s[i as int] == self.expr@[i as int]@);
            assert(as_map(s)[s[i as int].key()] == s[i as int]);
            match other.find(&self.expr[i].key()) {
                Some(j) => {
                    assert(o[j as int] == other.expr@[j as int]@);
                    assert(as_map(o)[o[j as int].key()] == o[j as int]);
                    if !self.expr[i].equals(&other.expr[j]) {
                        assert(as_map(s).contains_key(s[i as int].key()) && !as_map(s)[s[i as int].key()].same(
                            as_map(o)[s[i as int].key()],
                        ));
                        return false;
                    }
                },
                None => {
                    assert(as_map(s).contains_key(s[i as int].key()) && !as_map(o).contains_key(s[i as int].key()));
                    return false;
                },
            }
            i += 1;
        }
        proof {
            assert forall|k: ConfigExprKey| #[trigger] as_map(s).contains_key(k) implies as_map(o).contains_key(k)
                && as_map(s)[k].same(as_map(o)[k]) by {
                let l = choose|l: int| 0 <= l < s.len() && #[trigger] s[l].key() == k;
                assert(as_map(s)[s[l].key()] == s[l]);
            }
        }
        true
    }
}

impl PartialEq for Config {
    fn eq(&self, other: &Self) -> (r: bool) {
        self.covers(other) && other.covers(self)
    }
}

impl PartialEqSpecImpl for Config {
    open spec fn obeys_eq_spec() -> bool {
        true
    }

    open spec fn eq_spec(&self, other: &Config) -> bool {
        covered(self@, other@) && covered(other@, self@)
    }
}

/// The modifiers that remove the expressions of `s` whose key `o` does not have.
pub open spec fn removals(s: Seq<ExprView>, o: Seq<ExprView>) -> Seq<ModView>
    decreases s.len(),
{
    if s.len() == 0 {
        Seq::empty()
    } else {
        let rest = removals(s.drop_last(), o);
        if has_key(o, s.last().key()) {
            rest
        } else {
            rest.push(ModView::Remove(s.last()))
        }
    }
}

/// The modifiers that insert the expressions of `o` whose key `s` does not have.
pub open spec fn insertions(o: Seq<ExprView>, s: Seq<ExprView>) -> Seq<ModView>
    decreases o.len(),
{
    if o.len() == 0 {
        Seq::empty()
    } else {
        let rest = insertions(o.drop_last(), s);
        if has_key(s, o.last().key()) {
            rest
        } else {
            rest.push(ModView::Insert(o.last()))
        }
    }
}

/// The modifiers that update the expressions of `s` to those of `o` with the same key, where
/// the two are not equal.
pub open spec fn updates(s: Seq<ExprView>, o: Seq<ExprView>) -> Seq<ModView>
    decreases s.len(),
{
    if s.len() == 0 {
        Seq::empty()
    } else {
        let rest = updates(s.drop_last(), o);
        let e = s.last();
        if has_key(o, e.key()) && !e.same(as_map(o)[e.key()]) {
            rest.push(ModView::Update { from: e, to: as_map(o)[e.key()] })
        } else {
            rest
        }
    }
}

/// The difference from the expressions `s` to the expressions `o`: the removals first, then the
/// insertions, then the updates.
pub open spec fn diff(s: Seq<ExprView>, o: Seq<ExprView>) -> Seq<ModView> {
    removals(s, o) + insertions(o, s) + updates(s, o)
}

/// The expression that the modifier leaves under its key is found in `m`, or, for a removal,
/// the key is not.
pub open spec fn lands(m: Map<ConfigExprKey, ExprView>, x: ModView) -> bool {
    match x {
        ModView::Insert(e) => m.contains_key(e.key()) && m[e.key()] == e,
        ModView::Remove(e) => !m.contains_key(e.key()),
        ModView::Update { to, .. } => m.contains_key(to.key()) && m[to.key()] == to,
    }
}

/// No two modifiers have the same key.
pub open spec fn distinct_keys(mods: Seq<ModView>) -> bool {
    forall|i: int, j: int|
        0 <= i < mods.len() && 0 <= j < mods.len() && i != j ==> #[trigger] mods[i].key() != #[trigger] mods[j].key()
}

/// Some modifier has the key `k`.
pub open spec fn mod_has_key(mods: Seq<ModView>, k: ConfigExprKey) -> bool {
    exists|j: int| 0 <= j < mods.len() && #[trigger] mods[j].key() == k
}

/// Modifiers with distinct keys, each of which can be applied to `c`, can be applied in turn:
/// each leaves its expression under its key, and the other keys keep what `c` has.
proof fn lemma_apply_distinct(c: Map<ConfigExprKey, ExprView>, mods: Seq<ModView>)
    requires
        distinct_keys(mods),
        forall|i: int| 0 <= i < mods.len() ==> (#[trigger] apply_one(c, mods[i])) is Some,
    ensures
        apply_all(c, mods) is Ok,
        forall|k: ConfigExprKey|
            !mod_has_key(mods, k) ==> (#[trigger] apply_all(c, mods)->Ok_0.contains_key(k)) == c.contains_key(k)
                && (c.contains_key(k) ==> apply_all(c, mods)->Ok_0[k] == c[k]),
        forall|i: int| 0 <= i < mods.len() ==> lands(apply_all(c, mods)->Ok_0, #[trigger] mods[i]),
    decreases mods.len(),
{
    if mods.len() > 0 {
        let prev = mods.drop_last();
        let x = mods.last();
        assert forall|i: int| 0 <= i < prev.len() implies (#[trigger] apply_one(c, prev[i])) is Some by {
            assert(prev[i] == mods[i]);
            assert(apply_one(c, mods[i]) is Some);
        }
        assert forall|i: int, j: int| 0 <= i < prev.len() && 0 <= j < prev.len() && i != j implies #[trigger] prev[i].key()
            != #[trigger] prev[j].key() by {
            assert(mods[i].key() != mods[j].key());
        }
        lemma_apply_distinct(c, prev);
        let m1 = apply_all(c, prev)->Ok_0;
        let kx = x.key();
        assert(apply_one(c, mods[mods.len() - 1]) is Some);
        assert(!mod_has_key(prev, kx)) by {
            if mod_has_key(prev, kx) {
                let j = choose|j: int| 0 <= j < prev.len() && #[trigger] prev[j].key() == kx;
                assert(mods[j].key() == mods[mods.len() - 1].key());
            }
        }
        assert(m1.contains_key(kx) == c.contains_key(kx));
        let m = apply_one(m1, x)->Some_0;
        assert(apply_one(m1, x) is Some);
        assert forall|k: ConfigExprKey| !mod_has_key(mods, k) implies (#[trigger] m.contains_key(k)) == c.contains_key(
            k,
        ) && (c.contains_key(k) ==> m[k] == c[k]) by {
            if mod_has_key(prev, k) {
                let j = choose|j: int| 0 <= j < prev.len() && #[trigger] prev[j].key() == k;
                assert(mods[j].key() == k);
            }
            if k == kx {
                assert(mods[mods.len() - 1].key() == k);
            }
        }
        assert forall|i: int| 0 <= i < mods.len() implies lands(m, #[trigger] mods[i]) by {
            if i < prev.len() {
                assert(prev[i] == mods[i]);
                assert(lands(m1, prev[i]));
                assert(mods[i].key() != mods[mods.len() - 1].key());
            }
        }
    }
}

/// The removals remove expressions of `s`, under keys that `o` does not have, each key once;
/// each such key of `s` has its removal.
proof fn lemma_removals(s: Seq<ExprView>, o: Seq<ExprView>)
    requires
        unique_keys(s),
    ensures
        distinct_keys(removals(s, o)),
        forall|j: int|
            0 <= j < removals(s, o).len() ==> has_key(s, (#[trigger] removals(s, o)[j]).key()) && !has_key(
                o,
                removals(s, o)[j].key(),
            ) && removals(s, o)[j] == ModView::Remove(as_map(s)[removals(s, o)[j].key()]),
        forall|k: ConfigExprKey| #[trigger] has_key(s, k) && !has_key(o, k) ==> mod_has_key(removals(s, o), k),
    decreases s.len(),
{
    if s.len() > 0 {
        let t = s.drop_last();
        let e = s.last();
        assert(s =~= t.push(e));
        assert(unique_keys(t)) by {
            assert forall|i: int, j: int| 0 <= i < t.len() && 0 <= j < t.len() && i != j implies #[trigger] t[i].key()
                != #[trigger] t[j].key() by {
                assert(s[i].key() != s[j].key());
            }
        }
        assert(!has_key(t, e.key())) by {
            if has_key(t, e.key()) {
                let i = choose|i: int| 0 <= i < t.len() && #[trigger] t[i].key() == e.key();
                assert(s[i].key() != s[s.len() - 1].key());
            }
        }
        lemma_removals(t, o);
        lemma_push(t, e);
        let r0 = removals(t, o);
        let r = removals(s, o);
        assert forall|k: ConfigExprKey| #[trigger] has_key(t, k) implies has_key(s, k) by {
            let i = choose|i: int| 0 <= i < t.len() && #[trigger] t[i].key() == k;
            assert(s[i].key() == k);
        }
        assert(has_key(s, e.key())) by {
            assert(s[s.len() - 1].key() == e.key());
        }
        if !has_key(o, e.key()) {
            assert forall|i: int, j: int| 0 <= i < r.len() && 0 <= j < r.len() && i != j implies #[trigger] r[i].key()
                != #[trigger] r[j].key() by {
                if i < r0.len() && j < r0.len() {
                    assert(r0[i].key() != r0[j].key());
                } else if i < r0.len() {
                    assert(has_key(t, r0[i].key()));
                } else {
                    assert(has_key(t, r0[j].key()));
                }
            }
            assert forall|j: int| 0 <= j < r.len() implies has_key(s, (#[trigger] r[j]).key()) && !has_key(o, r[j].key())
                && r[j] == ModView::Remove(as_map(s)[r[j].key()]) by {
                if j < r0.len() {
                    assert(r[j] == r0[j]);
                    assert(has_key(t, r0[j].key()));
                }
            }
        }
        assert forall|k: ConfigExprKey| #[trigger] has_key(s, k) && !has_key(o, k) implies mod_has_key(r, k) by {
            let i = choose|i: int| 0 <= i < s.len() && #[trigger] s[i].key() == k;
            if i < t.len() {
                assert(t[i].key() == k);
                assert(has_key(t, k));
                let j = choose|j: int| 0 <= j < r0.len() && #[trigger] r0[j].key() == k;
                assert(r[j] == r0[j]);
            } else {
                assert(r[r.len() - 1].key() == k);
            }
        }
    }
}

/// The insertions insert expressions of `o`, under keys that `s` does not have, each key once;
/// each such key of `o` has its insertion.
proof fn lemma_insertions(o: Seq<ExprView>, s: Seq<ExprView>)
    requires
        unique_keys(o),
    ensures
        distinct_keys(insertions(o, s)),
        forall|j: int|
            0 <= j < insertions(o, s).len() ==> has_key(o, (#[trigger] insertions(o, s)[j]).key()) && !has_key(
                s,
                insertions(o, s)[j].key(),
            ) && insertions(o, s)[j] == ModView::Insert(as_map(o)[insertions(o, s)[j].key()]),
        forall|k: ConfigExprKey| #[trigger] has_key(o, k) && !has_key(s, k) ==> mod_has_key(insertions(o, s), k),
    decreases o.len(),
{
    if o.len() > 0 {
        let t = o.drop_last();
        let e = o.last();
        assert(o =~= t.push(e));
        assert(unique_keys(t)) by {
            assert forall|i: int, j: int| 0 <= i < t.len() && 0 <= j < t.len() && i != j implies #[trigger] t[i].key()
                != #[trigger] t[j].key() by {
                assert(o[i].key() != o[j].key());
            }
        }
        assert(!has_key(t, e.key())) by {
            if has_key(t, e.key()) {
                let i = choose|i: int| 0 <= i < t.len() && #[trigger] t[i].key() == e.key();
                assert(o[i].key() != o[o.len() - 1].key());
            }
        }
        lemma_insertions(t, s);
        lemma_push(t, e);
        let r0 = insertions(t, s);
        let r = insertions(o, s);
        assert forall|k: ConfigExprKey| #[trigger] has_key(t, k) implies has_key(o, k) by {
            let i = choose|i: int| 0 <= i < t.len() && #[trigger] t[i].key() == k;
            assert(o[i].key() == k);
        }
        assert(has_key(o, e.key())) by {
            assert(o[o.len() - 1].key() == e.key());
        }
        if !has_key(s, e.key()) {
            assert forall|i: int, j: int| 0 <= i < r.len() && 0 <= j < r.len() && i != j implies #[trigger] r[i].key()
                != #[trigger] r[j].key() by {
                if i < r0.len() && j < r0.len() {
                    assert(r0[i].key() != r0[j].key());
                } else if i < r0.len() {
                    assert(has_key(t, r0[i].key()));
                } else {
                    assert(has_key(t, r0[j].key()));
                }
            }
            assert forall|j: int| 0 <= j < r.len() implies has_key(o, (#[trigger] r[j]).key()) && !has_key(s, r[j].key())
                && r[j] == ModView::Insert(as_map(o)[r[j].key()]) by {
                if j < r0.len() {
                    assert(r[j] == r0[j]);
                    assert(has_key(t, r0[j].key()));
                }
            }
        }
        assert forall|k: ConfigExprKey| #[trigger] has_key(o, k) && !has_key(s, k) implies mod_has_key(r, k) by {
            let i = choose|i: int| 0 <= i < o.len() && #[trigger] o[i].key() == k;
            if i < t.len() {
                assert(t[i].key() == k);
                assert(has_key(t, k));
                let j = choose|j: int| 0 <= j < r0.len() && #[trigger] r0[j].key() == k;
                assert(r[j] == r0[j]);
            } else {
                assert(r[r.len() - 1].key() == k);
            }
        }
    }
}

/// The updates change expressions of `s` to the expressions of `o` under the same key, where the
/// two are not equal, each key once; each such key has its update.
proof fn lemma_updates(s: Seq<ExprView>, o: Seq<ExprView>)
    requires
        unique_keys(s),
        unique_keys(o),
    ensures
        distinct_keys(updates(s, o)),
        forall|j: int|
            0 <= j < updates(s, o).len() ==> has_key(s, (#[trigger] updates(s, o)[j]).key()) && has_key(
                o,
                updates(s, o)[j].key(),
            ) && updates(s, o)[j] == (ModView::Update {
                from: as_map(s)[updates(s, o)[j].key()],
                to: as_map(o)[updates(s, o)[j].key()],
            }) && !as_map(s)[updates(s, o)[j].key()].same(as_map(o)[updates(s, o)[j].key()]),
        forall|k: ConfigExprKey|
            #[trigger] has_key(s, k) && has_key(o, k) && !as_map(s)[k].same(as_map(o)[k]) ==> mod_has_key(
                updates(s, o),
                k,
            ),
    decreases s.len(),
{
    lemma_as_map(o);
    if s.len() > 0 {
        let t = s.drop_last();
        let e = s.last();
        assert(s =~= t.push(e));
        assert(unique_keys(t)) by {
            assert forall|i: int, j: int| 0 <= i < t.len() && 0 <= j < t.len() && i != j implies #[trigger] t[i].key()
                != #[trigger] t[j].key() by {
                assert(s[i].key() != s[j].key());
            }
        }
        assert(!has_key(t, e.key())) by {
            if has_key(t, e.key()) {
                let i = choose|i: int| 0 <= i < t.len() && #[trigger] t[i].key() == e.key();
                assert(s[i].key() != s[s.len() - 1].key());
            }
        }
        lemma_updates(t, o);
        lemma_push(t, e);
        let r0 = updates(t, o);
        let r = updates(s, o);
        assert forall|k: ConfigExprKey| #[trigger] has_key(t, k) implies has_key(s, k) && as_map(s)[k] == as_map(t)[k] by {
            let i = choose|i: int| 0 <= i < t.len() && #[trigger] t[i].key() == k;
            assert(s[i].key() == k);
        }
        assert(has_key(s, e.key())) by {
            assert(s[s.len() - 1].key() == e.key());
        }
        if has_key(o, e.key()) {
            let i = choose|i: int| 0 <= i < o.len() && #[trigger] o[i].key() == e.key();
            assert(as_map(o)[o[i].key()] == o[i]);
        }
        if has_key(o, e.key()) && !e.same(as_map(o)[e.key()]) {
            assert forall|i: int, j: int| 0 <= i < r.len() && 0 <= j < r.len() && i != j implies #[trigger] r[i].key()
                != #[trigger] r[j].key() by {
                if i < r0.len() && j < r0.len() {
                    assert(r0[i].key() != r0[j].key());
                } else if i < r0.len() {
                    assert(has_key(t, r0[i].key()));
                } else {
                    assert(has_key(t, r0[j].key()));
                }
            }
            assert forall|j: int| 0 <= j < r.len() implies has_key(s, (#[trigger] r[j]).key()) && has_key(o, r[j].key())
                && r[j] == (ModView::Update { from: as_map(s)[r[j].key()], to: as_map(o)[r[j].key()] })
                && !as_map(s)[r[j].key()].same(as_map(o)[r[j].key()]) by {
                if j < r0.len() {
                    assert(r[j] == r0[j]);
                    assert(has_key(t, r0[j].key()));
                }
            }
        }
        assert forall|k: ConfigExprKey| #[trigger] has_key(s, k) && has_key(o, k) && !as_map(s)[k].same(as_map(o)[k])
            implies mod_has_key(r, k) by {
            let i = choose|i: int| 0 <= i < s.len() && #[trigger] s[i].key() == k;
            if i < t.len() {
                assert(t[i].key() == k);
                assert(has_key(t, k));
                let j = choose|j: int| 0 <= j < r0.len() && #[trigger] r0[j].key() == k;
                assert(r[j] == r0[j]);
            } else {
                assert(r[r.len() - 1].key() == k);
            }
        }
    }
}

/// Equality of expressions is symmetric.
pub proof fn lemma_same_symmetric(a: ExprView, b: ExprView)
    requires
        a.same(b),
    ensures
        b.same(a),
{
    match (a, b) {
        (ExprView::BgpRouteMap { map: m1, .. }, ExprView::BgpRouteMap { map: m2, .. }) => {
            assert forall|i: int| 0 <= i < m2.3.len() implies (#[trigger] m2.3[i]).same_as(m1.3[i]) by {
                assert(m1.3[i].same_as(m2.3[i]));
            }
        },
        _ => {},
    }
}

/// Every expression equals itself: none holds a weight that is NaN.
pub open spec fn all_regular(s: Seq<ExprView>) -> bool {
    forall|i: int| 0 <= i < s.len() ==> (#[trigger] s[i]).regular()
}

/// Applying to a configuration the difference to another one makes it equal to the other: each
/// holds every expression of the other, under the same key. This holds where no expression of
/// either holds a weight that is NaN, a number that is equal to nothing.
pub proof fn lemma_patch_of_diff(a: Config, b: Config)
    requires
        a.wf(),
        b.wf(),
        all_regular(a.exprs()),
        all_regular(b.exprs()),
    ensures
        apply_all(a@, diff(a.exprs(), b.exprs())) is Ok,
        covered(apply_all(a@, diff(a.exprs(), b.exprs()))->Ok_0, b@),
        covered(b@, apply_all(a@, diff(a.exprs(), b.exprs()))->Ok_0),
{
    let s = a.exprs();
    let o = b.exprs();
    let c = as_map(s);
    let d = as_map(o);
    lemma_as_map(s);
    lemma_as_map(o);
    lemma_removals(s, o);
    lemma_insertions(o, s);
    lemma_updates(s, o);
    let rm = removals(s, o);
    let ins = insertions(o, s);
    let up = updates(s, o);
    let mods = rm + ins + up;
    assert(mods == diff(s, o));
    let n1 = rm.len() as int;
    let n2 = n1 + ins.len();
    assert forall|k: ConfigExprKey| #[trigger] c.contains_key(k) implies c[k].regular() && c[k].key() == k by {
        let i = choose|i: int| 0 <= i < s.len() && #[trigger] s[i].key() == k;
        assert(c[s[i].key()] == s[i]);
    }
    assert forall|k: ConfigExprKey| #[trigger] d.contains_key(k) implies d[k].regular() && d[k].key() == k by {
        let i = choose|i: int| 0 <= i < o.len() && #[trigger] o[i].key() == k;
        assert(d[o[i].key()] == o[i]);
    }
    // where each modifier stands and what it says of its key
    assert forall|x: int| 0 <= x < mods.len() implies {
        let k = (#[trigger] mods[x]).key();
        &&& (x < n1 ==> has_key(s, k) && !has_key(o, k) && mods[x] == ModView::Remove(c[k]))
        &&& (n1 <= x < n2 ==> has_key(o, k) && !has_key(s, k) && mods[x] == ModView::Insert(d[k]))
        &&& (n2 <= x ==> has_key(s, k) && has_key(o, k) && mods[x] == (ModView::Update { from: c[k], to: d[k] })
            && !c[k].same(d[k]))
    } by {
        if x < n1 {
            assert(rm[x] == mods[x]);
        } else if x < n2 {
            assert(ins[x - n1] == mods[x]);
        } else {
            assert(up[x - n2] == mods[x]);
        }
    }
    assert forall|i: int, j: int| 0 <= i < mods.len() && 0 <= j < mods.len() && i != j implies #[trigger] mods[i].key()
        != #[trigger] mods[j].key() by {
        if i < n1 && j < n1 {
            assert(rm[i] == mods[i] && rm[j] == mods[j]);
            assert(rm[i].key() != rm[j].key());
        } else if n1 <= i < n2 && n1 <= j < n2 {
            assert(ins[i - n1] == mods[i] && ins[j - n1] == mods[j]);
            assert(ins[i - n1].key() != ins[j - n1].key());
        } else if n2 <= i && n2 <= j {
            assert(up[i - n2] == mods[i] && up[j - n2] == mods[j]);
            assert(up[i - n2].key() != up[j - n2].key());
        }
    }
    assert forall|x: int| 0 <= x < mods.len() implies (#[trigger] apply_one(c, mods[x])) is Some by {
        let k = mods[x].key();
        if x < n1 {
            assert(c.contains_key(k));
        } else if x < n2 {
            assert(!c.contains_key(k));
        } else {
            assert(c.contains_key(k) && d.contains_key(k));
        }
    }
    lemma_apply_distinct(c, mods);
    let m = apply_all(c, mods)->Ok_0;
    assert forall|k: ConfigExprKey| #[trigger] m.contains_key(k) || d.contains_key(k) implies m.contains_key(k)
        && d.contains_key(k) && m[k].same(d[k]) && d[k].same(m[k]) by {
        if has_key(s, k) && !has_key(o, k) {
            let j = choose|j: int| 0 <= j < rm.len() && #[trigger] rm[j].key() == k;
            assert(mods[j] == rm[j]);
            assert(lands(m, mods[j]));
        } else if !has_key(s, k) && has_key(o, k) {
            let j = choose|j: int| 0 <= j < ins.len() && #[trigger] ins[j].key() == k;
            assert(mods[n1 + j] == ins[j]);
            assert(lands(m, mods[n1 + j]));
        } else if has_key(s, k) && has_key(o, k) && !c[k].same(d[k]) {
            let j = choose|j: int| 0 <= j < up.len() && #[trigger] up[j].key() == k;
            assert(mods[n2 + j] == up[j]);
            assert(lands(m, mods[n2 + j]));
        } else {
            assert(!mod_has_key(mods, k)) by {
                if mod_has_key(mods, k) {
                    let j = choose|j: int| 0 <= j < mods.len() && #[trigger] mods[j].key() == k;
                    assert(mods[j].key() == k);
                }
            }
            if has_key(s, k) {
                lemma_same_symmetric(c[k], d[k]);
            }
        }
    }
}

/// The patch from `a` to `b` names each key at most once, and it is empty exactly where the two
/// configurations are equal: the same keys, with equal expressions under each.
pub proof fn lemma_diff_shape(a: Config, b: Config)
    requires
        a.wf(),
        b.wf(),
    ensures
        distinct_keys(diff(a.exprs(), b.exprs())),
        diff(a.exprs(), b.exprs()).len() == 0 <==> (covered(a@, b@) && covered(b@, a@)),
{
    let s = a.exprs();
    let o = b.exprs();
    lemma_removals(s, o);
    lemma_insertions(o, s);
    lemma_updates(s, o);
    let rm = removals(s, o);
    let ins = insertions(o, s);
    let up = updates(s, o);
    let mods = diff(s, o);
    let n1 = rm.len() as int;
    let n2 = n1 + ins.len();
    assert forall|x: int| 0 <= x < mods.len() implies {
        let k = (#[trigger] mods[x]).key();
        &&& (x < n1 ==> has_key(s, k) && !has_key(o, k) && mods[x] == rm[x])
        &&& (n1 <= x < n2 ==> has_key(o, k) && !has_key(s, k) && mods[x] == ins[x - n1])
        &&& (n2 <= x ==> has_key(s, k) && has_key(o, k) && mods[x] == up[x - n2])
    } by {
        if x < n1 {
            assert(mods[x] == rm[x]);
        } else if x < n2 {
            assert(mods[x] == ins[x - n1]);
        } else {
            assert(mods[x] == up[x - n2]);
        }
    }
    assert forall|i: int, j: int| 0 <= i < mods.len() && 0 <= j < mods.len() && i != j implies #[trigger] mods[i].key()
        != #[trigger] mods[j].key() by {
        if i < n1 && j < n1 {
            assert(rm[i].key() != rm[j].key());
        } else if n1 <= i < n2 && n1 <= j < n2 {
            assert(ins[i - n1].key() != ins[j - n1].key());
        } else if n2 <= i && n2 <= j {
            assert(up[i - n2].key() != up[j - n2].key());
        }
    }
    if mods.len() == 0 {
        assert(rm.len() == 0 && ins.len() == 0 && up.len() == 0);
        assert forall|k: ConfigExprKey| #[trigger] a@.contains_key(k) implies b@.contains_key(k) && a@[k].same(b@[k]) by {
            assert(has_key(s, k));
            if !has_key(o, k) {
                assert(mod_has_key(rm, k));
            }
            if !as_map(s)[k].same(as_map(o)[k]) {
                assert(mod_has_key(up, k));
            }
        }
        assert forall|k: ConfigExprKey| #[trigger] b@.contains_key(k) implies a@.contains_key(k) && b@[k].same(a@[k]) by {
            assert(has_key(o, k));
            if !has_key(s, k) {
                assert(mod_has_key(ins, k));
            }
            if !as_map(s)[k].same(as_map(o)[k]) {
                assert(mod_has_key(up, k));
            }
            lemma_same_symmetric(as_map(s)[k], as_map(o)[k]);
        }
    }
    if covered(a@, b@) && covered(b@, a@) && mods.len() > 0 {
        let k = mods[0].key();
        if 0 < n1 {
            assert(a@.contains_key(k));
        } else if 0 < n2 {
            assert(b@.contains_key(k));
        } else {
            assert(!as_map(s)[up[0].key()].same(as_map(o)[up[0].key()]));
            assert(a@.contains_key(k));
        }
    }
}

/// A modifier that can be applied, and then its reverse, give back the configuration that it was
/// applied to: under its key the configuration ends with an expression equal to the one it had,
/// and under the other keys with the same expressions. This holds where the expression that an
/// insertion leaves holds no weight that is NaN, and where the `from` of an update equals the
/// expression that was configured (an update accepts any `from` with the right key, and its
/// reverse puts that `from` back).
pub proof fn lemma_reverse_undoes(a: Config, x: ModView)
    requires
        apply_one(a@, x) is Some,
        match x {
            ModView::Insert(e) => e.regular(),
            ModView::Remove(_) => true,
            ModView::Update { from, .. } => a@[from.key()].same(from),
        },
    ensures
        apply_one(apply_one(a@, x)->Some_0, x.reverse()) is Some,
        ({
            let m = apply_one(apply_one(a@, x)->Some_0, x.reverse())->Some_0;
            &&& m.remove(x.key()) == a@.remove(x.key())
            &&& m.contains_key(x.key()) == a@.contains_key(x.key())
            &&& a@.contains_key(x.key()) ==> a@[x.key()].same(m[x.key()])
        }),
{
    let c = a@;
    match x {
        ModView::Insert(e) => {
            assert(apply_one(c, x)->Some_0.remove(e.key()) =~= c);
            assert(c.remove(e.key()) =~= c);
        },
        ModView::Remove(e) => {
            assert(c.remove(e.key()).insert(e.key(), e).remove(e.key()) =~= c.remove(e.key()));
        },
        ModView::Update { from, to } => {
            assert(c.insert(from.key(), to).insert(from.key(), from).remove(from.key()) =~= c.remove(from.key()));
        },
    }
}

/// A copy of the expressions.
fn copy_exprs(v: &Vec<ConfigExpr>) -> (r: Vec<ConfigExpr>)
    ensures
        r@.map_values(|x: ConfigExpr| x@) == v@.map_values(|x: ConfigExpr| x@),
{
    let mut r: Vec<ConfigExpr> = Vec::new();
    let mut i: usize = 0;
    while i < v.len()
        invariant
            i <= v@.len(),
            r@.len() == i,
            forall|k: int| 0 <= k < i ==> (#[trigger] r@[k])@ == v@[k]@,
        decreases v@.len() - i,
    {
        r.push(v[i].clone());
        i += 1;
    }
    assert(r@.map_values(|x: ConfigExpr| x@) =~= v@.map_values(|x: ConfigExpr| x@));
    r
}

} // verus!
