//! # Network
//!
//! The configuration of a network together with what its devices hold of it: the weight of
//! each link, and for each router its static routes, its incoming and outgoing route maps (in
//! their order), and its BGP sessions. Applying a configuration modifier checks it against the
//! configuration and then changes the devices; undoing applies the reverse modifier.
use vstd::prelude::*;
use crate::netsim::config::{apply_one, Config, ConfigExpr, ConfigModifier, ExprView, MapParts, ModView};
use crate::netsim::route_map::{RouteMap, RouteMapDirection};
use crate::netsim::{BgpSessionType, ConfigError, DeviceError, LinkWeight, NetworkError, Prefix, RouterId};

verus! {

/// What a device holds of the configuration.
#[derive(Debug)]
pub struct DeviceTables {
    /// Whether the device is an external router
    pub external: bool,
    /// The static routes: prefix and target
    pub static_routes: Vec<(Prefix, RouterId)>,
    /// The incoming route maps, in their order
    pub maps_in: Vec<RouteMap>,
    /// The outgoing route maps, in their order
    pub maps_out: Vec<RouteMap>,
    /// The BGP sessions: peer and session type
    pub sessions: Vec<(RouterId, BgpSessionType)>,
}

/// What a device holds of the configuration, as plain values.
pub struct DeviceView {
    /// Whether the device is an external router
    pub external: bool,
    /// The static routes
    pub static_routes: Seq<(Prefix, RouterId)>,
    /// The incoming route maps, by their parts
    pub maps_in: Seq<MapParts>,
    /// The outgoing route maps, by their parts
    pub maps_out: Seq<MapParts>,
    /// The BGP sessions
    pub sessions: Seq<(RouterId, BgpSessionType)>,
}

impl View for DeviceTables {
    type V = DeviceView;

    open spec fn view(&self) -> DeviceView {
        DeviceView {
            external: self.external,
            static_routes: self.static_routes@,
            maps_in: self.maps_in@.map_values(|m: RouteMap| m.parts()),
            maps_out: self.maps_out@.map_values(|m: RouteMap| m.parts()),
            sessions: self.sessions@,
        }
    }
}

/// The last position of the static route for `p`.
pub open spec fn static_pos(s: Seq<(Prefix, RouterId)>, p: Prefix) -> Option<int>
    decreases s.len(),
{
    if s.len() == 0 {
        None
    } else if s.last().0 == p {
        Some(s.len() - 1)
    } else {
        static_pos(s.drop_last(), p)
    }
}

/// The last position of the session with `peer`.
pub open spec fn session_pos(s: Seq<(RouterId, BgpSessionType)>, peer: RouterId) -> Option<int>
    decreases s.len(),
{
    if s.len() == 0 {
        None
    } else if s.last().0 == peer {
        Some(s.len() - 1)
    } else {
        session_pos(s.drop_last(), peer)
    }
}

/// The last position of the route map of order `o`.
pub open spec fn map_pos(s: Seq<MapParts>, o: usize) -> Option<int>
    decreases s.len(),
{
    if s.len() == 0 {
        None
    } else if s.last().0 == o {
        Some(s.len() - 1)
    } else {
        map_pos(s.drop_last(), o)
    }
}

/// The number of route maps of an order below `o`: where a map of order `o` goes in the list.
pub open spec fn below_count(s: Seq<MapParts>, o: usize) -> int
    decreases s.len(),
{
    if s.len() == 0 {
        0
    } else {
        below_count(s.drop_last(), o) + if s.last().0 < o {
            1int
        } else {
            0int
        }
    }
}

/// Whether the link from `a` to `b` exists.
pub open spec fn has_link(links: Seq<(RouterId, RouterId, LinkWeight)>, a: RouterId, b: RouterId) -> bool {
    exists|i: int| 0 <= i < links.len() && #[trigger] links[i].0 == a && links[i].1 == b
}

/// The links with the weight of the link from `a` to `b` set to `w`.
pub open spec fn set_weight(links: Seq<(RouterId, RouterId, LinkWeight)>, a: RouterId, b: RouterId, w: LinkWeight) -> Seq<
    (RouterId, RouterId, LinkWeight),
> {
    links.map_values(
        |l: (RouterId, RouterId, LinkWeight)|
            if l.0 == a && l.1 == b {
                (a, b, w)
            } else {
                l
            },
    )
}

/// The weight of a link that is removed: infinity.
pub open spec fn infinite_weight() -> LinkWeight {
    LinkWeight { bits: 0x7f80_0000 }
}

/// Adding a route map to a list ordered by order: an error where one of its order exists.
pub open spec fn map_add(s: Seq<MapParts>, m: MapParts) -> Result<Seq<MapParts>, DeviceError> {
    if map_pos(s, m.0) is Some {
        Err(DeviceError::BgpRouteMapAlreadyExists(m.0))
    } else {
        Ok(s.insert(below_count(s, m.0), m))
    }
}

/// Removing the route map of order `o`: an error where there is none.
pub open spec fn map_remove(s: Seq<MapParts>, o: usize) -> Result<Seq<MapParts>, DeviceError> {
    match map_pos(s, o) {
        Some(i) => Ok(s.remove(i)),
        None => Err(DeviceError::NoBgpRouteMap(o)),
    }
}

/// Replacing the route map of order `o` by `m`: in place where the order stays, and otherwise
/// removed and added anew. The second component is the list after the removal, which stays where
/// the addition fails.
pub open spec fn map_modify(s: Seq<MapParts>, o: usize, m: MapParts) -> (Seq<MapParts>, Result<(), DeviceError>) {
    match map_pos(s, o) {
        None => (s, Err(DeviceError::NoBgpRouteMap(o))),
        Some(i) => if o == m.0 {
            (s.update(i, m), Ok(()))
        } else {
            match map_add(s.remove(i), m) {
                Ok(t) => (t, Ok(())),
                Err(e) => (s.remove(i), Err(e)),
            }
        },
    }
}

/// The devices after a change of one of them.
pub open spec fn with_device(devs: Seq<DeviceView>, id: RouterId, d: DeviceView) -> Seq<DeviceView> {
    devs.update(id as int, d)
}

/// Whether `id` is an external router.
pub open spec fn is_external(devs: Seq<DeviceView>, id: RouterId) -> bool {
    id < devs.len() && devs[id as int].external
}

/// Whether `id` is an internal router.
pub open spec fn is_internal(devs: Seq<DeviceView>, id: RouterId) -> bool {
    id < devs.len() && !devs[id as int].external
}

/// The state of the devices: the links and the device tables, and the outcome.
pub type NetState = (Seq<(RouterId, RouterId, LinkWeight)>, Seq<DeviceView>, Result<(), NetworkError>);

/// The route map list of `d` in the direction `dir`.
pub open spec fn maps_of(d: DeviceView, dir: RouteMapDirection) -> Seq<MapParts> {
    match dir {
        RouteMapDirection::Incoming => d.maps_in,
        RouteMapDirection::Outgoing => d.maps_out,
    }
}

/// `d` with the route map list in the direction `dir` replaced by `s`.
pub open spec fn with_maps(d: DeviceView, dir: RouteMapDirection, s: Seq<MapParts>) -> DeviceView {
    match dir {
        RouteMapDirection::Incoming => DeviceView { maps_in: s, ..d },
        RouteMapDirection::Outgoing => DeviceView { maps_out: s, ..d },
    }
}

/// Opening a session of router `id` towards `peer`, of type `t` (an external router always
/// has an eBGP session): an error where it has one with `peer` already, or is no router.
pub open spec fn open_session(devs: Seq<DeviceView>, id: RouterId, peer: RouterId, t: BgpSessionType) -> Result<
    Seq<DeviceView>,
    NetworkError,
> {
    if id >= devs.len() {
        Err(NetworkError::DeviceNotFound(id))
    } else {
        let d = devs[id as int];
        if session_pos(d.sessions, peer) is Some {
            Err(NetworkError::DeviceError(DeviceError::SessionAlreadyExists(peer)))
        } else {
            Ok(
                with_device(
                    devs,
                    id,
                    DeviceView {
                        sessions: d.sessions.push(
                            (
                                peer,
                                if d.external {
                                    BgpSessionType::EBgp
                                } else {
                                    t
                                },
                            ),
                        ),
                        ..d
                    },
                ),
            )
        }
    }
}

/// Closing the session of router `id` towards `peer`: an error where it has none, or is no
/// router.
pub open spec fn close_session(devs: Seq<DeviceView>, id: RouterId, peer: RouterId) -> Result<Seq<DeviceView>, NetworkError> {
    if id >= devs.len() {
        Err(NetworkError::DeviceNotFound(id))
    } else {
        let d = devs[id as int];
        match session_pos(d.sessions, peer) {
            None => Err(NetworkError::DeviceError(DeviceError::NoBgpSession(peer))),
            Some(i) => Ok(with_device(devs, id, DeviceView { sessions: d.sessions.remove(i), ..d })),
        }
    }
}

/// Changing the type of the session of the internal router `id` towards `peer`.
pub open spec fn change_session(devs: Seq<DeviceView>, id: RouterId, peer: RouterId, t: BgpSessionType) -> Result<
    Seq<DeviceView>,
    NetworkError,
> {
    if !is_internal(devs, id) {
        Err(NetworkError::DeviceNotFound(id))
    } else {
        let d = devs[id as int];
        match session_pos(d.sessions, peer) {
            None => Err(NetworkError::DeviceError(DeviceError::NoBgpSession(peer))),
            Some(i) => Ok(with_device(devs, id, DeviceView { sessions: d.sessions.update(i, (peer, t)), ..d })),
        }
    }
}

/// Sessions on both ends, the source first: where the second end fails, the first keeps its
/// change.
pub open spec fn both_ends(
    links: Seq<(RouterId, RouterId, LinkWeight)>,
    devs: Seq<DeviceView>,
    first: Result<Seq<DeviceView>, NetworkError>,
    second: spec_fn(Seq<DeviceView>) -> Result<Seq<DeviceView>, NetworkError>,
) -> NetState {
    match first {
        Err(e) => (links, devs, Err(e)),
        Ok(d1) => match second(d1) {
            Err(e) => (links, d1, Err(e)),
            Ok(d2) => (links, d2, Ok(())),
        },
    }
}

/// What the devices make of the modifier `m`, once the configuration accepted it. A link weight
/// needs the link; a static route needs the link to its target and an internal router; a route
/// map needs an internal router; a session is opened, closed or changed on both ends, with the
/// session types that each end has (an eBGP session needs an external router at one end, an
/// iBGP session none).
pub open spec fn device_step(links: Seq<(RouterId, RouterId, LinkWeight)>, devs: Seq<DeviceView>, m: ModView) -> NetState {
    match m {
        ModView::Insert(e) | ModView::Remove(e) => {
            let insert = m is Insert;
            match e {
                ExprView::IgpLinkWeight { source, target, weight } => if !has_link(links, source, target) {
                    (links, devs, Err(NetworkError::RoutersNotConnected(source, target)))
                } else {
                    (
                        set_weight(
                            links,
                            source,
                            target,
                            if insert {
                                weight
                            } else {
                                infinite_weight()
                            },
                        ),
                        devs,
                        Ok(()),
                    )
                },
                ExprView::BgpSession { source, target, session_type } => if insert {
                    let es = is_external(devs, source);
                    let et = is_external(devs, target);
                    let types: Option<(BgpSessionType, BgpSessionType)> = match session_type {
                        BgpSessionType::IBgpPeer => if es || et {
                            None
                        } else {
                            Some((BgpSessionType::IBgpPeer, BgpSessionType::IBgpPeer))
                        },
                        BgpSessionType::IBgpClient => if es || et {
                            None
                        } else {
                            Some((BgpSessionType::IBgpClient, BgpSessionType::IBgpPeer))
                        },
                        BgpSessionType::EBgp => if !(es || et) {
                            None
                        } else {
                            Some((BgpSessionType::EBgp, BgpSessionType::EBgp))
                        },
                    };
                    match types {
                        None => (links, devs, Err(NetworkError::InvalidBgpSessionType(source, target, session_type))),
                        Some((ts, tt)) => both_ends(
                            links,
                            devs,
                            open_session(devs, source, target, ts),
                            |d: Seq<DeviceView>| open_session(d, target, source, tt),
                        ),
                    }
                } else {
                    both_ends(
                        links,
                        devs,
                        close_session(devs, source, target),
                        |d: Seq<DeviceView>| close_session(d, target, source),
                    )
                },
                ExprView::BgpRouteMap { router, direction, map } => if !is_internal(devs, router) {
                    (links, devs, Err(NetworkError::DeviceNotFound(router)))
                } else {
                    let d = devs[router as int];
                    let res = if insert {
                        map_add(maps_of(d, direction), map)
                    } else {
                        map_remove(maps_of(d, direction), map.0)
                    };
                    match res {
                        Err(x) => (links, devs, Err(NetworkError::DeviceError(x))),
                        Ok(s) => (links, with_device(devs, router, with_maps(d, direction, s)), Ok(())),
                    }
                },
                ExprView::StaticRoute { router, prefix, target } => if !has_link(links, router, target) {
                    (links, devs, Err(NetworkError::RoutersNotConnected(router, target)))
                } else if !is_internal(devs, router) {
                    (links, devs, Err(NetworkError::DeviceNotFound(router)))
                } else {
                    let d = devs[router as int];
                    if insert {
                        if static_pos(d.static_routes, prefix) is Some {
                            (links, devs, Err(NetworkError::DeviceError(DeviceError::StaticRouteAlreadyExists(prefix))))
                        } else {
                            (
                                links,
                                with_device(devs, router, DeviceView { static_routes: d.static_routes.push((prefix, target)), ..d }),
                                Ok(()),
                            )
                        }
                    } else {
                        match static_pos(d.static_routes, prefix) {
                            None => (links, devs, Err(NetworkError::DeviceError(DeviceError::NoStaticRoute(prefix)))),
                            Some(i) => (
                                links,
                                with_device(devs, router, DeviceView { static_routes: d.static_routes.remove(i), ..d }),
                                Ok(()),
                            ),
                        }
                    }
                },
            }
        },
        ModView::Update { from, to } => match (from, to) {
            (
                ExprView::IgpLinkWeight { source: s1, target: t1, .. },
                ExprView::IgpLinkWeight { source: s2, target: t2, weight: w },
            ) if s1 == s2 && t1 == t2 => if !has_link(links, s1, t1) {
                (links, devs, Err(NetworkError::RoutersNotConnected(s1, t1)))
            } else {
                (set_weight(links, s1, t1, w), devs, Ok(()))
            },
            (
                ExprView::BgpSession { source: s1, target: t1, .. },
                ExprView::BgpSession { source: s2, target: t2, session_type: x },
            ) if (s1 == s2 && t1 == t2) || (s1 == t2 && t1 == s2) => {
                if is_external(devs, s2) || is_external(devs, t2) {
                    if x == BgpSessionType::EBgp {
                        (links, devs, Ok(()))
                    } else {
                        (links, devs, Err(NetworkError::InvalidBgpSessionType(s2, t2, x)))
                    }
                } else if x == BgpSessionType::EBgp {
                    (links, devs, Err(NetworkError::InvalidBgpSessionType(s2, t2, x)))
                } else {
                    let ts = x;
                    both_ends(
                        links,
                        devs,
                        change_session(devs, s2, t2, ts),
                        |d: Seq<DeviceView>| change_session(d, t2, s2, BgpSessionType::IBgpPeer),
                    )
                }
            },
            (
                ExprView::BgpRouteMap { router: r1, direction: d1, map: m1 },
                ExprView::BgpRouteMap { router: r2, direction: d2, map: m2 },
            ) if r1 == r2 && d1 == d2 => if !is_internal(devs, r1) {
                (links, devs, Err(NetworkError::DeviceNotFound(r1)))
            } else {
                let d = devs[r1 as int];
                let (s, res) = map_modify(maps_of(d, d1), m1.0, m2);
                (
                    links,
                    with_device(devs, r1, with_maps(d, d1, s)),
                    match res {
                        Ok(_) => Ok(()),
                        Err(x) => Err(NetworkError::DeviceError(x)),
                    },
                )
            },
            (
                ExprView::StaticRoute { router: r1, prefix: p1, .. },
                ExprView::StaticRoute { router: r2, prefix: p2, target: t },
            ) if r1 == r2 && p1 == p2 => if !has_link(links, r1, t) {
                (links, devs, Err(NetworkError::RoutersNotConnected(r1, t)))
            } else if !is_internal(devs, r1) {
                (links, devs, Err(NetworkError::DeviceNotFound(r1)))
            } else {
                let d = devs[r1 as int];
                match static_pos(d.static_routes, p1) {
                    None => (links, devs, Err(NetworkError::DeviceError(DeviceError::NoStaticRoute(p1)))),
                    Some(i) => (
                        links,
                        with_device(devs, r1, DeviceView { static_routes: d.static_routes.update(i, (p1, t)), ..d }),
                        Ok(()),
                    ),
                }
            },
            // not reached once the configuration accepted the modifier: an update keeps the key
            _ => (links, devs, Ok(())),
        },
    }
}

/// The last position of the static route for `p`.
fn find_static(s: &Vec<(Prefix, RouterId)>, p: Prefix) -> (r: Option<usize>)
    ensures
        match r {
            Some(i) => static_pos(s@, p) == Some(i as int) && i < s@.len(),
            None => static_pos(s@, p) is None,
        },
{
    let mut i = s.len();
    proof {
        assert(s@.take(i as int) =~= s@);
    }
    while i > 0
        invariant
            i <= s@.len(),
            static_pos(s@, p) == static_pos(s@.take(i as int), p),
        decreases i,
    {
        proof {
            assert(s@.take(i as int).drop_last() =~= s@.take(i - 1));
        }
        if s[i - 1].0 == p {
            return Some(i - 1);
        }
        i -= 1;
    }
    None
}

/// The last position of the session with `peer`.
fn find_session(s: &Vec<(RouterId, BgpSessionType)>, peer: RouterId) -> (r: Option<usize>)
    ensures
        match r {
            Some(i) => session_pos(s@, peer) == Some(i as int) && i < s@.len(),
            None => session_pos(s@, peer) is None,
        },
{
    let mut i = s.len();
    proof {
        assert(s@.take(i as int) =~= s@);
    }
    while i > 0
        invariant
            i <= s@.len(),
            session_pos(s@, peer) == session_pos(s@.take(i as int), peer),
        decreases i,
    {
        proof {
            assert(s@.take(i as int).drop_last() =~= s@.take(i - 1));
        }
        if s[i - 1].0 == peer {
            return Some(i - 1);
        }
        i -= 1;
    }
    None
}

/// The parts of each route map.
pub open spec fn parts_of(v: Seq<RouteMap>) -> Seq<MapParts> {
    v.map_values(|m: RouteMap| m.parts())
}

/// The last position of the route map of order `o`.
fn find_map(s: &Vec<RouteMap>, o: usize) -> (r: Option<usize>)
    ensures
        match r {
            Some(i) => map_pos(parts_of(s@), o) == Some(i as int) && i < s@.len(),
            None => map_pos(parts_of(s@), o) is None,
        },
{
    let ghost ps = parts_of(s@);
    let mut i = s.len();
    proof {
        assert(ps.take(i as int) =~= ps);
    }
    while i > 0
        invariant
            i <= s@.len(),
            ps == parts_of(s@),
            map_pos(ps, o) == map_pos(ps.take(i as int), o),
        decreases i,
    {
        proof {
            assert(ps.take(i as int).drop_last() =~= ps.take(i - 1));
        }
        if s[i - 1].order() == o {
            return Some(i - 1);
        }
        i -= 1;
    }
    None
}

/// The number of route maps of an order below `o`.
fn count_below(s: &Vec<RouteMap>, o: usize) -> (r: usize)
    ensures
        r == below_count(parts_of(s@), o),
        r <= s@.len(),
{
    let ghost ps = parts_of(s@);
    let mut c: usize = 0;
    let mut i: usize = 0;
    while i < s.len()
        invariant
            i <= s@.len(),
            ps == parts_of(s@),
            c == below_count(ps.take(i as int), o),
            c <= i,
        decreases s@.len() - i,
    {
        proof {
            assert(ps.take(i + 1).drop_last() =~= ps.take(i as int));
        }
        if s[i].order() < o {
            c += 1;
        }
        i += 1;
    }
    proof {
        assert(ps.take(s@.len() as int) =~= ps);
    }
    c
}

/// Adds a route map at its place by order; see `map_add`.
fn add_map(v: &mut Vec<RouteMap>, m: RouteMap) -> (r: Result<(), DeviceError>)
    ensures
        match map_add(parts_of(old(v)@), m.parts()) {
            Ok(t) => r == Ok::<(), DeviceError>(()) && parts_of(final(v)@) == t,
            Err(e) => r == Err::<(), DeviceError>(e) && final(v)@ == old(v)@,
        },
{
    let o = m.order();
    if find_map(v, o).is_some() {
        return Err(DeviceError::BgpRouteMapAlreadyExists(o));
    }
    let pos = count_below(v, o);
    let ghost mp = m.parts();
    v.insert(pos, m);
    proof {
        assert(parts_of(v@) =~= parts_of(old(v)@).insert(pos as int, mp));
    }
    Ok(())
}

/// Removes the route map of order `o`; see `map_remove`.
fn remove_map(v: &mut Vec<RouteMap>, o: usize) -> (r: Result<(), DeviceError>)
    ensures
        match map_remove(parts_of(old(v)@), o) {
            Ok(t) => r == Ok::<(), DeviceError>(()) && parts_of(final(v)@) == t,
            Err(e) => r == Err::<(), DeviceError>(e) && final(v)@ == old(v)@,
        },
{
    match find_map(v, o) {
        Some(i) => {
            v.remove(i);
            proof {
                assert(parts_of(v@) =~= parts_of(old(v)@).remove(i as int));
            }
            Ok(())
        },
        None => Err(DeviceError::NoBgpRouteMap(o)),
    }
}

/// Replaces the route map of order `o` by `m`; see `map_modify`.
fn modify_map(v: &mut Vec<RouteMap>, o: usize, m: RouteMap) -> (r: Result<(), DeviceError>)
    ensures
        parts_of(final(v)@) == map_modify(parts_of(old(v)@), o, m.parts()).0,
        r == map_modify(parts_of(old(v)@), o, m.parts()).1,
{
    match find_map(v, o) {
        Some(i) => {
            if o == m.order() {
                let ghost mp = m.parts();
                v.set(i, m);
                proof {
                    assert(parts_of(v@) =~= parts_of(old(v)@).update(i as int, mp));
                }
                Ok(())
            } else {
                v.remove(i);
                proof {
                    assert(parts_of(v@) =~= parts_of(old(v)@).remove(i as int));
                }
                add_map(v, m)
            }
        },
        None => Err(DeviceError::NoBgpRouteMap(o)),
    }
}

/// A network: its configuration, its directed links with their weights, what each device holds
/// of the configuration, and the modifiers applied, in order, to undo them.
#[derive(Debug)]
pub struct Network {
    config: Config,
    links: Vec<(RouterId, RouterId, LinkWeight)>,
    devices: Vec<DeviceTables>,
    history: Vec<ConfigModifier>,
}

impl Network {
    /// The configuration.
    pub closed spec fn config_view(&self) -> Map<crate::netsim::config::ConfigExprKey, ExprView> {
        self.config@
    }

    /// The links with their weights.
    pub closed spec fn links_view(&self) -> Seq<(RouterId, RouterId, LinkWeight)> {
        self.links@
    }

    /// What each device holds of the configuration.
    pub closed spec fn devices_view(&self) -> Seq<DeviceView> {
        self.devices@.map_values(|d: DeviceTables| d@)
    }

    /// The modifiers applied, in order.
    pub closed spec fn history_view(&self) -> Seq<ModView> {
        self.history@.map_values(|m: ConfigModifier| m@)
    }

    /// The configuration.
    pub fn get_config(&self) -> (r: &Config)
        ensures
            r@ == self.config_view(),
    {
        &self.config
    }

    /// The links with their weights.
    pub fn get_links(&self) -> (r: &Vec<(RouterId, RouterId, LinkWeight)>)
        ensures
            r@ == self.links_view(),
    {
        &self.links
    }

    /// What each device holds of the configuration.
    pub fn get_devices(&self) -> (r: &Vec<DeviceTables>)
        ensures
            r@.map_values(|d: DeviceTables| d@) == self.devices_view(),
    {
        &self.devices
    }

    /// A network without devices, links or configuration.
    pub fn new() -> (r: Self)
        ensures
            r.config_view() == Map::<crate::netsim::config::ConfigExprKey, ExprView>::empty(),
            r.links_view() == Seq::<(RouterId, RouterId, LinkWeight)>::empty(),
            r.devices_view() == Seq::<DeviceView>::empty(),
            r.history_view() == Seq::<ModView>::empty(),
    {
        let r = Network { config: Config::new(), links: Vec::new(), devices: Vec::new(), history: Vec::new() };
        assert(r.devices_view() =~= Seq::<DeviceView>::empty());
        assert(r.history_view() =~= Seq::<ModView>::empty());
        r
    }

    /// Adds a device, internal or external, with empty tables; its ID is the number of devices
    /// before.
    pub fn add_device(&mut self, external: bool) -> (r: RouterId)
        requires
            old(self).devices_view().len() < u32::MAX,
        ensures
            r == old(self).devices_view().len(),
            final(self).devices_view() == old(self).devices_view().push(
                DeviceView {
                    external: external,
                    static_routes: Seq::empty(),
                    maps_in: Seq::empty(),
                    maps_out: Seq::empty(),
                    sessions: Seq::empty(),
                },
            ),
            final(self).config_view() == old(self).config_view(),
            final(self).links_view() == old(self).links_view(),
            final(self).history_view() == old(self).history_view(),
    {
        let id = self.devices.len() as RouterId;
        let d = DeviceTables {
            external,
            static_routes: Vec::new(),
            maps_in: Vec::new(),
            maps_out: Vec::new(),
            sessions: Vec::new(),
        };
        let ghost dv = d@;
        self.devices.push(d);
        proof {
            assert(dv.maps_in =~= Seq::<MapParts>::empty());
            assert(dv.maps_out =~= Seq::<MapParts>::empty());
            assert(self.devices_view() =~= old(self).devices_view().push(dv));
        }
        id
    }

    /// Adds a link in both directions, with infinite weight.
    pub fn add_link(&mut self, a: RouterId, b: RouterId)
        ensures
            final(self).links_view() == old(self).links_view().push((a, b, infinite_weight())).push(
                (b, a, infinite_weight()),
            ),
            final(self).config_view() == old(self).config_view(),
            final(self).devices_view() == old(self).devices_view(),
            final(self).history_view() == old(self).history_view(),
    {
        self.links.push((a, b, LinkWeight::infinite()));
        self.links.push((b, a, LinkWeight::infinite()));
    }

    /// Whether the link from `a` to `b` exists.
    fn contains_edge(&self, a: RouterId, b: RouterId) -> (r: bool)
        ensures
            r == has_link(self.links@, a, b),
    {
        let mut i: usize = 0;
        while i < self.links.len()
            invariant
                i <= self.links@.len(),
                forall|k: int| 0 <= k < i ==> !(#[trigger] self.links@[k].0 == a && self.links@[k].1 == b),
            decreases self.links@.len() - i,
        {
            if self.links[i].0 == a && self.links[i].1 == b {
                return true;
            }
            i += 1;
        }
        false
    }


    /// Takes the tables of device `id` out, to change them.
    fn take_device(&mut self, id: usize) -> (d: DeviceTables)
        requires
            id < old(self).devices@.len(),
        ensures
            d == old(self).devices@[id as int],
            final(self).devices@ == old(self).devices@.remove(id as int),
            final(self).config == old(self).config,
            final(self).links == old(self).links,
            final(self).history == old(self).history,
    {
        self.devices.remove(id)
    }

    /// Puts the tables of device `id` back.
    fn put_device(&mut self, id: usize, d: DeviceTables)
        requires
            id <= old(self).devices@.len(),
        ensures
            final(self).devices@ == old(self).devices@.insert(id as int, d),
            final(self).config == old(self).config,
            final(self).links == old(self).links,
            final(self).history == old(self).history,
    {
        self.devices.insert(id, d);
    }

    /// Opens the session of `id` towards `peer`; see `open_session`.
    fn open_session_exec(&mut self, id: RouterId, peer: RouterId, t: BgpSessionType) -> (r: Result<(), NetworkError>)
        ensures
            match open_session(old(self).devices_view(), id, peer, t) {
                Ok(dv) => r == Ok::<(), NetworkError>(()) && final(self).devices_view() == dv,
                Err(e) => r == Err::<(), NetworkError>(e) && final(self).devices_view() == old(self).devices_view(),
            },
            final(self).config == old(self).config,
            final(self).links == old(self).links,
            final(self).history == old(self).history,
    {
        let ghost dv0 = self.devices_view();
        if id as usize >= self.devices.len() {
            return Err(NetworkError::DeviceNotFound(id));
        }
        let i = id as usize;
        let mut d = self.take_device(i);
        if find_session(&d.sessions, peer).is_some() {
            self.put_device(i, d);
            proof {
                assert(self.devices_view() =~= dv0);
            }
            return Err(NetworkError::DeviceError(DeviceError::SessionAlreadyExists(peer)));
        }
        let ty = if d.external { BgpSessionType::EBgp } else { t };
        d.sessions.push((peer, ty));
        let ghost nd = d@;
        self.put_device(i, d);
        proof {
            assert(self.devices_view() =~= dv0.update(i as int, nd));
        }
        Ok(())
    }

    /// Closes the session of `id` towards `peer`; see `close_session`.
    fn close_session_exec(&mut self, id: RouterId, peer: RouterId) -> (r: Result<(), NetworkError>)
        ensures
            match close_session(old(self).devices_view(), id, peer) {
                Ok(dv) => r == Ok::<(), NetworkError>(()) && final(self).devices_view() == dv,
                Err(e) => r == Err::<(), NetworkError>(e) && final(self).devices_view() == old(self).devices_view(),
            },
            final(self).config == old(self).config,
            final(self).links == old(self).links,
            final(self).history == old(self).history,
    {
        let ghost dv0 = self.devices_view();
        if id as usize >= self.devices.len() {
            return Err(NetworkError::DeviceNotFound(id));
        }
        let i = id as usize;
        let mut d = self.take_device(i);
        match find_session(&d.sessions, peer) {
            None => {
                self.put_device(i, d);
                proof {
                    assert(self.devices_view() =~= dv0);
                }
                Err(NetworkError::DeviceError(DeviceError::NoBgpSession(peer)))
            },
            Some(k) => {
                d.sessions.remove(k);
                let ghost nd = d@;
                self.put_device(i, d);
                proof {
                    assert(self.devices_view() =~= dv0.update(i as int, nd));
                }
                Ok(())
            },
        }
    }

    /// Changes the type of the session of the internal router `id` towards `peer`; see
    /// `change_session`.
    fn change_session_exec(&mut self, id: RouterId, peer: RouterId, t: BgpSessionType) -> (r: Result<(), NetworkError>)
        ensures
            match change_session(old(self).devices_view(), id, peer, t) {
                Ok(dv) => r == Ok::<(), NetworkError>(()) && final(self).devices_view() == dv,
                Err(e) => r == Err::<(), NetworkError>(e) && final(self).devices_view() == old(self).devices_view(),
            },
            final(self).config == old(self).config,
            final(self).links == old(self).links,
            final(self).history == old(self).history,
    {
        let ghost dv0 = self.devices_view();
        if id as usize >= self.devices.len() || self.devices[id as usize].external {
            return Err(NetworkError::DeviceNotFound(id));
        }
        let i = id as usize;
        let mut d = self.take_device(i);
        match find_session(&d.sessions, peer) {
            None => {
                self.put_device(i, d);
                proof {
                    assert(self.devices_view() =~= dv0);
                }
                Err(NetworkError::DeviceError(DeviceError::NoBgpSession(peer)))
            },
            Some(k) => {
                d.sessions.set(k, (peer, t));
                let ghost nd = d@;
                self.put_device(i, d);
                proof {
                    assert(self.devices_view() =~= dv0.update(i as int, nd));
                }
                Ok(())
            },
        }
    }

    /// Whether `id` is an external router.
    fn is_external_exec(&self, id: RouterId) -> (r: bool)
        ensures
            r == is_external(self.devices_view(), id),
    {
        (id as usize) < self.devices.len() && self.devices[id as usize].external
    }

    /// Whether `id` is an internal router.
    fn is_internal_exec(&self, id: RouterId) -> (r: bool)
        ensures
            r == is_internal(self.devices_view(), id),
    {
        (id as usize) < self.devices.len() && !self.devices[id as usize].external
    }
    /// Sets the weight of the link from `a` to `b`.
    fn update_edge(&mut self, a: RouterId, b: RouterId, w: LinkWeight)
        ensures
            final(self).links@ == set_weight(old(self).links@, a, b, w),
            final(self).config == old(self).config,
            final(self).devices == old(self).devices,
            final(self).history == old(self).history,
    {
        let mut i: usize = 0;
        while i < self.links.len()
            invariant
                i <= self.links@.len(),
                self.links@.len() == old(self).links@.len(),
                self.config == old(self).config,
                self.devices == old(self).devices,
                self.history == old(self).history,
                forall|k: int| 0 <= k < i ==> #[trigger] self.links@[k] == set_weight(old(self).links@, a, b, w)[k],
                forall|k: int| i <= k < self.links@.len() ==> #[trigger] self.links@[k] == old(self).links@[k],
            decreases self.links@.len() - i,
        {
            if self.links[i].0 == a && self.links[i].1 == b {
                self.links.set(i, (a, b, w));
            }
            i += 1;
        }
        assert(self.links@ =~= set_weight(old(self).links@, a, b, w));
    }
}


impl Network {
    /// Applies a route-map change to router `router` in the direction `direction`: `kind` 0 adds
    /// `map`, 1 removes the map of its order, 2 replaces the map of order `order` by `map`.
    fn route_map_change(
        &mut self,
        router: RouterId,
        direction: RouteMapDirection,
        map: &RouteMap,
        kind: u8,
        order: usize,
    ) -> (r: Result<(), NetworkError>)
        requires
            kind <= 2,
        ensures
            final(self).config == old(self).config,
            final(self).links == old(self).links,
            final(self).history == old(self).history,
            !is_internal(old(self).devices_view(), router) ==> r == Err::<(), NetworkError>(NetworkError::DeviceNotFound(router))
                && final(self).devices_view() == old(self).devices_view(),
            is_internal(old(self).devices_view(), router) ==> ({
                let d = old(self).devices_view()[router as int];
                let l = maps_of(d, direction);
                if kind == 2 {
                    let (t, res) = map_modify(l, order, map.parts());
                    &&& final(self).devices_view() == with_device(old(self).devices_view(), router, with_maps(d, direction, t))
                    &&& r == match res {
                        Ok(_) => Ok::<(), NetworkError>(()),
                        Err(x) => Err(NetworkError::DeviceError(x)),
                    }
                } else {
                    let res = if kind == 0 {
                        map_add(l, map.parts())
                    } else {
                        map_remove(l, map.parts().0)
                    };
                    match res {
                        Err(x) => r == Err::<(), NetworkError>(NetworkError::DeviceError(x)) && final(self).devices_view()
                            == old(self).devices_view(),
                        Ok(t) => r == Ok::<(), NetworkError>(()) && final(self).devices_view() == with_device(
                            old(self).devices_view(),
                            router,
                            with_maps(d, direction, t),
                        ),
                    }
                }
            }),
    {
        let ghost dv0 = self.devices_view();
        if !self.is_internal_exec(router) {
            return Err(NetworkError::DeviceNotFound(router));
        }
        let i = router as usize;
        let mut d = self.take_device(i);
        let ghost d0 = d@;
        let res = match direction {
            RouteMapDirection::Incoming => if kind == 0 {
                add_map(&mut d.maps_in, map.clone())
            } else if kind == 1 {
                remove_map(&mut d.maps_in, map.order())
            } else {
                modify_map(&mut d.maps_in, order, map.clone())
            },
            RouteMapDirection::Outgoing => if kind == 0 {
                add_map(&mut d.maps_out, map.clone())
            } else if kind == 1 {
                remove_map(&mut d.maps_out, map.order())
            } else {
                modify_map(&mut d.maps_out, order, map.clone())
            },
        };
        let ghost nd = d@;
        self.put_device(i, d);
        proof {
            assert(self.devices_view() =~= dv0.update(i as int, nd));
            if res.is_err() && kind != 2 {
                assert(nd.maps_in =~= d0.maps_in);
                assert(nd.maps_out =~= d0.maps_out);
                assert(nd == d0);
                assert(self.devices_view() =~= dv0);
            }
        }
        match res {
            Ok(()) => Ok(()),
            Err(x) => Err(NetworkError::DeviceError(x)),
        }
    }

    /// Changes the static route of `router` for `prefix`: `kind` 0 adds it towards `target`, 1
    /// removes it, 2 points it to `target`.
    fn static_change(&mut self, router: RouterId, prefix: Prefix, target: RouterId, kind: u8) -> (r: Result<(), NetworkError>)
        requires
            kind <= 2,
            is_internal(old(self).devices_view(), router),
        ensures
            final(self).config == old(self).config,
            final(self).links == old(self).links,
            final(self).history == old(self).history,
            ({
                let dv = old(self).devices_view();
                let d = dv[router as int];
                let sp = static_pos(d.static_routes, prefix);
                if kind == 0 {
                    if sp is Some {
                        r == Err::<(), NetworkError>(NetworkError::DeviceError(DeviceError::StaticRouteAlreadyExists(prefix)))
                            && final(self).devices_view() == dv
                    } else {
                        r == Ok::<(), NetworkError>(()) && final(self).devices_view() == with_device(
                            dv,
                            router,
                            DeviceView { static_routes: d.static_routes.push((prefix, target)), ..d },
                        )
                    }
                } else {
                    match sp {
                        None => r == Err::<(), NetworkError>(NetworkError::DeviceError(DeviceError::NoStaticRoute(prefix)))
                            && final(self).devices_view() == dv,
                        Some(k) => r == Ok::<(), NetworkError>(()) && final(self).devices_view() == with_device(
                            dv,
                            router,
                            DeviceView {
                                static_routes: if kind == 1 {
                                    d.static_routes.remove(k)
                                } else {
                                    d.static_routes.update(k, (prefix, target))
                                },
                                ..d
                            },
                        ),
                    }
                }
            }),
    {
        let ghost dv0 = self.devices_view();
        let i = router as usize;
        let mut d = self.take_device(i);
        let found = find_static(&d.static_routes, prefix);
        let res = if kind == 0 {
            match found {
                Some(_) => Err(NetworkError::DeviceError(DeviceError::StaticRouteAlreadyExists(prefix))),
                None => {
                    d.static_routes.push((prefix, target));
                    Ok(())
                },
            }
        } else {
            match found {
                None => Err(NetworkError::DeviceError(DeviceError::NoStaticRoute(prefix))),
                Some(k) => {
                    if kind == 1 {
                        d.static_routes.remove(k);
                    } else {
                        d.static_routes.set(k, (prefix, target));
                    }
                    Ok(())
                },
            }
        };
        let ghost nd = d@;
        self.put_device(i, d);
        proof {
            assert(self.devices_view() =~= dv0.update(i as int, nd));
            if res.is_err() {
                assert(nd == dv0[i as int]);
                assert(self.devices_view() =~= dv0);
            }
        }
        res
    }

    /// Apply or undo a single modifier (in the undo case, the modifier is the reverse of the one
    /// to undo). The configuration is checked first: where it does not accept the modifier, the
    /// error of the configuration is returned and nothing changes. Otherwise the configuration
    /// takes the modifier, and the devices change as `device_step` describes; an error there
    /// leaves the changes made before it. `undo` says whether the modifier undoes an earlier one;
    /// the devices here hold only what the configuration sets, so both are applied alike.
    pub fn apply_or_undo_modifier(&mut self, modifier: &ConfigModifier, undo: bool) -> (r: Result<(), NetworkError>)
        ensures
            final(self).history_view() == old(self).history_view(),
            match apply_one(old(self).config_view(), modifier@) {
                None => (r matches Err(NetworkError::ConfigError(ConfigError::ConfigModifierError(x))) && x@ == modifier@)
                    && final(self).config_view() == old(self).config_view() && final(self).links_view() == old(
                    self,
                ).links_view() && final(self).devices_view() == old(self).devices_view(),
                Some(c) => final(self).config_view() == c && (final(self).links_view(), final(self).devices_view(), r)
                    == device_step(old(self).links_view(), old(self).devices_view(), modifier@),
            },
    {
        // check that the modifier can be applied on the config
        match self.config.apply_modifier(modifier) {
            Err(e) => {
                return Err(NetworkError::ConfigError(e));
            },
            Ok(()) => {},
        }
        let ghost l0 = self.links_view();
        let ghost d0 = self.devices_view();
        let ghost c1 = self.config_view();
        // If the modifier can be applied, then everything is ok and we can do the actual change.
        let r = match modifier {
            ConfigModifier::Insert(expr) => match expr {
                ConfigExpr::IgpLinkWeight { source, target, weight } => {
                    // check if router has a link to target
                    if !self.contains_edge(*source, *target) {
                        return Err(NetworkError::RoutersNotConnected(*source, *target));
                    }
                    self.update_edge(*source, *target, *weight);
                    Ok(())
                },
                ConfigExpr::BgpSession { source, target, session_type } => {
                    let es = self.is_external_exec(*source);
                    let et = self.is_external_exec(*target);
                    let types = match session_type {
                        BgpSessionType::IBgpPeer => if es || et {
                            None
                        } else {
                            Some((BgpSessionType::IBgpPeer, BgpSessionType::IBgpPeer))
                        },
                        BgpSessionType::IBgpClient => if es || et {
                            None
                        } else {
                            Some((BgpSessionType::IBgpClient, BgpSessionType::IBgpPeer))
                        },
                        BgpSessionType::EBgp => if !(es || et) {
                            None
                        } else {
                            Some((BgpSessionType::EBgp, BgpSessionType::EBgp))
                        },
                    };
                    match types {
                        None => Err(NetworkError::InvalidBgpSessionType(*source, *target, *session_type)),
                        Some((ts, tt)) => {
                            match self.open_session_exec(*source, *target, ts) {
                                Err(e) => Err(e),
                                Ok(()) => self.open_session_exec(*target, *source, tt),
                            }
                        },
                    }
                },
                ConfigExpr::BgpRouteMap { router, direction, map } => self.route_map_change(*router, *direction, map, 0, 0),
                ConfigExpr::StaticRoute { router, prefix, target } => {
                    // check if router has a link to target
                    if !self.contains_edge(*router, *target) {
                        return Err(NetworkError::RoutersNotConnected(*router, *target));
                    }
                    if !self.is_internal_exec(*router) {
                        return Err(NetworkError::DeviceNotFound(*router));
                    }
                    self.static_change(*router, *prefix, *target, 0)
                },
            },
            ConfigModifier::Remove(expr) => match expr {
                ConfigExpr::IgpLinkWeight { source, target, .. } => {
                    // check if router has a link to target
                    if !self.contains_edge(*source, *target) {
                        return Err(NetworkError::RoutersNotConnected(*source, *target));
                    }
                    self.update_edge(*source, *target, LinkWeight::infinite());
                    Ok(())
                },
                ConfigExpr::BgpSession { source, target, .. } => {
                    match self.close_session_exec(*source, *target) {
                        Err(e) => Err(e),
                        Ok(()) => self.close_session_exec(*target, *source),
                    }
                },
                ConfigExpr::BgpRouteMap { router, direction, map } => self.route_map_change(*router, *direction, map, 1, 0),
                ConfigExpr::StaticRoute { router, prefix, target } => {
                    // check if router has a link to target
                    if !self.contains_edge(*router, *target) {
                        return Err(NetworkError::RoutersNotConnected(*router, *target));
                    }
                    if !self.is_internal_exec(*router) {
                        return Err(NetworkError::DeviceNotFound(*router));
                    }
                    self.static_change(*router, *prefix, *target, 1)
                },
            },
            ConfigModifier::Update { from, to } => match (from, to) {
                (
                    ConfigExpr::IgpLinkWeight { source: s1, target: t1, .. },
                    ConfigExpr::IgpLinkWeight { source: s2, target: t2, weight: w },
                ) if s1 == s2 && t1 == t2 => {
                    // check if router has a link to target
                    if !self.contains_edge(*s1, *t1) {
                        return Err(NetworkError::RoutersNotConnected(*s1, *t1));
                    }
                    self.update_edge(*s1, *t1, *w);
                    Ok(())
                },
                (
                    ConfigExpr::BgpSession { source: s1, target: t1, .. },
                    ConfigExpr::BgpSession { source: s2, target: t2, session_type: x },
                ) if (s1 == s2 && t1 == t2) || (s1 == t2 && t1 == s2) => {
                    if self.is_external_exec(*s2) || self.is_external_exec(*t2) {
                        if *x == BgpSessionType::EBgp {
                            Ok(())
                        } else {
                            Err(NetworkError::InvalidBgpSessionType(*s2, *t2, *x))
                        }
                    } else if *x == BgpSessionType::EBgp {
                        Err(NetworkError::InvalidBgpSessionType(*s2, *t2, *x))
                    } else {
                        match self.change_session_exec(*s2, *t2, *x) {
                            Err(e) => Err(e),
                            Ok(()) => self.change_session_exec(*t2, *s2, BgpSessionType::IBgpPeer),
                        }
                    }
                },
                (
                    ConfigExpr::BgpRouteMap { router: r1, direction: d1, map: m1 },
                    ConfigExpr::BgpRouteMap { router: r2, direction: d2, map: m2 },
                ) if r1 == r2 && d1 == d2 => self.route_map_change(*r1, *d1, m2, 2, m1.order()),
                (
                    ConfigExpr::StaticRoute { router: r1, prefix: p1, .. },
                    ConfigExpr::StaticRoute { router: r2, prefix: p2, target: t },
                ) if r1 == r2 && p1 == p2 => {
                    // check if router has a link to target
                    if !self.contains_edge(*r1, *t) {
                        return Err(NetworkError::RoutersNotConnected(*r1, *t));
                    }
                    if !self.is_internal_exec(*r1) {
                        return Err(NetworkError::DeviceNotFound(*r1));
                    }
                    self.static_change(*r1, *p1, *t, 2)
                },
                _ => {
                    proof {
                        assert(false);
                    }
                    Err(NetworkError::ConfigError(ConfigError::ConfigModifierError(modifier.clone())))
                },
            },
        };
        r
    }

    /// Applies a configuration modifier and records it, so that it can be undone; see
    /// `apply_or_undo_modifier`.
    pub fn apply_modifier(&mut self, modifier: &ConfigModifier) -> (r: Result<(), NetworkError>)
        ensures
            final(self).history_view() == old(self).history_view().push(modifier@),
            match apply_one(old(self).config_view(), modifier@) {
                None => (r matches Err(NetworkError::ConfigError(ConfigError::ConfigModifierError(x))) && x@ == modifier@)
                    && final(self).config_view() == old(self).config_view() && final(self).links_view() == old(
                    self,
                ).links_view() && final(self).devices_view() == old(self).devices_view(),
                Some(c) => final(self).config_view() == c && (final(self).links_view(), final(self).devices_view(), r)
                    == device_step(old(self).links_view(), old(self).devices_view(), modifier@),
            },
    {
        // add the event to the history
        let ghost h0 = self.history_view();
        self.history.push(modifier.clone());
        assert(self.history_view() =~= h0.push(modifier@));
        self.apply_or_undo_modifier(modifier, false)
    }

    /// Undoes the last modifier: `Ok(false)` where none was applied; otherwise the reverse of the
    /// last modifier is applied, as `apply_or_undo_modifier` describes, and it leaves the history.
    pub fn undo_action(&mut self) -> (r: Result<bool, NetworkError>)
        ensures
            old(self).history_view().len() == 0 ==> r == Ok::<bool, NetworkError>(false) && final(self).history_view()
                == old(self).history_view() && final(self).config_view() == old(self).config_view()
                && final(self).links_view() == old(self).links_view() && final(self).devices_view() == old(
                self,
            ).devices_view(),
            old(self).history_view().len() > 0 ==> ({
                let m = old(self).history_view().last().reverse();
                let d = device_step(old(self).links_view(), old(self).devices_view(), m);
                &&& final(self).history_view() == old(self).history_view().drop_last()
                &&& apply_one(old(self).config_view(), m) is None ==> r is Err && final(self).config_view() == old(
                    self,
                ).config_view() && final(self).links_view() == old(self).links_view() && final(self).devices_view()
                    == old(self).devices_view()
                &&& apply_one(old(self).config_view(), m) is Some ==> {
                    &&& final(self).config_view() == apply_one(old(self).config_view(), m)->Some_0
                    &&& final(self).links_view() == d.0
                    &&& final(self).devices_view() == d.1
                    &&& (r is Ok <==> d.2 is Ok)
                    &&& (r is Ok ==> r == Ok::<bool, NetworkError>(true))
                    &&& (r is Err ==> d.2 == Err::<(), NetworkError>(r->Err_0))
                }
            }),
    {
        let ghost h0 = self.history_view();
        match self.history.pop() {
            None => Ok(false),
            Some(modifier) => {
                assert(self.history_view() =~= h0.drop_last());
                let rev = modifier.reverse();
                match self.apply_or_undo_modifier(&rev, true) {
                    Ok(()) => Ok(true),
                    Err(e) => Err(e),
                }
            },
        }
    }
}

/// Applying a modifier with `apply_modifier` and then calling `undo_action` gives back the
/// configuration and the history from before: the undo applies the reverse of the recorded
/// modifier, which the configuration accepts, and under the key of the modifier the
/// configuration ends with an expression equal to the one it had (none where it had none), and
/// under every other key with the same expression. This holds where the expression that an
/// insertion leaves holds no weight that is NaN, and where the `from` of an update equals the
/// configured expression (its reverse puts that `from` back).
pub proof fn lemma_undo_after_apply(c: Map<crate::netsim::config::ConfigExprKey, ExprView>, h: Seq<ModView>, x: ModView)
    requires
        apply_one(c, x) is Some,
        match x {
            ModView::Insert(e) => e.regular(),
            ModView::Remove(_) => true,
            ModView::Update { from, .. } => c[from.key()].same(from),
        },
    ensures
        h.push(x).len() > 0,
        h.push(x).drop_last() == h,
        h.push(x).last().reverse() == x.reverse(),
        apply_one(apply_one(c, x)->Some_0, x.reverse()) is Some,
        ({
            let m = apply_one(apply_one(c, x)->Some_0, x.reverse())->Some_0;
            &&& m.remove(x.key()) == c.remove(x.key())
            &&& m.contains_key(x.key()) == c.contains_key(x.key())
            &&& c.contains_key(x.key()) ==> c[x.key()].same(m[x.key()])
        }),
{
    assert(h.push(x).drop_last() =~= h);
    match x {
        ModView::Insert(e) => {
            assert(apply_one(c, x)->Some_0.remove(e.key()) =~= c);
            assert(c.remove(e.key()) =~= c);
        },
        ModView::Remove(e) => {
            assert(c.remove(e.key()).insert(e.key(), e).remove(e.key()) =~= c.remove(e.key()));
        },
        ModView::Update { from, to } => {
            assert(c.insert(from.key(), to).insert(from.key(), from).remove(from.key()) =~= c.remove(from.key()));
        },
    }
}

proof fn lemma_session_pos_update(s: Seq<(RouterId, BgpSessionType)>, peer: RouterId, i: int, t: BgpSessionType)
    requires
        session_pos(s, peer) == Some(i),
    ensures
        session_pos(s.update(i, (peer, t)), peer) == Some(i),
        0 <= i < s.len(),
    decreases s.len(),
{
    if s.len() > 0 && i != s.len() - 1 {
        lemma_session_pos_update(s.drop_last(), peer, i, t);
        assert(s.update(i, (peer, t)).drop_last() =~= s.drop_last().update(i, (peer, t)));
    }
}

/// The session types at both ends of an iBGP session between two different internal routers,
/// whether the session is inserted or updated to type `x`: the source has `x` towards the
/// target (its last session entry for the target), and the target has a plain iBGP peer session
/// towards the source, so that a client sees its route reflector as a peer. An eBGP type is
/// refused between internal routers.
pub proof fn lemma_ibgp_session_ends(
    links: Seq<(RouterId, RouterId, LinkWeight)>,
    devs: Seq<DeviceView>,
    s: RouterId,
    t: RouterId,
    x: BgpSessionType,
    from: ExprView,
)
    requires
        s != t,
        is_internal(devs, s),
        is_internal(devs, t),
        from matches ExprView::BgpSession { source: s1, target: t1, .. } && ((s1 == s && t1 == t) || (s1 == t && t1 == s)),
    ensures
        ({
            let r = device_step(links, devs, ModView::Insert(ExprView::BgpSession { source: s, target: t, session_type: x }));
            &&& x == BgpSessionType::EBgp ==> r.2 == Err::<(), NetworkError>(NetworkError::InvalidBgpSessionType(s, t, x))
            &&& r.2 is Ok ==> (session_pos(r.1[s as int].sessions, t) matches Some(i) && r.1[s as int].sessions[i] == (t, x))
            &&& r.2 is Ok ==> (session_pos(r.1[t as int].sessions, s) matches Some(j) && r.1[t as int].sessions[j] == (
                s,
                BgpSessionType::IBgpPeer,
            ))
        }),
        ({
            let r = device_step(
                links,
                devs,
                ModView::Update { from, to: ExprView::BgpSession { source: s, target: t, session_type: x } },
            );
            &&& x == BgpSessionType::EBgp ==> r.2 == Err::<(), NetworkError>(NetworkError::InvalidBgpSessionType(s, t, x))
            &&& r.2 is Ok ==> (session_pos(r.1[s as int].sessions, t) matches Some(i) && r.1[s as int].sessions[i] == (t, x))
            &&& r.2 is Ok ==> (session_pos(r.1[t as int].sessions, s) matches Some(j) && r.1[t as int].sessions[j] == (
                s,
                BgpSessionType::IBgpPeer,
            ))
        }),
{
    // insertion
    let e = ExprView::BgpSession { source: s, target: t, session_type: x };
    if x != BgpSessionType::EBgp {
        let o1 = open_session(devs, s, t, x);
        if o1 is Ok {
            let d1 = o1->Ok_0;
            let ds = devs[s as int].sessions;
            assert(d1[s as int].sessions == ds.push((t, x)));
            assert(ds.push((t, x)).drop_last() =~= ds);
            let o2 = open_session(d1, t, s, BgpSessionType::IBgpPeer);
            if o2 is Ok {
                let d2 = o2->Ok_0;
                let dt = d1[t as int].sessions;
                assert(d2[t as int].sessions == dt.push((s, BgpSessionType::IBgpPeer)));
                assert(dt.push((s, BgpSessionType::IBgpPeer)).drop_last() =~= dt);
                assert(d2[s as int] == d1[s as int]);
            }
        }
        // update
        let c1 = change_session(devs, s, t, x);
        if c1 is Ok {
            let d1 = c1->Ok_0;
            let i = session_pos(devs[s as int].sessions, t)->Some_0;
            lemma_session_pos_update(devs[s as int].sessions, t, i, x);
            assert(is_internal(d1, t));
            let c2 = change_session(d1, t, s, BgpSessionType::IBgpPeer);
            if c2 is Ok {
                let d2 = c2->Ok_0;
                let j = session_pos(d1[t as int].sessions, s)->Some_0;
                lemma_session_pos_update(d1[t as int].sessions, s, j, BgpSessionType::IBgpPeer);
                assert(d2[s as int] == d1[s as int]);
            }
        }
    }
}

/// An eBGP session between an internal router and an external one is of type eBGP at both ends,
/// whatever type the external router would be given; an iBGP type between them is refused.
pub proof fn lemma_ebgp_session_ends(
    links: Seq<(RouterId, RouterId, LinkWeight)>,
    devs: Seq<DeviceView>,
    s: RouterId,
    t: RouterId,
    x: BgpSessionType,
)
    requires
        s != t,
        s < devs.len(),
        t < devs.len(),
        is_external(devs, s) || is_external(devs, t),
    ensures
        ({
            let r = device_step(links, devs, ModView::Insert(ExprView::BgpSession { source: s, target: t, session_type: x }));
            &&& x != BgpSessionType::EBgp ==> r.2 == Err::<(), NetworkError>(NetworkError::InvalidBgpSessionType(s, t, x))
            &&& r.2 is Ok ==> (session_pos(r.1[s as int].sessions, t) matches Some(i) && r.1[s as int].sessions[i] == (
                t,
                BgpSessionType::EBgp,
            ))
            &&& r.2 is Ok ==> (session_pos(r.1[t as int].sessions, s) matches Some(j) && r.1[t as int].sessions[j] == (
                s,
                BgpSessionType::EBgp,
            ))
        }),
{
    if x == BgpSessionType::EBgp {
        let o1 = open_session(devs, s, t, x);
        if o1 is Ok {
            let d1 = o1->Ok_0;
            let ds = devs[s as int].sessions;
            assert(ds.push((t, BgpSessionType::EBgp)).drop_last() =~= ds);
            let o2 = open_session(d1, t, s, BgpSessionType::EBgp);
            if o2 is Ok {
                let d2 = o2->Ok_0;
                let dt = d1[t as int].sessions;
                assert(dt.push((s, BgpSessionType::EBgp)).drop_last() =~= dt);
                assert(d2[s as int] == d1[s as int]);
            }
        }
    }
}

} // verus!
