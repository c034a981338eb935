//! # BGP graph
//!
//! The edges of the BGP graph are the BGP sessions between routers, labelled by the direction in
//! which routes travel along them.
use vstd::prelude::*;
use crate::netsim::{BgpSessionType, LinkWeight, RouterId};
use crate::netsim::bgp::{BgpRibEntry, BgpRoute, EntryView, RouteView};
use crate::netsim::route_map::{apply_route_maps, maps_outcome, RouteMap};
use crate::netsim::config::{as_map, has_key, lemma_as_map, unique_keys, ConfigExprKey, ExprView};
use crate::netsim::network::{is_external, parts_of, DeviceView, Network};
use std::collections::HashMap;
use vstd::std_specs::iter::IteratorSpec;
use vstd::std_specs::hash::spec_keys_iter;

verus! {

/// Type of an edge (BGP Session), including optional route maps
#[derive(Debug, Clone, Copy, PartialEq, Eq, Structural)]
pub enum BgpEdge {
    /// Towards a route reflector (the source is a client of the target)
    Up,
    /// Towards an external router
    UpExternal,
    /// Between two peers
    Over,
    /// Towards a route-reflector client
    Down,
    /// From an external router
    DownExternal,
    /// No session
    NoSession,
}

/// The rank of an edge in the order of edges: up before over before down.
pub open spec fn edge_rank(e: BgpEdge) -> u32 {
    match e {
        BgpEdge::Up => 3,
        BgpEdge::UpExternal => 3,
        BgpEdge::Over => 2,
        BgpEdge::Down => 1,
        BgpEdge::DownExternal => 1,
        BgpEdge::NoSession => 0,
    }
}

impl BgpEdge {
    /// Returns self as an option.
    pub fn to_option(&self) -> (r: Option<Self>)
        ensures
            r == (if *self == BgpEdge::NoSession { None } else { Some(*self) }),
    {
        match self {
            BgpEdge::Up => Some(BgpEdge::Up),
            BgpEdge::UpExternal => Some(BgpEdge::UpExternal),
            BgpEdge::Over => Some(BgpEdge::Over),
            BgpEdge::Down => Some(BgpEdge::Down),
            BgpEdge::DownExternal => Some(BgpEdge::DownExternal),
            BgpEdge::NoSession => None,
        }
    }

    /// Returns the edge interpreted as a session type. As an example, assume an UP session from
    /// node u to node v. This means, that node u is the client, but node u will have configured
    /// node v as a peer, and hence, the type will be peer.
    pub fn to_session_type(&self) -> (r: Option<BgpSessionType>)
        ensures
            r == match *self {
                BgpEdge::Up => Some(BgpSessionType::IBgpPeer),
                BgpEdge::UpExternal => Some(BgpSessionType::EBgp),
                BgpEdge::Over => Some(BgpSessionType::IBgpPeer),
                BgpEdge::Down => Some(BgpSessionType::IBgpClient),
                BgpEdge::DownExternal => Some(BgpSessionType::EBgp),
                BgpEdge::NoSession => None,
            },
    {
        match self {
            BgpEdge::Up => Some(BgpSessionType::IBgpPeer),
            BgpEdge::UpExternal => Some(BgpSessionType::EBgp),
            BgpEdge::Over => Some(BgpSessionType::IBgpPeer),
            BgpEdge::Down => Some(BgpSessionType::IBgpClient),
            BgpEdge::DownExternal => Some(BgpSessionType::EBgp),
            BgpEdge::NoSession => None,
        }
    }

    /// Returns self, but if self is `Over`, it will be changed to `Down`
    pub fn over_to_down(self) -> (r: Self)
        ensures
            r == (if self == BgpEdge::Over { BgpEdge::Down } else { self }),
    {
        match self {
            BgpEdge::Over => BgpEdge::Down,
            s => s,
        }
    }

    /// Convert to an u32 for ordering.
    fn to_u32(&self) -> (r: u32)
        ensures
            r == edge_rank(*self),
    {
        match self {
            BgpEdge::Up => 3,
            BgpEdge::UpExternal => 3,
            BgpEdge::Over => 2,
            BgpEdge::Down => 1,
            BgpEdge::DownExternal => 1,
            BgpEdge::NoSession => 0,
        }
    }

    /// Whether `self` comes before `other` in the order of edges.
    pub fn is_less(&self, other: &Self) -> (r: bool)
        ensures
            r == (edge_rank(*self) < edge_rank(*other)),
    {
        self.to_u32() < other.to_u32()
    }
}

/// Get the index of the edge in the 2-dim table of `n` columns.
pub fn edge_idx(from: RouterId, to: RouterId, n: usize) -> (r: usize)
    requires
        from * n + to <= usize::MAX,
    ensures
        r == from * n + to,
{
    let f: usize = from as usize;
    let t: usize = to as usize;
    f * n + t
}

/// Iterator over the neighbors of a router: the routers to which its row of the BGP graph has an
/// edge, with that edge.
pub struct BgpGraphNeighborIterator<'a> {
    data: &'a [BgpEdge],
    pos: usize,
}

impl<'a> BgpGraphNeighborIterator<'a> {
    /// The edges of the row.
    pub closed spec fn edges(&self) -> Seq<BgpEdge> {
        self.data@
    }

    /// The position of the next edge to look at.
    pub closed spec fn position(&self) -> int {
        self.pos as int
    }

    /// The position is within the row, and every position is a router id.
    pub open spec fn wf(&self) -> bool {
        &&& self.position() <= self.edges().len()
        &&& self.edges().len() <= u32::MAX + 1
    }

    /// Creates the iterator over a row of the BGP graph.
    pub fn new(data: &'a [BgpEdge]) -> (r: Self)
        requires
            data@.len() <= u32::MAX + 1,
        ensures
            r.wf(),
            r.edges() == data@,
            r.position() == 0,
    {
        BgpGraphNeighborIterator { data, pos: 0 }
    }

    /// Returns the next neighbor and the edge towards it, or `None` when the row is exhausted.
    pub fn next(&mut self) -> (r: Option<(RouterId, BgpEdge)>)
        requires
            old(self).wf(),
        ensures
            final(self).wf(),
            final(self).edges() == old(self).edges(),
            match r {
                Some((id, e)) => {
                    &&& old(self).position() <= id < old(self).edges().len()
                    &&& e == old(self).edges()[id as int]
                    &&& e != BgpEdge::NoSession
                    &&& forall|k: int| old(self).position() <= k < id ==> old(self).edges()[k] == BgpEdge::NoSession
                    &&& final(self).position() == id + 1
                },
                None => {
                    &&& forall|k: int| old(self).position() <= k < old(self).edges().len() ==> old(self).edges()[k] == BgpEdge::NoSession
                    &&& final(self).position() == old(self).edges().len()
                },
            },
    {
        while self.pos < self.data.len()
            invariant
                old(self).position() <= self.position() <= self.edges().len(),
                self.edges() == old(self).edges(),
                self.edges().len() <= u32::MAX + 1,
                forall|k: int| old(self).position() <= k < self.position() ==> self.edges()[k] == BgpEdge::NoSession,
            decreases self.edges().len() - self.position(),
        {
            if let Some(e) = self.data[self.pos].to_option() {
                let router_id: RouterId = self.pos as u32;
                self.pos += 1;
                return Some((router_id, e));
            } else {
                self.pos += 1;
            }
        }
        None
    }
}

/// Removes an entry of the map, if there is any, and returns it. Which entry is removed depends
/// on the order in which the map is walked.
pub fn pop_hashmap<V>(map: &mut HashMap<RouterId, V>) -> (r: Option<(RouterId, V)>)
    ensures
        r is None <==> old(map)@.dom() == Set::<RouterId>::empty(),
        r is None ==> final(map)@ == old(map)@,
        r matches Some((k, v)) ==> old(map)@.contains_key(k) && old(map)@[k] == v && final(map)@
            == old(map)@.remove(k),
{
    broadcast use vstd::std_specs::hash::group_hash_axioms;

    let mut first: Option<RouterId> = None;
    for k in it: map.keys()
        invariant
            first is None <==> it.index() == 0,
            first matches Some(x) ==> map@.dom().contains(x),
            it.seq() == spec_keys_iter(map).remaining(),
    {
        if first.is_none() {
            proof {
                let s = spec_keys_iter(map).remaining();
                assert(s.unref()[0] == *k);
                assert(s.unref().to_set().contains(*k));
            }
            first = Some(*k);
        }
    }
    let next_key = match first {
        Some(k) => k,
        None => {
            proof {
                assert(map@.dom() =~= Set::<RouterId>::empty()) by {
                    assert forall|x: RouterId| !map@.dom().contains(x) by {
                        if map@.dom().contains(x) {
                            assert(spec_keys_iter(map).remaining().unref().to_set().contains(x));
                        }
                    }
                }
            }
            return None;
        },
    };
    match map.remove(&next_key) {
        Some(v) => Some((next_key, v)),
        None => None,
    }
}

/// The session type of the edge `e`, as the router at its start has configured it.
pub open spec fn session_type_of(e: BgpEdge) -> Option<BgpSessionType> {
    match e {
        BgpEdge::Up => Some(BgpSessionType::IBgpPeer),
        BgpEdge::UpExternal => Some(BgpSessionType::EBgp),
        BgpEdge::Over => Some(BgpSessionType::IBgpPeer),
        BgpEdge::Down => Some(BgpSessionType::IBgpClient),
        BgpEdge::DownExternal => Some(BgpSessionType::EBgp),
        BgpEdge::NoSession => None,
    }
}

/// What the route maps along one hop do to a route.
#[derive(Debug)]
pub enum RouteMapResult {
    /// No route map changed the route
    NoMatch,
    /// A route map denied the route
    Deny,
    /// Route maps changed the route into this one
    Allow(BgpRoute),
}

/// What the route maps along one hop do to a route, as a plain value.
pub enum ResultView {
    /// No route map changed the route
    NoMatch,
    /// A route map denied the route
    Deny,
    /// Route maps changed the route into this one
    Allow(RouteView),
}

impl View for RouteMapResult {
    type V = ResultView;

    open spec fn view(&self) -> ResultView {
        match self {
            RouteMapResult::NoMatch => ResultView::NoMatch,
            RouteMapResult::Deny => ResultView::Deny,
            RouteMapResult::Allow(r) => ResultView::Allow(r@),
        }
    }
}

/// The BGP graph: the session between each pair of `n` routers, and the outgoing and incoming
/// route maps of each router.
pub struct BgpGraph {
    n: usize,
    g: Vec<BgpEdge>,
    rm_out: Vec<Vec<RouteMap>>,
    rm_inc: Vec<Vec<RouteMap>>,
}

/// The position of the pair `(a, b)` in a table of `n` columns lies in the table.
proof fn lemma_pair_index(a: int, b: int, n: int)
    requires
        0 <= a < n,
        0 <= b < n,
    ensures
        0 <= a * n + b < n * n,
{
    assert(a * n + b < n * n) by (nonlinear_arith)
        requires
            0 <= a < n,
            0 <= b < n,
    ;
    assert(0 <= a * n) by (nonlinear_arith)
        requires
            0 <= a,
            0 <= n,
    ;
}

/// The key of the BGP session between `a` and `b`.
pub open spec fn session_key(a: RouterId, b: RouterId) -> ConfigExprKey {
    if a < b {
        ConfigExprKey::BgpSession { speaker_a: a, speaker_b: b }
    } else {
        ConfigExprKey::BgpSession { speaker_a: b, speaker_b: a }
    }
}

/// The edge that the BGP session `e` gives from its end `a` to the other: an eBGP session goes
/// up from the external router and down from the internal one, an iBGP peer session goes over,
/// and a client session goes down from the route reflector (the source) and up from the client.
pub open spec fn session_edge_of(e: ExprView, devs: Seq<DeviceView>, a: RouterId) -> BgpEdge {
    match e {
        ExprView::BgpSession { source, target, session_type } => {
            let ext = is_external(devs, source);
            if a == target {
                match session_type {
                    BgpSessionType::EBgp => if ext {
                        BgpEdge::DownExternal
                    } else {
                        BgpEdge::UpExternal
                    },
                    BgpSessionType::IBgpPeer => BgpEdge::Over,
                    BgpSessionType::IBgpClient => BgpEdge::Up,
                }
            } else {
                match session_type {
                    BgpSessionType::EBgp => if ext {
                        BgpEdge::UpExternal
                    } else {
                        BgpEdge::DownExternal
                    },
                    BgpSessionType::IBgpPeer => BgpEdge::Over,
                    BgpSessionType::IBgpClient => BgpEdge::Down,
                }
            }
        },
        _ => BgpEdge::NoSession,
    }
}

/// The edge from `a` to `b` that the configuration `c` gives: that of the BGP session between
/// them, or none.
pub open spec fn config_edge(c: Map<ConfigExprKey, ExprView>, devs: Seq<DeviceView>, a: RouterId, b: RouterId) -> BgpEdge {
    if c.contains_key(session_key(a, b)) {
        session_edge_of(c[session_key(a, b)], devs, a)
    } else {
        BgpEdge::NoSession
    }
}

/// The edge from `a` to `b` that the last session between them among the expressions `s` gives.
pub open spec fn seq_edge(s: Seq<ExprView>, devs: Seq<DeviceView>, a: RouterId, b: RouterId) -> BgpEdge
    decreases s.len(),
{
    if s.len() == 0 {
        BgpEdge::NoSession
    } else if s.last().key() == session_key(a, b) {
        session_edge_of(s.last(), devs, a)
    } else {
        seq_edge(s.drop_last(), devs, a, b)
    }
}

/// Where the keys are unique, the edge of the expressions is the one of the expression with the
/// key of the session, or none.
proof fn lemma_seq_edge(s: Seq<ExprView>, devs: Seq<DeviceView>, a: RouterId, b: RouterId)
    requires
        unique_keys(s),
    ensures
        seq_edge(s, devs, a, b) == config_edge(as_map(s), devs, a, b),
    decreases s.len(),
{
    lemma_as_map(s);
    if s.len() > 0 {
        let t = s.drop_last();
        assert(unique_keys(t));
        lemma_seq_edge(t, devs, a, b);
        lemma_as_map(t);
        let k = session_key(a, b);
        if s.last().key() == k {
            assert(s[s.len() - 1].key() == k);
        } else {
            if has_key(s, k) {
                let j = choose|j: int| 0 <= j < s.len() && #[trigger] s[j].key() == k;
                assert(j != s.len() - 1);
                assert(t[j].key() == k);
                assert(has_key(t, k));
            }
            if has_key(t, k) {
                let j = choose|j: int| 0 <= j < t.len() && #[trigger] t[j].key() == k;
                assert(s[j].key() == k);
                assert(as_map(t)[k] == t[j]);
                assert(as_map(s)[k] == s[j]);
            }
        }
    }
}

/// Two pairs of positions below `n` have the same place in a table of `n` columns only where
/// they are equal.
proof fn lemma_pair_index_unique(a: int, b: int, c: int, d: int, n: int)
    requires
        0 <= a < n,
        0 <= b < n,
        0 <= c < n,
        0 <= d < n,
        a * n + b == c * n + d,
    ensures
        a == c && b == d,
{
    if a < c {
        assert(a * n + b < c * n + d) by (nonlinear_arith)
            requires
                a < c,
                0 <= b < n,
                0 <= d,
        ;
    } else if c < a {
        assert(c * n + d < a * n + b) by (nonlinear_arith)
            requires
                c < a,
                0 <= d < n,
                0 <= b,
        ;
    }
}

/// Copies of the route maps.
fn copy_maps(v: &Vec<RouteMap>) -> (r: Vec<RouteMap>)
    ensures
        parts_of(r@) == parts_of(v@),
{
    let mut r: Vec<RouteMap> = Vec::new();
    let mut i: usize = 0;
    while i < v.len()
        invariant
            i <= v@.len(),
            r@.len() == i,
            forall|k: int| 0 <= k < i ==> (#[trigger] r@[k]).parts() == v@[k].parts(),
        decreases v@.len() - i,
    {
        r.push(v[i].clone());
        i += 1;
    }
    assert(parts_of(r@) =~= parts_of(v@));
    r
}

impl BgpGraph {
    /// The neighbors of router `a` among the first `m` routers, in the order of their IDs, each
    /// with the edge to it.
    pub open spec fn neighbors_upto(&self, a: RouterId, m: nat) -> Seq<(RouterId, BgpEdge)>
        decreases m,
    {
        if m == 0 {
            Seq::empty()
        } else {
            let prev = self.neighbors_upto(a, (m - 1) as nat);
            let e = self.edge(a, (m - 1) as RouterId);
            if e != BgpEdge::NoSession {
                prev.push(((m - 1) as RouterId, e))
            } else {
                prev
            }
        }
    }

    /// All neighbors of the chosen router: every router to which it has an edge, in the order
    /// of their IDs, with the edge.
    pub fn neighbors(&self, router: RouterId) -> (r: Vec<(RouterId, BgpEdge)>)
        requires
            self.wf(),
            router < self.size(),
        ensures
            r@ == self.neighbors_upto(router, self.size()),
    {
        let n = self.n;
        let len = self.g.len();
        let mut r: Vec<(RouterId, BgpEdge)> = Vec::new();
        let mut b: usize = 0;
        while b < n
            invariant
                self.wf(),
                len == self.g@.len(),
                n == self.n,
                router < n,
                b <= n,
                r@ == self.neighbors_upto(router, b as nat),
            decreases n - b,
        {
            proof {
                lemma_pair_index(router as int, b as int, n as int);
                assert(0 <= router * n <= router * n + b < len);
            }
            let e = self.g[router as usize * n + b];
            if e != BgpEdge::NoSession {
                r.push((b as RouterId, e));
            }
            b += 1;
        }
        r
    }

    /// The graph of the BGP sessions of the network: between two devices, the edge that the
    /// configured session between them gives (none where there is no session), and for each
    /// device the route maps that it holds, in their order.
    pub fn new(net: &Network) -> (r: Self)
        requires
            net.devices_view().len() <= u32::MAX,
            net.devices_view().len() * net.devices_view().len() <= usize::MAX,
        ensures
            r.wf(),
            r.size() == net.devices_view().len(),
            forall|a: RouterId, b: RouterId|
                a < r.size() && b < r.size() ==> #[trigger] r.edge(a, b) == config_edge(
                    net.config_view(),
                    net.devices_view(),
                    a,
                    b,
                ),
            forall|a: RouterId| a < r.size() ==> parts_of(#[trigger] r.maps_in(a)) == net.devices_view()[a as int].maps_in,
            forall|a: RouterId| a < r.size() ==> parts_of(#[trigger] r.maps_out(a)) == net.devices_view()[a as int].maps_out,
    {
        let devices = net.get_devices();
        let n = devices.len();
        let ghost devs = net.devices_view();
        assert(devs.len() == n);
        let mut g: Vec<BgpEdge> = Vec::new();
        let mut k: usize = 0;
        while k < n * n
            invariant
                k <= n * n,
                n * n <= usize::MAX,
                g@.len() == k,
                forall|j: int| 0 <= j < k ==> #[trigger] g@[j] == BgpEdge::NoSession,
            decreases n * n - k,
        {
            g.push(BgpEdge::NoSession);
            k += 1;
        }
        let config = net.get_config();
        let exprs = config.iter();
        let ghost es = exprs@.map_values(|x: crate::netsim::config::ConfigExpr| x@);
        config.well_formed();
        assert(es == config.exprs());
        assert(unique_keys(es));
        assert(as_map(es) == net.config_view());
        assert forall|a: RouterId, b: RouterId| a < n && b < n implies #[trigger] g@[a * n + b] == seq_edge(
            es.take(0),
            devs,
            a,
            b,
        ) by {
            lemma_pair_index(a as int, b as int, n as int);
        }
        let mut i: usize = 0;
        while i < exprs.len()
            invariant
                i <= exprs@.len(),
                es.len() == exprs@.len(),
                forall|j: int| 0 <= j < exprs@.len() ==> #[trigger] es[j] == exprs@[j]@,
                n <= u32::MAX,
                n * n <= usize::MAX,
                g@.len() == n * n,
                devs.len() == n,
                devs == net.devices_view(),
                devices@.len() == n,
                devs == devices@.map_values(|x: crate::netsim::network::DeviceTables| x@),
                forall|a: RouterId, b: RouterId|
                    a < n && b < n ==> #[trigger] g@[a * n + b] == seq_edge(es.take(i as int), devs, a, b),
            decreases exprs@.len() - i,
        {
            assert(es.take(i + 1).drop_last() =~= es.take(i as int));
            match &exprs[i] {
                crate::netsim::config::ConfigExpr::BgpSession { source, target, session_type } => {
                    let s = *source;
                    let t = *target;
                    if (s as usize) < n && (t as usize) < n {
                        let ext = devices[s as usize].external;
                        let (st, ts) = match session_type {
                            BgpSessionType::EBgp => if ext {
                                (BgpEdge::UpExternal, BgpEdge::DownExternal)
                            } else {
                                (BgpEdge::DownExternal, BgpEdge::UpExternal)
                            },
                            BgpSessionType::IBgpPeer => (BgpEdge::Over, BgpEdge::Over),
                            BgpSessionType::IBgpClient => (BgpEdge::Down, BgpEdge::Up),
                        };
                        proof {
                            lemma_pair_index(s as int, t as int, n as int);
                            lemma_pair_index(t as int, s as int, n as int);
                            assert(devs[s as int] == devices@[s as int]@);
                            assert(ext == is_external(devs, s));
                            assert(s != t ==> st == session_edge_of(es[i as int], devs, s));
                            assert(ts == session_edge_of(es[i as int], devs, t));
                        }
                        let ghost g0 = g@;
                        g.set(s as usize * n + t as usize, st);
                        g.set(t as usize * n + s as usize, ts);
                        proof {
                            assert forall|a: RouterId, b: RouterId| a < n && b < n implies #[trigger] g@[a * n + b]
                                == seq_edge(es.take(i + 1), devs, a, b) by {
                                lemma_pair_index(a as int, b as int, n as int);
                                let e = es[i as int];
                                assert(es.take(i + 1).last() == e);
                                if a == t && b == s {
                                    assert(e.key() == session_key(a, b));
                                } else if a == s && b == t {
                                    assert(e.key() == session_key(a, b));
                                    if a * n + b == t * n + s {
                                        lemma_pair_index_unique(a as int, b as int, t as int, s as int, n as int);
                                    }
                                } else {
                                    assert(e.key() != session_key(a, b));
                                    if a * n + b == s * n + t {
                                        lemma_pair_index_unique(a as int, b as int, s as int, t as int, n as int);
                                    }
                                    if a * n + b == t * n + s {
                                        lemma_pair_index_unique(a as int, b as int, t as int, s as int, n as int);
                                    }
                                }
                            }
                        }
                    } else {
                        proof {
                            assert forall|a: RouterId, b: RouterId| a < n && b < n implies #[trigger] g@[a * n + b]
                                == seq_edge(es.take(i + 1), devs, a, b) by {
                                assert(es.take(i + 1).last() == es[i as int]);
                                assert(es[i as int].key() != session_key(a, b));
                            }
                        }
                    }
                },
                _ => {
                    proof {
                        assert forall|a: RouterId, b: RouterId| a < n && b < n implies #[trigger] g@[a * n + b]
                            == seq_edge(es.take(i + 1), devs, a, b) by {
                            assert(es.take(i + 1).last() == es[i as int]);
                            assert(es[i as int].key() != session_key(a, b));
                        }
                    }
                },
            }
            i += 1;
        }
        assert(es.take(exprs@.len() as int) =~= es);
        proof {
            assert forall|a: RouterId, b: RouterId| a < n && b < n implies #[trigger] g@[a * n + b] == config_edge(
                net.config_view(),
                devs,
                a,
                b,
            ) by {
                lemma_seq_edge(es, devs, a, b);
            }
        }
        let mut rm_inc: Vec<Vec<RouteMap>> = Vec::new();
        let mut rm_out: Vec<Vec<RouteMap>> = Vec::new();
        let mut d: usize = 0;
        while d < n
            invariant
                d <= n,
                devices@.len() == n,
                devs == devices@.map_values(|x: crate::netsim::network::DeviceTables| x@),
                rm_inc@.len() == d,
                rm_out@.len() == d,
                forall|j: int| 0 <= j < d ==> parts_of((#[trigger] rm_inc@[j])@) == devs[j].maps_in,
                forall|j: int| 0 <= j < d ==> parts_of((#[trigger] rm_out@[j])@) == devs[j].maps_out,
            decreases n - d,
        {
            rm_inc.push(copy_maps(&devices[d].maps_in));
            rm_out.push(copy_maps(&devices[d].maps_out));
            d += 1;
        }
        BgpGraph { n, g, rm_out, rm_inc }
    }

    /// The number of routers.
    pub closed spec fn size(&self) -> nat {
        self.n as nat
    }

    /// The edge from `a` to `b`.
    pub closed spec fn edge(&self, a: RouterId, b: RouterId) -> BgpEdge {
        self.g@[a * self.n + b]
    }

    /// The outgoing route maps of router `a`.
    pub closed spec fn maps_out(&self, a: RouterId) -> Seq<RouteMap> {
        self.rm_out@[a as int]@
    }

    /// The incoming route maps of router `a`.
    pub closed spec fn maps_in(&self, a: RouterId) -> Seq<RouteMap> {
        self.rm_inc@[a as int]@
    }

    /// The table has one edge per pair of routers and route maps for each router.
    pub closed spec fn wf(&self) -> bool {
        &&& self.g@.len() == self.n * self.n
        &&& self.rm_out@.len() == self.n
        &&& self.rm_inc@.len() == self.n
        &&& self.n <= u32::MAX
    }

    /// The graph of `n` routers with the edges `g`, row by row, and the route maps of each router.
    pub fn from_parts(n: usize, g: Vec<BgpEdge>, rm_out: Vec<Vec<RouteMap>>, rm_inc: Vec<Vec<RouteMap>>) -> (r: Self)
        requires
            g@.len() == n * n,
            rm_out@.len() == n,
            rm_inc@.len() == n,
            n <= u32::MAX,
        ensures
            r.wf(),
            r.size() == n,
            forall|a: RouterId, b: RouterId| a < n && b < n ==> #[trigger] r.edge(a, b) == g@[a * n + b],
            forall|a: RouterId| a < n ==> #[trigger] r.maps_out(a) == rm_out@[a as int]@,
            forall|a: RouterId| a < n ==> #[trigger] r.maps_in(a) == rm_inc@[a as int]@,
    {
        BgpGraph { n, g, rm_out, rm_inc }
    }

    /// What the route maps do to `route` on its way from `current` to `target`, where `current`
    /// learned it from `source`: first the outgoing route maps of `current` (where it is an
    /// internal router and has a source), then the incoming ones of `target` (where it is
    /// internal). Each entry carries the session type of its edge and the IGP cost that
    /// `igp` gives from the router to the route's next hop. A route map that denies gives `Deny`;
    /// a route that route maps matched and changed gives `Allow`, and otherwise `NoMatch`.
    pub open spec fn hop_outcome(
        &self,
        internal: Seq<bool>,
        igp: Seq<Seq<Option<LinkWeight>>>,
        source: Option<RouterId>,
        current: RouterId,
        target: RouterId,
        route: RouteView,
    ) -> ResultView {
        let nh = route.next_hop as int;
        let o1: Option<(bool, Option<EntryView>)> = match source {
            Some(s) => if internal[current as int] {
                Some(
                    maps_outcome(
                        self.maps_out(current),
                        EntryView {
                            route: route,
                            from_type: session_type_of(self.edge(current, s))->Some_0,
                            from_id: s,
                            to_id: Some(target),
                            igp_cost: igp[current as int][nh],
                        },
                    ),
                )
            } else {
                None
            },
            None => None,
        };
        if o1 matches Some((_, None)) {
            ResultView::Deny
        } else {
            let route1 = match o1 {
                Some((_, Some(e))) => e.route,
                _ => route,
            };
            let applied1 = match o1 {
                Some((b, _)) => b,
                None => false,
            };
            let o2: Option<(bool, Option<EntryView>)> = if internal[target as int] {
                Some(
                    maps_outcome(
                        self.maps_in(target),
                        EntryView {
                            route: route1,
                            from_type: session_type_of(self.edge(target, current))->Some_0,
                            from_id: current,
                            to_id: None,
                            igp_cost: igp[target as int][nh],
                        },
                    ),
                )
            } else {
                None
            };
            if o2 matches Some((_, None)) {
                ResultView::Deny
            } else {
                let route2 = match o2 {
                    Some((_, Some(e))) => e.route,
                    _ => route1,
                };
                let applied = applied1 || match o2 {
                    Some((b, _)) => b,
                    None => false,
                };
                if applied && route2 != route {
                    ResultView::Allow(route2)
                } else {
                    ResultView::NoMatch
                }
            }
        }
    }

    /// Applies the route maps on the way of `route` from `current` to `target`, where `current`
    /// learned it from `source`; see `hop_outcome`.
    pub fn apply_route_maps(
        &self,
        internal: &Vec<bool>,
        igp: &Vec<Vec<Option<LinkWeight>>>,
        source: Option<RouterId>,
        current: RouterId,
        target: RouterId,
        route: &BgpRoute,
    ) -> (r: RouteMapResult)
        requires
            self.wf(),
            internal@.len() == self.size(),
            igp@.len() == self.size(),
            current < self.size(),
            target < self.size(),
            source matches Some(s) ==> s < self.size(),
            source is Some && internal@[current as int] ==> session_type_of(self.edge(current, source->Some_0)) is Some
                && route.next_hop < igp@[current as int]@.len(),
            internal@[target as int] ==> session_type_of(self.edge(target, current)) is Some && route.next_hop
                < igp@[target as int]@.len(),
        ensures
            r@ == self.hop_outcome(internal@, igp@.map_values(|v: Vec<Option<LinkWeight>>| v@), source, current, target, route@),
    {
        let ghost igpv = igp@.map_values(|v: Vec<Option<LinkWeight>>| v@);
        let next_hop = route.next_hop;
        let mut rm_applied: bool = false;
        // apply the outgoing route map (if all checks are ok)
        let mut new_route = route.copy();
        match source {
            Some(s) => {
                if internal[current as usize] {
                    let _glen = self.g.len();
                    proof {
                        lemma_pair_index(current as int, s as int, self.n as int);
                    }
                    let idx = edge_idx(current, s, self.n);
                    let from_type = match self.g[idx].to_session_type() {
                        Some(t) => t,
                        None => {
                            proof {
                                assert(false);
                            }
                            BgpSessionType::EBgp
                        },
                    };
                    let entry = BgpRibEntry {
                        route: route.copy(),
                        from_type,
                        from_id: s,
                        to_id: Some(target),
                        igp_cost: igp[current as usize][next_hop as usize],
                    };
                    let (applied, out) = apply_route_maps(&self.rm_out[current as usize], entry);
                    match out {
                        Some(e) => {
                            new_route = e.route;
                            rm_applied = applied;
                        },
                        None => {
                            return RouteMapResult::Deny;
                        },
                    }
                }
            },
            None => {},
        }
        let ghost route1 = new_route@;
        let ghost applied1 = rm_applied;
        // check if the target is an internal router.
        if internal[target as usize] {
            let _glen = self.g.len();
            proof {
                lemma_pair_index(target as int, current as int, self.n as int);
            }
            let idx = edge_idx(target, current, self.n);
            let from_type = match self.g[idx].to_session_type() {
                Some(t) => t,
                None => {
                    proof {
                        assert(false);
                    }
                    BgpSessionType::EBgp
                },
            };
            let entry = BgpRibEntry {
                route: new_route,
                from_type,
                from_id: current,
                to_id: None,
                igp_cost: igp[target as usize][next_hop as usize],
            };
            let (applied, out) = apply_route_maps(&self.rm_inc[target as usize], entry);
            match out {
                Some(e) => {
                    new_route = e.route;
                    rm_applied = rm_applied || applied;
                },
                None => {
                    return RouteMapResult::Deny;
                },
            }
        }
        if rm_applied {
            if new_route.equals(route) {
                // the route has not changed: it is treated as if no route map had applied
                RouteMapResult::NoMatch
            } else {
                RouteMapResult::Allow(new_route)
            }
        } else {
            RouteMapResult::NoMatch
        }
    }
}

} // verus!
