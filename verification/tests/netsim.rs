use snowcap::hard_policies::transient_behavior::route_reachability_graph::{BgpEdge, BgpGraph, RouteMapResult};
use snowcap::netsim::bgp::{BgpRibEntry, BgpRoute};
use snowcap::netsim::config::{ConfigExpr, ConfigModifier};
use snowcap::netsim::network::Network;
use snowcap::netsim::route_map::{apply_route_maps, RouteMap, RouteMapBuilder, RouteMapDirection};
use snowcap::netsim::router::{Event, Router};
use snowcap::netsim::bgp::BgpEvent;
use snowcap::netsim::BgpSessionType::{EBgp, IBgpClient, IBgpPeer};
use snowcap::netsim::{AsId, BgpSessionType, ConfigError, DeviceError, LinkWeight, NetworkError, Prefix};

fn w(x: f32) -> LinkWeight {
    LinkWeight::from_bits(x.to_bits())
}

fn route(prefix: u32, next_hop: u32) -> BgpRoute {
    BgpRoute {
        prefix: Prefix(prefix),
        as_path: vec![AsId(65001)],
        next_hop,
        local_pref: None,
        med: None,
        community: None,
    }
}

fn entry(prefix: u32, from: u32, from_type: BgpSessionType) -> BgpRibEntry {
    BgpRibEntry { route: route(prefix, from), from_type, from_id: from, to_id: None, igp_cost: None }
}

#[test]
fn route_map_apply_match_deny_allow() {
    let deny = RouteMapBuilder::new().order(1).deny().match_prefix(Prefix(1)).build();
    let (matched, out) = deny.apply(entry(1, 5, EBgp));
    assert!(matched);
    assert!(out.is_none());
    let (matched, out) = deny.apply(entry(2, 5, EBgp));
    assert!(!matched);
    assert_eq!(out.unwrap().route, route(2, 5));

    let allow = RouteMapBuilder::new()
        .order(2)
        .allow()
        .match_neighbor(5)
        .set_local_pref(200)
        .reset_med()
        .set_community(7)
        .set_next_hop(9)
        .build();
    let (matched, out) = allow.apply(entry(2, 5, EBgp));
    assert!(matched);
    let e = out.unwrap();
    assert_eq!(e.route.local_pref, Some(200));
    assert_eq!(e.route.med, Some(0));
    assert_eq!(e.route.community, Some(7));
    assert_eq!(e.route.next_hop, 9);
    assert!(e.igp_cost.is_none());
    // a neighbor match looks at the peer the entry goes to, where there is one
    let mut out_entry = entry(2, 5, EBgp);
    out_entry.to_id = Some(6);
    assert!(!allow.matches(&out_entry));
}

#[test]
fn first_matching_route_map_decides() {
    let maps: Vec<RouteMap> = vec![
        RouteMapBuilder::new().order(1).allow().match_prefix(Prefix(3)).set_med(1).build(),
        RouteMapBuilder::new().order(2).allow().set_med(2).build(),
        RouteMapBuilder::new().order(3).deny().build(),
    ];
    let (matched, out) = apply_route_maps(&maps, entry(3, 1, IBgpPeer));
    assert!(matched);
    assert_eq!(out.unwrap().route.med, Some(1));
    let (matched, out) = apply_route_maps(&maps, entry(4, 1, IBgpPeer));
    assert!(matched);
    assert_eq!(out.unwrap().route.med, Some(2));
    let (matched, out) = apply_route_maps(&Vec::new(), entry(4, 1, IBgpPeer));
    assert!(!matched);
    assert_eq!(out.unwrap().route, route(4, 1));
}

#[test]
fn bgp_graph_route_maps_on_one_hop() {
    // routers 0 (internal) and 1 (internal), session 0 -> 1 is a peer session both ways
    let g = vec![BgpEdge::NoSession, BgpEdge::Over, BgpEdge::Over, BgpEdge::NoSession];
    let rm_out = vec![vec![RouteMapBuilder::new().order(1).allow().set_med(30).build()], Vec::new()];
    let rm_inc = vec![Vec::new(), vec![RouteMapBuilder::new().order(1).deny().match_prefix(Prefix(9)).build()]];
    let graph = BgpGraph::from_parts(2, g, rm_out, rm_inc);
    let internal = vec![true, true];
    let igp = vec![vec![Some(w(0.0)), Some(w(1.0))], vec![Some(w(1.0)), Some(w(0.0))]];
    let r = route(1, 0);
    match graph.apply_route_maps(&internal, &igp, Some(1), 0, 1, &r) {
        RouteMapResult::Allow(new_route) => assert_eq!(new_route.med, Some(30)),
        other => panic!("unexpected result {:?}", other),
    }
    // without a source, the outgoing maps are not applied
    assert!(matches!(graph.apply_route_maps(&internal, &igp, None, 0, 1, &r), RouteMapResult::NoMatch));
    // the incoming map of router 1 denies prefix 9
    assert!(matches!(graph.apply_route_maps(&internal, &igp, None, 0, 1, &route(9, 0)), RouteMapResult::Deny));
}

#[test]
fn router_sends_selected_route_to_peers() {
    // router 1 learned the route from an external peer 0, and has an iBGP peer 2 and a client 3
    let mut r = Router::new(1, vec![(0, EBgp), (2, IBgpPeer), (3, IBgpClient)], Vec::new());
    r.set_rib(Prefix(7), Some(entry(7, 0, EBgp)));
    let mut queue: Vec<(Event, usize)> = Vec::new();
    assert_eq!(r.run_bgp_route_dissemination_for_prefix(Prefix(7), &mut queue, 4), Ok(()));
    // not sent back to peer 0, but to 2 and 3
    assert_eq!(queue.len(), 2);
    match &queue[0] {
        (Event::Bgp(1, 2, BgpEvent::Update(rt)), 4) => assert_eq!(rt.prefix, Prefix(7)),
        other => panic!("unexpected event {:?}", other),
    }
    assert!(matches!(&queue[1], (Event::Bgp(1, 3, BgpEvent::Update(_)), 4)));
    assert_eq!(r.undo_frame_len(), 2);
    let t = &r.get_tables()[0];
    assert!(t.rib_out[0].is_none());
    assert!(t.rib_out[1].is_some());
    // nothing changed: a second run sends nothing
    let mut queue2: Vec<(Event, usize)> = Vec::new();
    assert_eq!(r.run_bgp_route_dissemination_for_prefix(Prefix(7), &mut queue2, 5), Ok(()));
    assert_eq!(queue2.len(), 0);
    // the route is gone: it is withdrawn from both peers
    r.set_rib(Prefix(7), None);
    let mut queue3: Vec<(Event, usize)> = Vec::new();
    assert_eq!(r.run_bgp_route_dissemination_for_prefix(Prefix(7), &mut queue3, 6), Ok(()));
    assert_eq!(queue3.len(), 2);
    assert!(matches!(&queue3[0], (Event::Bgp(1, 2, BgpEvent::Withdraw(Prefix(7))), 6)));
    assert_eq!(r.undo_frame_len(), 4);
}

#[test]
fn router_external_peer_gets_router_as_next_hop() {
    // a route from iBGP peer 2 goes to the external peer 0 with the router as next hop
    let mut r = Router::new(1, vec![(0, EBgp), (2, IBgpPeer)], Vec::new());
    let mut e = entry(7, 2, IBgpPeer);
    e.route.local_pref = Some(50);
    r.set_rib(Prefix(7), Some(e));
    let mut queue: Vec<(Event, usize)> = Vec::new();
    assert_eq!(r.run_bgp_route_dissemination_for_prefix(Prefix(7), &mut queue, 0), Ok(()));
    assert_eq!(queue.len(), 1);
    match &queue[0] {
        (Event::Bgp(1, 0, BgpEvent::Update(rt)), 0) => {
            assert_eq!(rt.next_hop, 1);
            assert_eq!(rt.local_pref, None);
        },
        other => panic!("unexpected event {:?}", other),
    }
}

#[test]
fn router_route_from_unknown_peer_is_an_error() {
    let mut r = Router::new(1, vec![(2, IBgpPeer)], Vec::new());
    r.set_rib(Prefix(7), Some(entry(7, 9, EBgp)));
    let mut queue: Vec<(Event, usize)> = Vec::new();
    assert_eq!(
        r.run_bgp_route_dissemination_for_prefix(Prefix(7), &mut queue, 0),
        Err(DeviceError::NoBgpSession(9))
    );
    assert_eq!(queue.len(), 0);
}

fn two_router_net() -> Network {
    let mut net = Network::new();
    assert_eq!(net.add_device(false), 0);
    assert_eq!(net.add_device(false), 1);
    assert_eq!(net.add_device(true), 2);
    net.add_link(0, 1);
    net.add_link(1, 2);
    net
}

#[test]
fn network_applies_and_undoes_link_weights() {
    let mut net = two_router_net();
    let e = ConfigExpr::IgpLinkWeight { source: 0, target: 1, weight: w(5.0) };
    assert_eq!(net.apply_modifier(&ConfigModifier::Insert(e.clone())), Ok(()));
    assert_eq!(net.get_links()[0].2.to_bits(), 5.0f32.to_bits());
    assert_eq!(net.get_config().len(), 1);
    // a second insert is refused by the configuration, and nothing changes
    let m = ConfigModifier::Insert(e.clone());
    assert_eq!(net.apply_modifier(&m), Err(NetworkError::ConfigError(ConfigError::ConfigModifierError(m.clone()))));
    assert_eq!(net.get_links()[0].2.to_bits(), 5.0f32.to_bits());
    // the refused modifier stays in the history: undoing it removes the expression
    assert_eq!(net.undo_action(), Ok(true));
    assert_eq!(net.get_config().len(), 0);
    assert_eq!(net.get_links()[0].2.to_bits(), f32::INFINITY.to_bits());
    // so undoing the first one finds nothing to remove
    assert!(matches!(net.undo_action(), Err(NetworkError::ConfigError(_))));
    assert_eq!(net.undo_action(), Ok(false));
}

#[test]
fn network_link_weight_needs_a_link() {
    let mut net = two_router_net();
    let e = ConfigExpr::IgpLinkWeight { source: 0, target: 2, weight: w(5.0) };
    assert_eq!(net.apply_modifier(&ConfigModifier::Insert(e)), Err(NetworkError::RoutersNotConnected(0, 2)));
}

#[test]
fn network_static_routes_and_route_maps() {
    let mut net = two_router_net();
    let s = ConfigExpr::StaticRoute { router: 0, prefix: Prefix(3), target: 1 };
    assert_eq!(net.apply_modifier(&ConfigModifier::Insert(s)), Ok(()));
    assert_eq!(net.get_devices()[0].static_routes, vec![(Prefix(3), 1)]);
    let s2 = ConfigExpr::StaticRoute { router: 2, prefix: Prefix(3), target: 1 };
    assert_eq!(net.apply_modifier(&ConfigModifier::Insert(s2)), Err(NetworkError::DeviceNotFound(2)));

    let m1 = RouteMapBuilder::new().order(20).allow().set_med(1).build();
    let m2 = RouteMapBuilder::new().order(10).deny().build();
    let x1 = ConfigExpr::BgpRouteMap { router: 1, direction: RouteMapDirection::Incoming, map: m1 };
    let x2 = ConfigExpr::BgpRouteMap { router: 1, direction: RouteMapDirection::Incoming, map: m2 };
    assert_eq!(net.apply_modifier(&ConfigModifier::Insert(x1)), Ok(()));
    assert_eq!(net.apply_modifier(&ConfigModifier::Insert(x2.clone())), Ok(()));
    // kept in their order
    let orders: Vec<usize> = net.get_devices()[1].maps_in.iter().map(|m| m.order()).collect();
    assert_eq!(orders, vec![10, 20]);
    assert_eq!(net.apply_modifier(&ConfigModifier::Remove(x2)), Ok(()));
    assert_eq!(net.get_devices()[1].maps_in.len(), 1);
}

#[test]
fn network_sessions_check_their_types() {
    let mut bad = two_router_net();
    let ebgp_internal = ConfigExpr::BgpSession { source: 0, target: 1, session_type: EBgp };
    assert_eq!(
        bad.apply_modifier(&ConfigModifier::Insert(ebgp_internal)),
        Err(NetworkError::InvalidBgpSessionType(0, 1, EBgp))
    );
    // the configuration took the modifier before the devices refused it
    assert_eq!(bad.get_config().len(), 1);
    assert_eq!(bad.get_devices()[0].sessions.len(), 0);
    let mut net = two_router_net();
    let client = ConfigExpr::BgpSession { source: 0, target: 1, session_type: IBgpClient };
    assert_eq!(net.apply_modifier(&ConfigModifier::Insert(client)), Ok(()));
    assert_eq!(net.get_devices()[0].sessions, vec![(1, IBgpClient)]);
    assert_eq!(net.get_devices()[1].sessions, vec![(0, IBgpPeer)]);
    let ext = ConfigExpr::BgpSession { source: 1, target: 2, session_type: EBgp };
    assert_eq!(net.apply_modifier(&ConfigModifier::Insert(ext)), Ok(()));
    assert_eq!(net.get_devices()[2].sessions, vec![(1, EBgp)]);
    // undo closes the external session again
    assert_eq!(net.undo_action(), Ok(true));
    assert_eq!(net.get_devices()[2].sessions.len(), 0);
    assert_eq!(net.get_devices()[1].sessions, vec![(0, IBgpPeer)]);
}

#[test]
fn network_new_is_empty_and_undo_restores_the_configuration() {
    let mut net = Network::new();
    assert_eq!(net.get_config().len(), 0);
    assert_eq!(net.get_links().len(), 0);
    let r1 = net.add_device(false);
    let r2 = net.add_device(false);
    // no link yet: a link weight cannot be set
    let m = ConfigModifier::Insert(ConfigExpr::IgpLinkWeight { source: r1, target: r2, weight: w(5.0) });
    assert_eq!(net.apply_modifier(&m), Err(NetworkError::RoutersNotConnected(r1, r2)));
    assert_eq!(net.get_links().len(), 0);
    let mut net = Network::new();
    let r1 = net.add_device(false);
    let r2 = net.add_device(false);
    net.add_link(r1, r2);
    let c0 = net.get_config().clone();
    assert_eq!(net.apply_modifier(&m), Ok(()));
    let m2 = ConfigModifier::Insert(ConfigExpr::IgpLinkWeight { source: r2, target: r1, weight: w(4.0) });
    assert_eq!(net.apply_modifier(&m2), Ok(()));
    assert_eq!(net.get_config().len(), 2);
    assert_eq!(net.undo_action(), Ok(true));
    assert_eq!(net.undo_action(), Ok(true));
    assert!(*net.get_config() == c0);
    assert_eq!(net.undo_action(), Ok(false));
}

#[test]
fn bgp_graph_of_route_reflector_network() {
    // rr reflects to r1, r2 and b4; r1 to b1 and b2; r2 to b3 and b4; each b_i has an external
    // peer e_i
    let mut net = Network::new();
    for _ in 0..7 {
        net.add_device(false);
    }
    for _ in 0..4 {
        net.add_device(true);
    }
    let (rr, r1, r2, b1, b2, b3, b4) = (0, 1, 2, 3, 4, 5, 6);
    let (e1, e2, e3, e4) = (7, 8, 9, 10);
    let clients = [(rr, r1), (rr, r2), (rr, b4), (r1, b1), (r1, b2), (r2, b3), (r2, b4)];
    for (s, t) in clients.iter() {
        let e = ConfigExpr::BgpSession { source: *s, target: *t, session_type: IBgpClient };
        assert_eq!(net.apply_modifier(&ConfigModifier::Insert(e)), Ok(()));
    }
    for (s, t) in [(b1, e1), (b2, e2), (b3, e3), (b4, e4)].iter() {
        let e = ConfigExpr::BgpSession { source: *s, target: *t, session_type: EBgp };
        assert_eq!(net.apply_modifier(&ConfigModifier::Insert(e)), Ok(()));
    }
    let bgp = BgpGraph::new(&net);
    assert_eq!(bgp.neighbors(rr), vec![(r1, BgpEdge::Down), (r2, BgpEdge::Down), (b4, BgpEdge::Down)]);
    assert_eq!(bgp.neighbors(r1), vec![(rr, BgpEdge::Up), (b1, BgpEdge::Down), (b2, BgpEdge::Down)]);
    assert_eq!(bgp.neighbors(r2), vec![(rr, BgpEdge::Up), (b3, BgpEdge::Down), (b4, BgpEdge::Down)]);
    assert_eq!(bgp.neighbors(b1), vec![(r1, BgpEdge::Up), (e1, BgpEdge::DownExternal)]);
    assert_eq!(bgp.neighbors(b2), vec![(r1, BgpEdge::Up), (e2, BgpEdge::DownExternal)]);
    assert_eq!(bgp.neighbors(b3), vec![(r2, BgpEdge::Up), (e3, BgpEdge::DownExternal)]);
    assert_eq!(
        bgp.neighbors(b4),
        vec![(rr, BgpEdge::Up), (r2, BgpEdge::Up), (e4, BgpEdge::DownExternal)]
    );
    assert_eq!(bgp.neighbors(e1), vec![(b1, BgpEdge::UpExternal)]);
    assert_eq!(bgp.neighbors(e2), vec![(b2, BgpEdge::UpExternal)]);
    assert_eq!(bgp.neighbors(e3), vec![(b3, BgpEdge::UpExternal)]);
    assert_eq!(bgp.neighbors(e4), vec![(b4, BgpEdge::UpExternal)]);
}

#[test]
fn bgp_graph_takes_route_maps_of_devices() {
    let mut net = Network::new();
    net.add_device(false);
    net.add_device(false);
    let e = ConfigExpr::BgpSession { source: 0, target: 1, session_type: IBgpPeer };
    assert_eq!(net.apply_modifier(&ConfigModifier::Insert(e)), Ok(()));
    let deny = RouteMapBuilder::new().order(1).deny().match_prefix(Prefix(9)).build();
    let m = ConfigExpr::BgpRouteMap { router: 1, direction: RouteMapDirection::Incoming, map: deny };
    assert_eq!(net.apply_modifier(&ConfigModifier::Insert(m)), Ok(()));
    let bgp = BgpGraph::new(&net);
    assert_eq!(bgp.neighbors(0), vec![(1, BgpEdge::Over)]);
    assert_eq!(bgp.neighbors(1), vec![(0, BgpEdge::Over)]);
    let internal = vec![true, true];
    let igp = vec![vec![Some(w(0.0)), Some(w(1.0))], vec![Some(w(1.0)), Some(w(0.0))]];
    assert!(matches!(bgp.apply_route_maps(&internal, &igp, None, 0, 1, &route(9, 0)), RouteMapResult::Deny));
    assert!(matches!(bgp.apply_route_maps(&internal, &igp, None, 0, 1, &route(8, 0)), RouteMapResult::NoMatch));
}
