use snowcap::modifier_ordering::{ModifierOrdering, Order, SimpleOrdering};
use snowcap::netsim::config::{Config, ConfigExpr, ConfigExprKey, ConfigModifier, ConfigPatch};
use snowcap::netsim::route_map::{RouteMapBuilder, RouteMapDirection, RouteMapSet};
use snowcap::netsim::BgpSessionType::{EBgp, IBgpClient, IBgpPeer};
use snowcap::netsim::{ConfigError, LinkWeight, Prefix};

fn w(x: f32) -> LinkWeight {
    LinkWeight::from_bits(x.to_bits())
}

fn session(source: u32, target: u32, session_type: snowcap::netsim::BgpSessionType) -> ConfigExpr {
    ConfigExpr::BgpSession { source, target, session_type }
}

#[test]
fn config_documented_example() {
    let (r0, r1, r2, r3, r4) = (0, 1, 2, 3, 4);
    let mut c1 = Config::new();
    let mut c2 = Config::new();

    // add the same bgp expression
    c1.add(session(r0, r1, IBgpPeer)).unwrap();
    c2.add(session(r0, r1, IBgpPeer)).unwrap();
    // add one only to c1
    c1.add(session(r0, r2, IBgpPeer)).unwrap();
    // add one only to c2
    c2.add(session(r0, r3, IBgpPeer)).unwrap();
    // add one to both, but differently
    c1.add(session(r0, r4, IBgpPeer)).unwrap();
    c2.add(session(r0, r4, IBgpClient)).unwrap();

    let patch = c1.get_diff(&c2);
    assert_eq!(patch.modifiers.len(), 3);
    c1.apply_patch(&patch).unwrap();
    assert_eq!(c1, c2);
    assert_eq!(c2, c1);
}

#[test]
fn config_diff_order() {
    let mut c1 = Config::new();
    let mut c2 = Config::new();
    c1.add(session(0, 2, IBgpPeer)).unwrap();
    c1.add(session(0, 4, IBgpPeer)).unwrap();
    c2.add(session(0, 4, IBgpClient)).unwrap();
    c2.add(session(0, 3, IBgpPeer)).unwrap();
    let patch = c1.get_diff(&c2);
    assert_eq!(
        patch.modifiers,
        vec![
            ConfigModifier::Remove(session(0, 2, IBgpPeer)),
            ConfigModifier::Insert(session(0, 3, IBgpPeer)),
            ConfigModifier::Update { from: session(0, 4, IBgpPeer), to: session(0, 4, IBgpClient) },
        ]
    );
    assert_eq!(c1.get_diff(&c1.clone()).modifiers.len(), 0);
}

#[test]
fn config_add_overload() {
    let mut c = Config::new();
    assert!(c.is_empty());
    c.add(ConfigExpr::IgpLinkWeight { source: 0, target: 1, weight: w(1.0) }).unwrap();
    assert_eq!(
        c.add(ConfigExpr::IgpLinkWeight { source: 0, target: 1, weight: w(2.0) }),
        Err(ConfigError::ConfigExprOverload)
    );
    // the session key does not depend on the direction
    c.add(session(1, 0, EBgp)).unwrap();
    assert_eq!(c.add(session(0, 1, IBgpPeer)), Err(ConfigError::ConfigExprOverload));
    assert_eq!(c.len(), 2);
    assert!(!c.is_empty());
    assert_eq!(c.iter()[0], ConfigExpr::IgpLinkWeight { source: 0, target: 1, weight: w(1.0) });
}

#[test]
fn config_apply_modifier() {
    let mut c = Config::new();
    let e = ConfigExpr::StaticRoute { router: 0, prefix: Prefix(1), target: 2 };
    let f = ConfigExpr::StaticRoute { router: 0, prefix: Prefix(1), target: 3 };
    c.apply_modifier(&ConfigModifier::Insert(e.clone())).unwrap();
    // insert an existing key
    let m = ConfigModifier::Insert(f.clone());
    assert_eq!(c.apply_modifier(&m), Err(ConfigError::ConfigModifierError(m.clone())));
    // remove an expression that differs from the configured one
    let m = ConfigModifier::Remove(f.clone());
    assert_eq!(c.apply_modifier(&m), Err(ConfigError::ConfigModifierError(m.clone())));
    // update with two different keys
    let g = ConfigExpr::StaticRoute { router: 1, prefix: Prefix(1), target: 3 };
    let m = ConfigModifier::Update { from: e.clone(), to: g };
    assert_eq!(c.apply_modifier(&m), Err(ConfigError::ConfigModifierError(m.clone())));
    assert_eq!(c.iter(), &vec![e.clone()]);
    // update and remove
    c.apply_modifier(&ConfigModifier::Update { from: e.clone(), to: f.clone() }).unwrap();
    assert_eq!(c.iter(), &vec![f.clone()]);
    let m = ConfigModifier::Remove(e.clone());
    assert_eq!(c.apply_modifier(&m), Err(ConfigError::ConfigModifierError(m.clone())));
    c.apply_modifier(&ConfigModifier::Remove(f)).unwrap();
    assert!(c.is_empty());
    let m = ConfigModifier::Remove(e);
    assert_eq!(c.apply_modifier(&m), Err(ConfigError::ConfigModifierError(m.clone())));
}

#[test]
fn config_apply_patch_is_undone_on_error() {
    let mut c = Config::new();
    c.add(session(0, 1, EBgp)).unwrap();
    let mut patch = ConfigPatch::new();
    patch.add(ConfigModifier::Insert(session(0, 2, EBgp)));
    patch.add(ConfigModifier::Remove(session(0, 1, EBgp)));
    patch.add(ConfigModifier::Remove(session(0, 3, EBgp)));
    let bad = ConfigModifier::Remove(session(0, 3, EBgp));
    assert_eq!(c.apply_patch(&patch), Err(ConfigError::ConfigModifierError(bad)));
    assert_eq!(c.iter(), &vec![session(0, 1, EBgp)]);
    patch.modifiers.pop();
    c.apply_patch(&patch).unwrap();
    assert_eq!(c.iter(), &vec![session(0, 2, EBgp)]);
}

#[test]
fn config_modifier_reverse_undoes() {
    let mut c = Config::new();
    c.add(ConfigExpr::IgpLinkWeight { source: 0, target: 1, weight: w(1.0) }).unwrap();
    let before = c.clone();
    let m = ConfigModifier::Update {
        from: ConfigExpr::IgpLinkWeight { source: 0, target: 1, weight: w(1.0) },
        to: ConfigExpr::IgpLinkWeight { source: 0, target: 1, weight: w(0.5) },
    };
    c.apply_modifier(&m).unwrap();
    assert_ne!(c, before);
    c.apply_modifier(&m.reverse()).unwrap();
    assert_eq!(c, before);
    let i = ConfigModifier::Insert(session(0, 1, EBgp));
    assert_eq!(i.clone().reverse(), ConfigModifier::Remove(session(0, 1, EBgp)));
    assert_eq!(i.clone().reverse().reverse(), i);
}

#[test]
fn config_keys_and_routers() {
    assert_eq!(session(3, 1, EBgp).key(), ConfigExprKey::BgpSession { speaker_a: 1, speaker_b: 3 });
    assert_eq!(session(1, 3, EBgp).key(), ConfigExprKey::BgpSession { speaker_a: 1, speaker_b: 3 });
    assert_eq!(session(3, 1, EBgp).routers(), vec![3, 1]);
    let map = RouteMapBuilder::new().order(7).allow().build();
    let e = ConfigExpr::BgpRouteMap { router: 2, direction: RouteMapDirection::Incoming, map };
    assert_eq!(
        e.key(),
        ConfigExprKey::BgpRouteMap { router: 2, direction: RouteMapDirection::Incoming, order: 7 }
    );
    assert_eq!(e.routers(), vec![2]);
    let m = ConfigModifier::Update { from: session(0, 1, EBgp), to: session(1, 2, EBgp) };
    assert_eq!(m.key(), ConfigExprKey::BgpSession { speaker_a: 1, speaker_b: 2 });
    assert_eq!(m.routers(), vec![1, 2]);
}

#[test]
fn link_weights_compare_as_numbers() {
    assert_eq!(w(0.0), w(-0.0));
    assert_ne!(w(f32::NAN), w(f32::NAN));
    assert!(w(f32::NAN).is_nan());
    assert!(!w(f32::INFINITY).is_nan());
    assert_eq!(w(1.0).compare(&w(2.0)), Some(Order::Less));
    assert_eq!(w(-1.0).compare(&w(-2.0)), Some(Order::Greater));
    assert_eq!(w(-1.0).compare(&w(0.5)), Some(Order::Less));
    assert_eq!(w(0.0).compare(&w(-0.0)), Some(Order::Equal));
    assert_eq!(w(f32::INFINITY).compare(&w(1e30)), Some(Order::Greater));
    assert_eq!(w(f32::NAN).compare(&w(1.0)), None);
    assert_eq!(w(3.5).to_bits(), 3.5f32.to_bits());
}

#[test]
fn nan_weights_cannot_be_removed() {
    let mut c = Config::new();
    let e = ConfigExpr::IgpLinkWeight { source: 0, target: 1, weight: w(f32::NAN) };
    c.add(e.clone()).unwrap();
    let m = ConfigModifier::Remove(e);
    assert!(matches!(c.apply_modifier(&m), Err(ConfigError::ConfigModifierError(_))));
    assert_eq!(c.len(), 1);
    // the error holds the modifier, which is not equal to itself
    assert_ne!(m, m.clone());
}

#[test]
fn route_map_igp_cost() {
    let a = RouteMapBuilder::new().order(1).allow().set_igp_cost(w(2.0)).build();
    let b = RouteMapBuilder::new().order(1).allow().set_igp_cost(w(2.0)).build();
    assert_eq!(a.actions(), &vec![RouteMapSet::IgpCost(w(2.0))]);
    assert_eq!(a, b);
    assert_eq!(a.clone(), b);
    let c = RouteMapBuilder::new().order(1).allow().set_igp_cost(w(3.0)).build();
    assert_ne!(a, c);
}

#[test]
fn test_sort() {
    let p1 = ConfigModifier::Insert(session(1, 1, EBgp));
    let p2 = ConfigModifier::Insert(session(2, 2, EBgp));
    let p3 = ConfigModifier::Insert(session(3, 3, EBgp));
    let mut data = vec![p3.clone(), p2.clone(), p1.clone()];
    SimpleOrdering::sort(&mut data);
    assert_eq![data, vec![p1, p2, p3]];
}

#[test]
fn simple_ordering_of_modifiers() {
    let ins = ConfigModifier::Insert(session(5, 6, IBgpPeer));
    let upd = ConfigModifier::Update { from: session(0, 1, EBgp), to: session(0, 1, IBgpPeer) };
    let rem = ConfigModifier::Remove(session(0, 1, EBgp));
    assert_eq!(SimpleOrdering::order(&ins, &upd), Order::Less);
    assert_eq!(SimpleOrdering::order(&rem, &upd), Order::Greater);
    let stat = ConfigModifier::Insert(ConfigExpr::StaticRoute { router: 9, prefix: Prefix(9), target: 9 });
    let link = ConfigModifier::Insert(ConfigExpr::IgpLinkWeight { source: 0, target: 0, weight: w(1.0) });
    assert_eq!(SimpleOrdering::order(&stat, &link), Order::Less);
    assert_eq!(SimpleOrdering::order(&link, &ins), Order::Less);
    let ebgp = ConfigModifier::Insert(session(9, 9, EBgp));
    let client = ConfigModifier::Insert(session(0, 0, IBgpClient));
    assert_eq!(SimpleOrdering::order(&ebgp, &client), Order::Less);
    assert_eq!(SimpleOrdering::order(&client, &ins), Order::Less);
    let light = ConfigModifier::Insert(ConfigExpr::IgpLinkWeight { source: 5, target: 0, weight: w(0.5) });
    assert_eq!(SimpleOrdering::order(&light, &link), Order::Less);
    let nan = ConfigModifier::Insert(ConfigExpr::IgpLinkWeight { source: 0, target: 1, weight: w(f32::NAN) });
    assert_eq!(SimpleOrdering::order(&link, &nan), Order::Less);
    assert_eq!(SimpleOrdering::order(&ins, &ins.clone()), Order::Equal);
}

#[test]
fn update_needs_only_the_key_of_from() {
    let mut c = Config::new();
    c.add(ConfigExpr::IgpLinkWeight { source: 0, target: 1, weight: w(1.0) }).unwrap();
    let from = ConfigExpr::IgpLinkWeight { source: 0, target: 1, weight: w(2.0) };
    let to = ConfigExpr::IgpLinkWeight { source: 0, target: 1, weight: w(3.0) };
    assert_eq!(c.apply_modifier(&ConfigModifier::Update { from, to: to.clone() }), Ok(()));
    assert_eq!(c.iter(), &vec![to]);
    assert_eq!(c.iter()[0].key(), ConfigExprKey::IgpLinkWeight { source: 0, target: 1 });
}

#[test]
fn config_equality_is_symmetric() {
    let empty = Config::new();
    let mut c = Config::new();
    c.add(session(0, 1, EBgp)).unwrap();
    assert_ne!(empty, c);
    assert_ne!(c, empty);
    let mut d = Config::new();
    d.add(session(0, 1, EBgp)).unwrap();
    assert_eq!(c, d);
    assert_eq!(d, c);
    d.add(session(0, 2, EBgp)).unwrap();
    assert_ne!(c, d);
    assert_ne!(d, c);
}
