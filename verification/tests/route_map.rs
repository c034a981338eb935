use snowcap::netsim::route_map::{
    RouteMapBuilder, RouteMapDirection, RouteMapMatch, RouteMapMatchAsPath, RouteMapMatchClause,
    RouteMapSet, RouteMapState,
};
use snowcap::netsim::{AsId, Prefix};

#[test]
fn builder_documented_example() {
    let neighbor = 0;
    let prefix = Prefix(0);
    let map = RouteMapBuilder::new()
        .order(10)
        .allow()
        .match_neighbor(neighbor)
        .match_prefix(prefix)
        .set_community(1)
        .reset_local_pref()
        .build();
    assert_eq!(map.order(), 10);
    assert_eq!(map.state(), RouteMapState::Allow);
    assert_eq!(
        map.conds(),
        &vec![
            RouteMapMatch::Neighbor(0),
            RouteMapMatch::Prefix(RouteMapMatchClause::Equal(Prefix(0)))
        ]
    );
    assert_eq!(map.actions(), &vec![RouteMapSet::Community(Some(1)), RouteMapSet::LocalPref(None)]);
    assert_eq!(map.match_neighbor(), Some(0));
}

#[test]
fn denying_route_map_has_no_actions() {
    let map = RouteMapBuilder::new().order(3).deny().match_next_hop(4).set_med(5).build();
    assert!(map.state().is_deny());
    assert!(map.actions().is_empty());
    assert_eq!(map.match_neighbor(), None);
}

#[test]
fn as_path_clauses() {
    let path = vec![AsId(1), AsId(7), AsId(3)];
    assert!(RouteMapMatchAsPath::Contains(AsId(7)).matches(&path));
    assert!(!RouteMapMatchAsPath::Contains(AsId(8)).matches(&path));
    assert!(RouteMapMatchAsPath::Length(RouteMapMatchClause::Range(1, 3)).matches(&path));
    assert!(!RouteMapMatchAsPath::Length(RouteMapMatchClause::RangeExclusive(1, 3)).matches(&path));
    assert!(RouteMapMatchAsPath::Length(RouteMapMatchClause::Equal(3)).matches(&path));
}

#[test]
fn match_clauses_on_values() {
    assert!(RouteMapMatchClause::Range(2, 5).matches(&5));
    assert!(!RouteMapMatchClause::RangeExclusive(2, 5).matches(&5));
    assert!(RouteMapMatchClause::Equal(Prefix(3)).matches(&Prefix(3)));
    assert!(RouteMapState::Allow.is_allow());
    assert_ne!(RouteMapDirection::Incoming, RouteMapDirection::Outgoing);
}

#[test]
fn clauses_are_written_as_strings() {
    assert_eq!(RouteMapMatchClause::Range(Prefix(1), Prefix(20)).repr(), "in (1..20)");
    assert_eq!(RouteMapMatchClause::RangeExclusive(Prefix(3), Prefix(4)).repr(), "in (3..4])");
    assert_eq!(RouteMapMatchClause::Equal(Prefix(7)).repr(), "== 7");
    assert_eq!(RouteMapMatchClause::Equal(100u32).repr(), "== 100");
    assert_eq!(RouteMapMatchClause::Range(0usize, 5usize).repr(), "in (0..5)");
    assert_eq!(RouteMapMatchAsPath::Contains(AsId(65)).repr(), "65 in AsPath");
    assert_eq!(RouteMapMatchAsPath::Length(RouteMapMatchClause::Equal(3)).repr(), "len(AsPath) == 3");
}
