use snowcap::hard_policies::transient_behavior::route_reachability_graph::{
    edge_idx, pop_hashmap, BgpEdge, BgpGraphNeighborIterator,
};
use std::collections::HashMap;
use snowcap::modifier_ordering::{ModifierOrdering, NoOrdering, Order, RandomOrdering, StdOrdering};
use snowcap::netsim::BgpSessionType;
use snowcap::permutators::sjt::Direction;
use snowcap::{get_idx, Stopper};

#[test]
fn bgp_edges_as_options_and_session_types() {
    assert_eq!(BgpEdge::NoSession.to_option(), None);
    assert_eq!(BgpEdge::Over.to_option(), Some(BgpEdge::Over));
    assert_eq!(BgpEdge::Up.to_session_type(), Some(BgpSessionType::IBgpPeer));
    assert_eq!(BgpEdge::Down.to_session_type(), Some(BgpSessionType::IBgpClient));
    assert_eq!(BgpEdge::DownExternal.to_session_type(), Some(BgpSessionType::EBgp));
    assert_eq!(BgpEdge::NoSession.to_session_type(), None);
    assert_eq!(BgpEdge::Over.over_to_down(), BgpEdge::Down);
    assert_eq!(BgpEdge::Up.over_to_down(), BgpEdge::Up);
    assert!(BgpEdge::Down.is_less(&BgpEdge::Over));
    assert!(!BgpEdge::Up.is_less(&BgpEdge::UpExternal));
}

#[test]
fn neighbor_iterator_skips_missing_sessions() {
    let row = vec![BgpEdge::NoSession, BgpEdge::Up, BgpEdge::NoSession, BgpEdge::Down];
    let mut it = BgpGraphNeighborIterator::new(&row);
    assert_eq!(it.next(), Some((1, BgpEdge::Up)));
    assert_eq!(it.next(), Some((3, BgpEdge::Down)));
    assert_eq!(it.next(), None);
    assert_eq!(edge_idx(2, 3, 5), 13);
}

#[test]
fn table_index() {
    assert_eq!(get_idx(2, 1, 4), 9);
    assert_eq!(get_idx(0, 3, 4), 3);
}

#[test]
fn stopper_tries_the_lock_on_every_ninth_call() {
    let mut s = Stopper::new();
    for _ in 0..8 {
        assert_eq!(s.try_is_stop(), None);
    }
    assert_eq!(s.try_is_stop(), Some(false));
    let other = s.clone();
    other.send_stop();
    assert!(s.is_stop());
    for _ in 0..8 {
        assert_eq!(s.try_is_stop(), None);
    }
    assert_eq!(s.try_is_stop(), Some(true));
}

#[test]
fn orderings_sort_their_items() {
    let mut v = vec![3u32, 1, 2];
    StdOrdering::<u32>::sort(&mut v);
    assert_eq!(v, vec![1, 2, 3]);
    let mut w = vec![3u32, 1, 2];
    NoOrdering::sort(&mut w);
    assert_eq!(w, vec![3, 1, 2]);
    assert_eq!(NoOrdering::order(&1u32, &2u32), Order::Equal);
    assert_eq!(StdOrdering::<u32>::order(&1, &2), Order::Less);
    let mut r = vec![5u32, 6, 7, 8];
    RandomOrdering::<u32>::sort(&mut r);
    r.sort();
    assert_eq!(r, vec![5, 6, 7, 8]);
}

#[test]
fn sjt_direction_towards() {
    assert_eq!(Direction::towards(2, 5), Direction::Right);
    assert_eq!(Direction::towards(5, 2), Direction::Left);
    assert_eq!(Direction::towards(3, 3), Direction::Still);
}

#[test]
fn pop_hashmap_empties_the_map() {
    let mut m: HashMap<u32, &str> = HashMap::new();
    m.insert(1, "a");
    m.insert(2, "b");
    let mut seen = Vec::new();
    while let Some((k, v)) = pop_hashmap(&mut m) {
        assert_eq!(v, if k == 1 { "a" } else { "b" });
        seen.push(k);
    }
    seen.sort();
    assert_eq!(seen, vec![1, 2]);
    assert!(m.is_empty());
    assert_eq!(pop_hashmap(&mut m), None);
}
