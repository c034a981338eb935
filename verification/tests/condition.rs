use rand::seq::SliceRandom;
use rand::RngCore;
use snowcap::hard_policies::PathCondition::{And, Edge, Node, Or, Positional};
use snowcap::hard_policies::Waypoint::{Any, Fix, Star};
use snowcap::hard_policies::{prepare_loop_path, Condition, PathCondition, PathConditionCNF, PolicyError};
use snowcap::netsim::{NetworkError, Prefix, RouterId};

#[test]
fn path_condition_node() {
    let c = Node(0);
    assert!(c.check(&vec![1, 0, 2], Prefix(0)).is_ok());
    assert!(c.check(&vec![0], Prefix(0)).is_ok());
    assert!(c.check(&vec![2, 1], Prefix(0)).is_err());
    assert!(c.check(&vec![], Prefix(0)).is_err());
}

#[test]
fn path_condition_edge() {
    let c = Edge(0, 1);
    assert!(c.check(&vec![2, 0, 1, 3], Prefix(0)).is_ok());
    assert!(c.check(&vec![0, 1], Prefix(0)).is_ok());
    assert!(c.check(&vec![1, 0], Prefix(0)).is_err());
    assert!(c.check(&vec![0, 2, 1], Prefix(0)).is_err());
    assert!(c.check(&vec![0], Prefix(0)).is_err());
    assert!(c.check(&vec![1], Prefix(0)).is_err());
}

#[test]
fn path_condition_not() {
    let c = PathCondition::Not(Box::new(Node(0)));
    assert!(c.check(&vec![1, 0, 2], Prefix(0)).is_err());
    assert!(c.check(&vec![0], Prefix(0)).is_err());
    assert!(c.check(&vec![2, 1], Prefix(0)).is_ok());
    assert!(c.check(&vec![], Prefix(0)).is_ok());
}

#[test]
fn path_condition_or() {
    let c = Or(vec![Node(0), Node(1)]);
    assert!(c.check(&vec![0, 2, 1], Prefix(0)).is_ok());
    assert!(c.check(&vec![2, 1], Prefix(0)).is_ok());
    assert!(c.check(&vec![0, 2], Prefix(0)).is_ok());
    assert!(c.check(&vec![3, 2], Prefix(0)).is_err());
    assert!(c.check(&vec![], Prefix(0)).is_err());
    let c = Or(vec![]);
    assert!(c.check(&vec![0, 2, 1], Prefix(0)).is_err());
    assert!(c.check(&vec![], Prefix(0)).is_err());
}

#[test]
fn path_condition_and() {
    let c = And(vec![Node(0), Node(1)]);
    assert!(c.check(&vec![0, 2, 1], Prefix(0)).is_ok());
    assert!(c.check(&vec![2, 1], Prefix(0)).is_err());
    assert!(c.check(&vec![0, 2], Prefix(0)).is_err());
    assert!(c.check(&vec![3, 2], Prefix(0)).is_err());
    assert!(c.check(&vec![], Prefix(0)).is_err());
    let c = And(vec![]);
    assert!(c.check(&vec![0, 2, 1], Prefix(0)).is_ok());
    assert!(c.check(&vec![], Prefix(0)).is_ok());
}

fn test_cnf_equivalence(c: PathCondition, n: usize, num_devices: usize) {
    let c_cnf: PathConditionCNF = c.clone().into_cnf();
    let c_rev: PathCondition = c_cnf.clone().into_condition();
    let mut rng = rand::thread_rng();
    for _ in 0..n {
        let mut path: Vec<RouterId> = (0..num_devices).map(|x| x as u32).collect();
        path.shuffle(&mut rng);
        let path: Vec<RouterId> = path.into_iter().take(rng.next_u32() as usize).collect();
        assert_eq!(c.check(&path, Prefix(0)).is_ok(), c_cnf.check(&path, Prefix(0)).is_ok());
        assert_eq!(c.check(&path, Prefix(0)).is_ok(), c_rev.check(&path, Prefix(0)).is_ok());
    }
}

#[test]
fn path_condition_to_cnf_simple() {
    let r0: RouterId = 0;
    let r1: RouterId = 1;
    test_cnf_equivalence(Node(r0), 1000, 10);
    test_cnf_equivalence(Edge(r0, r1), 1000, 10);
    test_cnf_equivalence(PathCondition::Not(Box::new(Node(r0))), 1000, 10);
    test_cnf_equivalence(And(vec![Node(r0), Node(r1)]), 1000, 10);
    test_cnf_equivalence(Or(vec![Node(r0), Node(r1)]), 1000, 10);
}

#[test]
fn path_condition_to_cnf_complex() {
    let r0: RouterId = 0;
    let r1: RouterId = 1;
    let r2: RouterId = 2;
    test_cnf_equivalence(And(vec![PathCondition::Not(Box::new(Node(r0))), PathCondition::Not(Box::new(Node(r1)))]), 1000, 10);
    test_cnf_equivalence(Or(vec![PathCondition::Not(Box::new(Node(r0))), PathCondition::Not(Box::new(Node(r1)))]), 1000, 10);
    test_cnf_equivalence(
        Or(vec![
            And(vec![Node(r0), Node(r1)]),
            And(vec![Edge(r0, r1), Node(r2)]),
            PathCondition::Not(Box::new(Node(r2))),
        ]),
        1000,
        10,
    );
    test_cnf_equivalence(
        Or(vec![
            And(vec![Node(r0), Node(r1)]),
            And(vec![PathCondition::Not(Box::new(Edge(r0, r1))), Node(r2)]),
            PathCondition::Not(Box::new(Node(r2))),
        ]),
        1000,
        10,
    );
    test_cnf_equivalence(
        Or(vec![
            And(vec![Node(r0), Or(vec![Node(r2), PathCondition::Not(Box::new(Edge(r0, r1)))])]),
            And(vec![PathCondition::Not(Box::new(Edge(r0, r1))), Node(r2)]),
            PathCondition::Not(Box::new(Node(r2))),
        ]),
        1000,
        10,
    );
    test_cnf_equivalence(
        PathCondition::Not(Box::new(Or(vec![
            And(vec![Node(r0), Or(vec![Node(r2), PathCondition::Not(Box::new(Edge(r0, r1)))])]),
            And(vec![PathCondition::Not(Box::new(Edge(r0, r1))), Node(r2)]),
            PathCondition::Not(Box::new(Node(r2))),
        ]))),
        1000,
        10,
    );
}

#[test]
fn path_positional_single_any() {
    let c = Positional(vec![Any]);
    assert!(c.check(&vec![0], Prefix(0)).is_ok());
    assert!(c.check(&vec![1], Prefix(0)).is_ok());
    assert!(c.check(&vec![], Prefix(0)).is_err());
    assert!(c.check(&vec![0, 1], Prefix(0)).is_err());
}

#[test]
fn path_positional_single_star() {
    let c = Positional(vec![Star]);
    assert!(c.check(&vec![], Prefix(0)).is_ok());
    assert!(c.check(&vec![0], Prefix(0)).is_ok());
    assert!(c.check(&vec![0, 1], Prefix(0)).is_ok());
    assert!(c.check(&vec![0, 1, 2], Prefix(0)).is_ok());
}

#[test]
fn path_positional_single_fix() {
    let c = Positional(vec![Fix(0)]);
    assert!(c.check(&vec![0], Prefix(0)).is_ok());
    assert!(c.check(&vec![1], Prefix(0)).is_err());
    assert!(c.check(&vec![], Prefix(0)).is_err());
    assert!(c.check(&vec![0, 1], Prefix(0)).is_err());
}

#[test]
fn path_positional_star_any() {
    let c = Positional(vec![Star, Any]);
    assert!(c.check(&vec![], Prefix(0)).is_err());
    assert!(c.check(&vec![0], Prefix(0)).is_ok());
    assert!(c.check(&vec![0, 1], Prefix(0)).is_ok());
    assert!(c.check(&vec![0, 1, 2], Prefix(0)).is_ok());
    let c = Positional(vec![Any, Star]);
    assert!(c.check(&vec![], Prefix(0)).is_err());
    assert!(c.check(&vec![0], Prefix(0)).is_ok());
    assert!(c.check(&vec![0, 1], Prefix(0)).is_ok());
    assert!(c.check(&vec![0, 1, 2], Prefix(0)).is_ok());
}

#[test]
fn path_positional_star_star() {
    let c = Positional(vec![Star, Star]);
    assert!(c.check(&vec![], Prefix(0)).is_ok());
    assert!(c.check(&vec![0], Prefix(0)).is_ok());
    assert!(c.check(&vec![0, 1], Prefix(0)).is_ok());
    assert!(c.check(&vec![0, 1, 2], Prefix(0)).is_ok());
}

#[test]
fn path_positional_any_any() {
    let c = Positional(vec![Any, Any]);
    assert!(c.check(&vec![], Prefix(0)).is_err());
    assert!(c.check(&vec![0], Prefix(0)).is_err());
    assert!(c.check(&vec![0, 1], Prefix(0)).is_ok());
    assert!(c.check(&vec![0, 1, 2], Prefix(0)).is_err());
}

#[test]
fn path_positional_star_fix() {
    let c = Positional(vec![Star, Fix(0)]);
    assert!(c.check(&vec![], Prefix(0)).is_err());
    assert!(c.check(&vec![0], Prefix(0)).is_ok());
    assert!(c.check(&vec![1, 0], Prefix(0)).is_ok());
    assert!(c.check(&vec![2, 1, 0], Prefix(0)).is_ok());
    assert!(c.check(&vec![2, 1, 0, 3], Prefix(0)).is_err());
    assert!(c.check(&vec![2, 1, 3], Prefix(0)).is_err());
}

#[test]
fn path_positional_fix_star() {
    let c = Positional(vec![Fix(0), Star]);
    assert!(c.check(&vec![], Prefix(0)).is_err());
    assert!(c.check(&vec![0], Prefix(0)).is_ok());
    assert!(c.check(&vec![0, 1], Prefix(0)).is_ok());
    assert!(c.check(&vec![0, 1, 2], Prefix(0)).is_ok());
    assert!(c.check(&vec![3, 0, 1, 2], Prefix(0)).is_err());
    assert!(c.check(&vec![3, 1, 2], Prefix(0)).is_err());
}

#[test]
fn path_positional_star_fix_star() {
    let c = Positional(vec![Star, Fix(0), Star]);
    assert!(c.check(&vec![], Prefix(0)).is_err());
    assert!(c.check(&vec![0], Prefix(0)).is_ok());
    assert!(c.check(&vec![0, 1], Prefix(0)).is_ok());
    assert!(c.check(&vec![0, 1, 2], Prefix(0)).is_ok());
    assert!(c.check(&vec![3, 0, 1, 2], Prefix(0)).is_ok());
    assert!(c
        .check(&vec![3, 4, 0, 1, 2], Prefix(0))
        .is_ok());
    assert!(c.check(&vec![3, 1, 2], Prefix(0)).is_err());
}

#[test]
fn path_positional_star_fix_fix_star() {
    let c = Positional(vec![Star, Fix(0), Fix(1), Star]);
    assert!(c.check(&vec![], Prefix(0)).is_err());
    assert!(c.check(&vec![0], Prefix(0)).is_err());
    assert!(c.check(&vec![0, 1], Prefix(0)).is_ok());
    assert!(c.check(&vec![0, 1, 2], Prefix(0)).is_ok());
    assert!(c.check(&vec![3, 0, 1, 2], Prefix(0)).is_ok());
    assert!(c
        .check(&vec![3, 4, 0, 1, 2], Prefix(0))
        .is_ok());
    assert!(c.check(&vec![3, 1, 2], Prefix(0)).is_err());
    assert!(c.check(&vec![3, 0, 2, 1], Prefix(0)).is_err());
    assert!(c.check(&vec![3, 2, 1], Prefix(0)).is_err());
}

#[test]
fn path_positional_star_fix_any_fix_star() {
    let c = Positional(vec![Star, Fix(0), Any, Fix(1), Star]);
    assert!(c.check(&vec![], Prefix(0)).is_err());
    assert!(c.check(&vec![0], Prefix(0)).is_err());
    assert!(c.check(&vec![0, 1], Prefix(0)).is_err());
    assert!(c.check(&vec![0, 1, 2], Prefix(0)).is_err());
    assert!(c.check(&vec![3, 0, 1, 2], Prefix(0)).is_err());
    assert!(c
        .check(&vec![3, 4, 0, 1, 2], Prefix(0))
        .is_err());
    assert!(c.check(&vec![3, 1, 2], Prefix(0)).is_err());
    assert!(c.check(&vec![3, 0, 2, 1], Prefix(0)).is_ok());
    assert!(c
        .check(&vec![3, 0, 2, 1, 3], Prefix(0))
        .is_ok());
    assert!(c
        .check(&vec![3, 0, 2, 3, 1], Prefix(0))
        .is_err());
    assert!(c.check(&vec![3, 2, 1], Prefix(0)).is_err());
}

#[test]
fn path_positional_star_fix_star_fix_star() {
    let c = Positional(vec![Star, Fix(0), Star, Fix(1), Star]);
    assert!(c.check(&vec![], Prefix(0)).is_err());
    assert!(c.check(&vec![0], Prefix(0)).is_err());
    assert!(c.check(&vec![0, 1], Prefix(0)).is_ok());
    assert!(c.check(&vec![0, 1, 2], Prefix(0)).is_ok());
    assert!(c.check(&vec![3, 0, 1, 2], Prefix(0)).is_ok());
    assert!(c
        .check(&vec![3, 4, 0, 1, 2], Prefix(0))
        .is_ok());
    assert!(c.check(&vec![3, 1, 2], Prefix(0)).is_err());
    assert!(c.check(&vec![3, 0, 2, 1], Prefix(0)).is_ok());
    assert!(c
        .check(&vec![3, 0, 2, 1, 3], Prefix(0))
        .is_ok());
    assert!(c
        .check(&vec![3, 0, 2, 3, 1], Prefix(0))
        .is_ok());
    assert!(c.check(&vec![3, 2, 1], Prefix(0)).is_err());
    assert!(c.check(&vec![3, 2, 1, 0], Prefix(0)).is_err());
}

#[test]
fn positional_star_matches_later_occurrence() {
    // `Star` stands for any sequence, so the fixed routers may follow a later visit of router 0.
    let c = Positional(vec![Star, Fix(0), Fix(1)]);
    assert!(c.check(&vec![0, 2, 0, 1], Prefix(0)).is_ok());
    assert!(c.check(&vec![0, 2, 0, 2], Prefix(0)).is_err());
}

#[test]
fn path_condition_error_names_path_and_prefix() {
    let c = Node(4);
    match c.check(&vec![1, 2], Prefix(7)) {
        Err(PolicyError::PathCondition { path, condition, prefix }) => {
            assert_eq!(path, vec![1, 2]);
            assert_eq!(condition, Node(4));
            assert_eq!(prefix, Prefix(7));
        }
        _ => panic!("expected a path condition error"),
    }
}

#[test]
fn cnf_flags_positional_conditions() {
    let plain = Or(vec![Node(0), PathCondition::Not(Box::new(Edge(0, 1)))]).into_cnf();
    assert!(plain.is_cnf());
    let positional = Or(vec![Node(0), Positional(vec![Star, Fix(1)])]).into_cnf();
    assert!(!positional.is_cnf());
}

#[test]
fn cnf_of_or_joins_groups() {
    // (0 & 1) | 2 becomes (0 | 2) & (1 | 2)
    let cnf = Or(vec![And(vec![Node(0), Node(1)]), Node(2)]).into_cnf();
    assert_eq!(cnf.e.len(), 2);
    assert_eq!(cnf.e[0].0, vec![Node(0), Node(2)]);
    assert_eq!(cnf.e[1].0, vec![Node(1), Node(2)]);
    assert!(cnf.check(&vec![2], Prefix(0)).is_ok());
    assert!(cnf.check(&vec![0], Prefix(0)).is_err());
    let back = cnf.into_condition();
    assert!(back.check(&vec![0, 1], Prefix(0)).is_ok());
    assert!(back.check(&vec![1], Prefix(0)).is_err());
}

#[test]
fn cnf_check_error_holds_the_formula_as_condition() {
    let cnf = PathConditionCNF::new(vec![(vec![Node(0)], vec![Node(1)])]);
    match cnf.check(&vec![1, 2], Prefix(3)) {
        Err(PolicyError::PathCondition { path, condition, prefix }) => {
            assert_eq!(path, vec![1, 2]);
            assert_eq!(condition, And(vec![Or(vec![PathCondition::Not(Box::new(Node(1))), Node(0)])]));
            assert_eq!(prefix, Prefix(3));
        }
        _ => panic!("expected a path condition error"),
    }
}

#[test]
fn prepare_loop_path_rotates_to_smallest() {
    assert_eq!(prepare_loop_path(vec![0, 5, 3, 4, 5]), vec![3, 4, 5]);
    assert_eq!(prepare_loop_path(vec![0, 7, 9, 5, 8, 7]), vec![5, 8, 7, 9]);
    assert_eq!(prepare_loop_path(vec![2, 2]), vec![2]);
}

#[test]
fn condition_reachable_outcomes() {
    let c = Condition::Reachable(0, Prefix(1), Some(Node(2)));
    assert_eq!(c.check(Ok(vec![0, 2, 3])), Ok(()));
    assert!(matches!(c.check(Ok(vec![0, 3])), Err(PolicyError::PathCondition { .. })));
    assert_eq!(
        c.check(Err(NetworkError::ForwardingLoop(vec![0, 4, 3, 4]))),
        Err(PolicyError::ForwardingLoop { path: vec![3, 4], prefix: Prefix(1) })
    );
    assert_eq!(
        c.check(Err(NetworkError::ForwardingBlackHole(vec![0, 6]))),
        Err(PolicyError::BlackHole { router: 6, prefix: Prefix(1) })
    );
    let c = Condition::Reachable(0, Prefix(1), None);
    assert_eq!(c.check(Ok(vec![0, 3])), Ok(()));
}

#[test]
fn condition_not_reachable_outcomes() {
    let c = Condition::NotReachable(0, Prefix(1));
    assert_eq!(
        c.check(Ok(vec![0, 3])),
        Err(PolicyError::UnallowedPathExists { router: 0, prefix: Prefix(1), path: vec![0, 3] })
    );
    assert_eq!(c.check(Err(NetworkError::ForwardingBlackHole(vec![0]))), Ok(()));
    assert_eq!(c.check(Err(NetworkError::ForwardingLoop(vec![0, 1, 0]))), Ok(()));
}

#[test]
fn condition_accessors() {
    let c = Condition::Reliable(3, Prefix(4), None);
    assert!(c.is_reliability());
    assert!(!c.is_transient());
    assert_eq!(c.router_id(), 3);
    assert_eq!(c.prefix(), Prefix(4));
    assert_eq!(c.check(Ok(vec![])), Ok(()));
    let t = Condition::TransientPath(5, Prefix(6), Node(1));
    assert!(t.is_transient());
    assert!(!t.is_reliability());
    assert_eq!(t.router_id(), 5);
    assert_eq!(t.prefix(), Prefix(6));
}

#[test]
fn conditions_are_written_as_strings() {
    let c = And(vec![Node(0), PathCondition::Not(Box::new(Edge(1, 12)))]);
    assert_eq!(c.repr(), "(r0 && ![r1 -> r12])");
    assert_eq!(Or(vec![Node(3), Node(4)]).repr(), "(r3 || r4)");
    assert_eq!(And(vec![]).repr(), "(true)");
    assert_eq!(Or(vec![]).repr(), "(false)");
    assert_eq!(Positional(vec![Star, Fix(1), Any]).repr(), "[... -> r1 -> ?]");
    assert_eq!(Positional(vec![]).repr(), "[]");
    assert_eq!(Fix(7).repr(), "r7");
    assert_eq!(
        Condition::Reachable(3, Prefix(10), Some(Node(1))).repr(),
        "Reachability(r3, prefix 10, condition r1)"
    );
    assert_eq!(Condition::Reachable(3, Prefix(10), None).repr(), "Reachability(r3, prefix 10)");
    assert_eq!(Condition::NotReachable(0, Prefix(1)).repr(), "Isolation(r0, prefix 1)");
    assert_eq!(Condition::Reliable(5, Prefix(2), None).repr(), "Reliability(r5, prefix 2)");
    assert_eq!(
        Condition::TransientPath(2, Prefix(0), Positional(vec![Star])).repr(),
        "Transient(r2, prefix 0, condition [...])"
    );
    let cnf = PathConditionCNF::new(vec![(vec![Node(1)], vec![Node(2)]), (vec![], vec![])]);
    assert_eq!(cnf.repr(), "((!r2 || r1) && (false))");
    assert_eq!(PathConditionCNF::new(vec![]).repr(), "(true)");
}

#[test]
fn conditions_are_written_with_router_names() {
    let names: Vec<String> = vec!["A".to_string(), "B".to_string(), "C".to_string()];
    let c = And(vec![Node(0), PathCondition::Not(Box::new(Edge(1, 2)))]);
    assert_eq!(c.repr_with_name(&names), "(A && ![B -> C])");
    assert_eq!(Positional(vec![Star, Fix(1), Any]).repr_with_name(&names), "[... -> B -> ?]");
    assert_eq!(Fix(2).repr_with_name(&names), "C");
    assert_eq!(Any.repr_with_name(&names), "?");
    assert_eq!(
        Condition::Reachable(0, Prefix(1), Some(Node(2))).repr_with_name(&names),
        "Reachability(A, prefix 1, condition C)"
    );
    assert_eq!(Condition::NotReachable(1, Prefix(0)).repr_with_name(&names), "Isolation(B, prefix 0)");
    // the condition on the transient state is written with router indices
    assert_eq!(
        Condition::TransientPath(1, Prefix(0), Node(2)).repr_with_name(&names),
        "Transient(B, prefix 0, condition r2)"
    );
    let cnf = PathConditionCNF::new(vec![(vec![Node(0)], vec![Node(1)])]);
    assert_eq!(cnf.repr_with_name(&names), "((!B || A))");
}

#[test]
fn policy_errors_are_written_with_router_names() {
    let names: Vec<String> = vec!["A".to_string(), "B".to_string(), "C".to_string()];
    let e = PolicyError::BlackHole { router: 1, prefix: Prefix(3) };
    assert_eq!(e.repr_with_name(&names), "Black hole for prefix 3 at router B");
    let e = PolicyError::ForwardingLoop { path: vec![0, 1], prefix: Prefix(2) };
    assert_eq!(e.repr_with_name(&names), "Forwarding loop for prefix 2: A -> B -> A");
    let e = PolicyError::PathCondition { path: vec![1], condition: Or(vec![]), prefix: Prefix(4) };
    assert_eq!(e.repr_with_name(&names), "Path condition invalidated for prefix 4: path: B, condition: (false)");
    let e = PolicyError::UnallowedPathExists { router: 0, prefix: Prefix(1), path: vec![0, 2] };
    assert_eq!(e.repr_with_name(&names), "Router A can reach unallowed prefix 1 via path [A, C]");
    let e = PolicyError::NotReliable { router: 0, prefix: Prefix(1), link_a: 1, link_b: 2 };
    assert_eq!(e.repr_with_name(&names), "Router A cannot reach prefix 1 when link [B -> C] fails");
    let e = PolicyError::ReliabilityCondition {
        path: vec![0, 1],
        condition: Node(2),
        prefix: Prefix(0),
        link_a: 0,
        link_b: 1,
    };
    assert_eq!(
        e.repr_with_name(&names),
        "Reliability condition C violated for prefix 0 with path A -> B when link [A -> B] fails"
    );
    assert_eq!(PolicyError::NoConvergence.repr_with_name(&names), "No Convergence");
    let e = PolicyError::TransientBehavior { router: 2, prefix: Prefix(5), condition: Node(0) };
    assert_eq!(
        e.repr_with_name(&names),
        "Transient behavior of router C for prefix 5 may be violated! condition: A"
    );
}
