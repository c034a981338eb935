use snowcap::hard_policies::hard_policy::StepResults;
use snowcap::hard_policies::transient_behavior::forwarding_supergraph::ForwardingSupergraph;
use snowcap::hard_policies::PathCondition::Node;
use snowcap::hard_policies::{Condition, HardPolicy, PolicyError};
use snowcap::netsim::{NetworkError, Prefix};

fn results(state: Vec<bool>, errors: Vec<Option<PolicyError>>) -> StepResults {
    StepResults { state, errors }
}

fn black_hole(router: u32) -> Option<PolicyError> {
    Some(PolicyError::BlackHole { router, prefix: Prefix(0) })
}

#[test]
fn reachability_lists_every_router_and_prefix() {
    let p = HardPolicy::reachability(&[1, 2], &[Prefix(7), Prefix(8)]);
    assert_eq!(
        p.prop_vars,
        vec![
            Condition::Reachable(1, Prefix(7), None),
            Condition::Reachable(1, Prefix(8), None),
            Condition::Reachable(2, Prefix(7), None),
            Condition::Reachable(2, Prefix(8), None),
        ]
    );
}

#[test]
fn globally_holds_while_every_condition_holds() {
    let mut p = HardPolicy::globally(vec![
        Condition::Reachable(0, Prefix(0), None),
        Condition::Reachable(1, Prefix(0), None),
    ]);
    assert!(p.set_num_mods_if_none(2));
    assert!(!p.set_num_mods_if_none(5));
    p.step(results(vec![true, true], vec![None, None]));
    assert!(p.check());
    p.step(results(vec![true, true], vec![None, None]));
    assert!(p.check());
    p.step(results(vec![true, false], vec![None, black_hole(1)]));
    assert!(!p.check());
    assert_eq!(p.get_watch(), vec![1]);
    assert_eq!(p.last_errors(), vec![PolicyError::BlackHole { router: 1, prefix: Prefix(0) }]);
    p.undo();
    assert!(p.check());
    assert!(p.check_overwrite_finish(true));
    p.reset();
    assert!(p.check());
    assert!(p.last_errors().is_empty());
}

#[test]
fn until_globally_waits_for_psi() {
    let mut p = HardPolicy::until_globally(
        vec![Condition::Reachable(0, Prefix(0), None), Condition::Reachable(1, Prefix(0), None)],
        &[0],
        &[1],
    );
    p.step(results(vec![true, false], vec![None, black_hole(1)]));
    assert!(p.check());
    p.step(results(vec![false, false], vec![black_hole(0), black_hole(1)]));
    assert!(!p.check());
}

#[test]
fn watch_errors_compare_the_watched_conditions() {
    let mut p = HardPolicy::globally(vec![
        Condition::Reachable(0, Prefix(0), None),
        Condition::Reachable(1, Prefix(0), None),
        Condition::Reachable(2, Prefix(0), None),
    ]);
    p.step(results(vec![false, true, false], vec![black_hole(0), None, black_hole(2)]));
    let watch_errors = p.get_watch_errors();
    assert_eq!(watch_errors.0, vec![0, 2]);
    assert_eq!(watch_errors.1, vec![black_hole(0), black_hole(2)]);
    assert_eq!(p.last_errors_of_watch(&[1, 0]), vec![None, black_hole(0)]);
    assert!(p.compare_watch_errors(&watch_errors));
    p.undo();
    p.step(results(vec![false, true, false], vec![black_hole(0), None, black_hole(3)]));
    assert!(!p.compare_watch_errors(&watch_errors));
}

#[test]
fn conditions_are_checked_on_their_routes() {
    let p = HardPolicy::globally(vec![
        Condition::Reachable(0, Prefix(0), Some(Node(2))),
        Condition::NotReachable(1, Prefix(0)),
        Condition::Reliable(3, Prefix(0), None),
    ]);
    let r = p.check_conditions(vec![
        Ok(vec![0, 2]),
        Err(NetworkError::ForwardingBlackHole(vec![1])),
        Ok(vec![3]),
    ]);
    assert_eq!(r.state, vec![true, true, true]);
    let r = p.check_conditions(vec![
        Ok(vec![0, 1]),
        Ok(vec![1, 0]),
        Err(NetworkError::ForwardingBlackHole(vec![3])),
    ]);
    assert_eq!(r.state, vec![false, false, true]);
    assert_eq!(
        r.errors[1],
        Some(PolicyError::UnallowedPathExists { router: 1, prefix: Prefix(0), path: vec![1, 0] })
    );
}

#[test]
fn link_failures_mark_unreliable_conditions() {
    let p = HardPolicy::globally(vec![
        Condition::Reachable(0, Prefix(0), None),
        Condition::Reliable(1, Prefix(0), None),
        Condition::Reliable(2, Prefix(0), Some(Node(5))),
    ]);
    let mut r = results(vec![true, true, true], vec![None, None, None]);
    p.check_link_failure(&mut r, 4, 5, vec![Ok(vec![1, 5]), Ok(vec![2, 5])]);
    assert_eq!(r.state, vec![true, true, true]);
    p.check_link_failure(
        &mut r,
        5,
        6,
        vec![Err(NetworkError::ForwardingLoop(vec![1, 3, 1])), Ok(vec![2, 6])],
    );
    assert_eq!(r.state, vec![true, false, false]);
    assert_eq!(
        r.errors[1],
        Some(PolicyError::NotReliable { router: 1, prefix: Prefix(0), link_a: 5, link_b: 6 })
    );
    assert_eq!(
        r.errors[2],
        Some(PolicyError::ReliabilityCondition {
            path: vec![2, 6],
            condition: Node(5),
            prefix: Prefix(0),
            link_a: 5,
            link_b: 6
        })
    );
}

#[test]
fn transient_outcomes_mark_transient_conditions() {
    let p = HardPolicy::globally(vec![
        Condition::Reachable(0, Prefix(0), None),
        Condition::TransientPath(1, Prefix(2), Node(3)),
    ]);
    let mut r = results(vec![true, true], vec![None, None]);
    p.check_transient(&mut r, &vec![(1, true)]);
    assert_eq!(r.state, vec![true, true]);
    p.check_transient(&mut r, &vec![(1, false)]);
    assert_eq!(r.state, vec![true, false]);
    assert_eq!(
        r.errors[1],
        Some(PolicyError::TransientBehavior { router: 1, prefix: Prefix(2), condition: Node(3) })
    );
}

#[test]
fn transient_step_checks_paths_of_consecutive_supergraphs() {
    let mut p = HardPolicy::globally(vec![
        Condition::Reachable(0, Prefix(0), None),
        Condition::TransientPath(0, Prefix(0), Node(1)),
    ]);
    let external = vec![false, false, true];
    let through_one = || {
        ForwardingSupergraph::from_neighbors(vec![vec![1], vec![2], vec![]], external.clone())
    };
    assert_eq!(p.transient_step(vec![through_one()]), vec![]);
    assert_eq!(p.transient_step(vec![through_one()]), vec![(1, true)]);
    let direct = ForwardingSupergraph::from_neighbors(vec![vec![2], vec![2], vec![]], external.clone());
    assert_eq!(p.transient_step(vec![direct]), vec![(1, false)]);
    p.undo();
    assert_eq!(p.transient_step(vec![through_one()]), vec![(1, true)]);
    let mut r = results(vec![true, true], vec![None, None]);
    p.check_transient(&mut r, &vec![(1, false)]);
    assert_eq!(r.state, vec![true, false]);
}

#[test]
fn policy_without_transient_conditions_has_no_verdicts() {
    let mut p = HardPolicy::globally(vec![Condition::Reachable(0, Prefix(0), None)]);
    assert_eq!(p.transient_step(vec![]), vec![]);
}

#[test]
fn last_errors_holds_each_error_once() {
    let mut p = HardPolicy::globally(vec![
        Condition::Reachable(1, Prefix(0), None),
        Condition::Reachable(2, Prefix(0), None),
        Condition::Reachable(1, Prefix(0), None),
    ]);
    p.step(results(vec![false, false, false], vec![black_hole(1), black_hole(2), black_hole(1)]));
    assert_eq!(
        p.last_errors(),
        vec![
            PolicyError::BlackHole { router: 1, prefix: Prefix(0) },
            PolicyError::BlackHole { router: 2, prefix: Prefix(0) },
        ]
    );
}

#[test]
fn policy_is_written_with_router_names() {
    let names: Vec<String> = vec!["A".to_string(), "B".to_string()];
    let mut p = HardPolicy::globally(vec![
        Condition::Reachable(0, Prefix(0), None),
        Condition::NotReachable(1, Prefix(2)),
    ]);
    p.step(results(vec![true, true], vec![None, None]));
    p.step(results(vec![false, true], vec![black_hole(0), None]));
    assert!(p.has_names(2));
    assert!(!p.has_names(1));
    let expected = format!(
        "LTL: {}\nVars:\n    x00: Reachability(A, prefix 0)\n    x01: Isolation(B, prefix 2)\nHistory:\n    x00: T F\n    x01: T T\ntransient state:\n----",
        p.expr.repr()
    );
    assert_eq!(p.repr_with_name(&names), expected);
}

#[test]
fn transient_analyzer_is_written_with_router_names() {
    let names: Vec<String> = vec!["A".to_string(), "B".to_string()];
    let p = HardPolicy::globally(vec![Condition::TransientPath(0, Prefix(0), Node(1))]);
    assert!(p.has_names(2));
    let expected = format!(
        "LTL: {}\nVars:\n    x00: Transient(A, prefix 0, condition r1)\nHistory:\n    x00: \ntransient state:\n\nPrefix 0\nconds:\nA: B\nold graph:\n----\nnew graph:\n----\n",
        p.expr.repr()
    );
    assert_eq!(p.repr_with_name(&names), expected);
}
