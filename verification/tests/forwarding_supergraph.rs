use snowcap::hard_policies::transient_behavior::forwarding_supergraph::{
    ForwardingSupergraph, ForwardingSupergraphPaths, NodeEdge, TransientCondition,
};
use snowcap::hard_policies::{PathCondition, Waypoint};
use snowcap::netsim::RouterId;
use std::collections::HashSet;

fn collect_paths(mut paths: ForwardingSupergraphPaths) -> Vec<Vec<RouterId>> {
    let mut result = Vec::new();
    while let Some(p) = paths.next() {
        result.push(p);
    }
    result
}

#[test]
fn simple_paths() {
    let external: Vec<bool> = vec![false, false, false, true, false, true];
    let g: Vec<Vec<RouterId>> = vec![
        vec![1, 2, 3],
        vec![4, 5],
        vec![4],
        vec![],
        vec![5],
        vec![],
    ];
    let old_g: Vec<Vec<RouterId>> = vec![vec![], vec![], vec![], vec![], vec![], vec![]];
    let fwsg = ForwardingSupergraph::from_neighbors(g, external.clone());
    let old = ForwardingSupergraph::from_neighbors(old_g, external.clone());
    let mut paths = fwsg.simple_paths(0, &old);

    assert_eq!(paths.next(), Some(vec![0, 3]));
    assert_eq!(paths.next(), Some(vec![0, 2, 4, 5]));
    assert_eq!(paths.next(), Some(vec![0, 1, 5]));
    assert_eq!(paths.next(), Some(vec![0, 1, 4, 5]));
    assert_eq!(paths.next(), None);
}

#[test]
fn simple_paths_with_loops() {
    let external: Vec<bool> = vec![false, false, false, true, false, true];
    let g: Vec<Vec<RouterId>> = vec![
        vec![1, 2, 3],
        vec![4, 5, 1],
        vec![4, 0],
        vec![],
        vec![5, 4],
        vec![],
    ];
    let old_g: Vec<Vec<RouterId>> = vec![vec![], vec![], vec![], vec![], vec![], vec![]];
    let fwsg = ForwardingSupergraph::from_neighbors(g, external.clone());
    let old = ForwardingSupergraph::from_neighbors(old_g, external.clone());
    let mut paths = fwsg.simple_paths(0, &old);

    assert_eq!(paths.next(), Some(vec![0, 3]));
    assert_eq!(paths.next(), Some(vec![0, 2, 4, 5]));
    assert_eq!(paths.next(), Some(vec![0, 1, 5]));
    assert_eq!(paths.next(), Some(vec![0, 1, 4, 5]));
    assert_eq!(paths.next(), None);
}

#[test]
fn simple_paths_union() {
    let external: Vec<bool> = vec![false, false, false, true, false, true];
    let g: Vec<Vec<RouterId>> = vec![
        vec![1, 3],
        vec![4],
        vec![],
        vec![],
        vec![5, 4],
        vec![],
    ];
    let old_g: Vec<Vec<RouterId>> = vec![
        vec![2, 3],
        vec![5, 1],
        vec![4, 0],
        vec![],
        vec![],
        vec![],
    ];
    let fwsg = ForwardingSupergraph::from_neighbors(g, external.clone());
    let old = ForwardingSupergraph::from_neighbors(old_g, external.clone());
    let paths = fwsg.simple_paths(0, &old);

    let expected: HashSet<Vec<RouterId>> = HashSet::from([
        vec![0, 3],
        vec![0, 1, 4, 5],
        vec![0, 1, 5],
        vec![0, 2, 4, 5],
    ]);

    assert_eq!(collect_paths(paths).into_iter().collect::<HashSet<Vec<RouterId>>>(), expected);
}

#[test]
fn algorithm_simple() {
    let external: Vec<bool> = vec![false, false, false, true, false, true];
    let g: Vec<Vec<RouterId>> = vec![
        vec![1, 2, 4],
        vec![4, 5],
        vec![4],
        vec![],
        vec![5],
        vec![],
    ];
    let old_g: Vec<Vec<RouterId>> = vec![vec![], vec![], vec![], vec![], vec![], vec![]];
    let fwsg = ForwardingSupergraph::from_neighbors(g, external.clone());
    let old = ForwardingSupergraph::from_neighbors(old_g, external.clone());

    assert_eq!(
        fwsg.check_condition(
            &old,
            &TransientCondition::FastMode {
                router_id: 0,
                cond_id: 0,
                groups_pos: vec![vec![NodeEdge::Node(5)]],
                groups_neg: vec![vec![]]
            }
        ),
        true
    );

    assert_eq!(
        fwsg.check_condition(
            &old,
            &TransientCondition::SlowMode {
                router_id: 0,
                cond_id: 0,
                condition: PathCondition::Positional(vec![
                    Waypoint::Star,
                    Waypoint::Fix(5),
                    Waypoint::Star
                ])
            }
        ),
        true
    );
}

#[test]
fn algorithm_simple_loop() {
    let external: Vec<bool> = vec![false, false, false, true, false, true];
    let g: Vec<Vec<RouterId>> = vec![
        vec![1, 2, 4],
        vec![4, 5],
        vec![4, 1],
        vec![],
        vec![5],
        vec![],
    ];
    let old_g: Vec<Vec<RouterId>> = vec![vec![], vec![], vec![], vec![], vec![], vec![]];
    let fwsg = ForwardingSupergraph::from_neighbors(g, external.clone());
    let old = ForwardingSupergraph::from_neighbors(old_g, external.clone());

    assert_eq!(
        fwsg.check_condition(
            &old,
            &TransientCondition::FastMode {
                router_id: 0,
                cond_id: 0,
                groups_pos: vec![vec![NodeEdge::Node(5)]],
                groups_neg: vec![vec![]]
            }
        ),
        true
    );

    assert_eq!(
        fwsg.check_condition(
            &old,
            &TransientCondition::SlowMode {
                router_id: 0,
                cond_id: 0,
                condition: PathCondition::Positional(vec![
                    Waypoint::Star,
                    Waypoint::Fix(5),
                    Waypoint::Star
                ])
            }
        ),
        true
    );
}

#[test]
fn algorithm_simple_black_hole() {
    let external: Vec<bool> = vec![false, false, false, false, false, true];
    let g: Vec<Vec<RouterId>> = vec![
        vec![1, 2, 3],
        vec![4, 5],
        vec![4],
        vec![],
        vec![5],
        vec![],
    ];
    let old_g: Vec<Vec<RouterId>> = vec![vec![], vec![], vec![], vec![], vec![], vec![]];
    let fwsg = ForwardingSupergraph::from_neighbors(g, external.clone());
    let old = ForwardingSupergraph::from_neighbors(old_g, external.clone());

    assert_eq!(
        fwsg.check_condition(
            &old,
            &TransientCondition::FastMode {
                router_id: 0,
                cond_id: 0,
                groups_pos: vec![vec![NodeEdge::Node(5)]],
                groups_neg: vec![vec![]]
            }
        ),
        true
    );

    assert_eq!(
        fwsg.check_condition(
            &old,
            &TransientCondition::SlowMode {
                router_id: 0,
                cond_id: 0,
                condition: PathCondition::Positional(vec![
                    Waypoint::Star,
                    Waypoint::Fix(5),
                    Waypoint::Star
                ])
            }
        ),
        true
    );
}

#[test]
fn algorithm_simple_union() {
    let external: Vec<bool> = vec![false, false, false, true, false, true];
    let g: Vec<Vec<RouterId>> = vec![
        vec![1, 2, 4],
        vec![],
        vec![4],
        vec![],
        vec![5],
        vec![],
    ];
    let old_g: Vec<Vec<RouterId>> = vec![
        vec![1, 2, 4],
        vec![4, 5],
        vec![],
        vec![],
        vec![5],
        vec![],
    ];
    let fwsg = ForwardingSupergraph::from_neighbors(g, external.clone());
    let old = ForwardingSupergraph::from_neighbors(old_g, external.clone());

    assert_eq!(
        fwsg.check_condition(
            &old,
            &TransientCondition::FastMode {
                router_id: 0,
                cond_id: 0,
                groups_pos: vec![vec![NodeEdge::Node(5)]],
                groups_neg: vec![vec![]]
            }
        ),
        true
    );

    assert_eq!(
        fwsg.check_condition(
            &old,
            &TransientCondition::SlowMode {
                router_id: 0,
                cond_id: 0,
                condition: PathCondition::Positional(vec![
                    Waypoint::Star,
                    Waypoint::Fix(5),
                    Waypoint::Star
                ])
            }
        ),
        true
    );
}

#[test]
fn algorithm_simple_invalid() {
    let external: Vec<bool> = vec![false, false, false, true, false, true];
    let g: Vec<Vec<RouterId>> = vec![
        vec![1, 2, 3],
        vec![4, 5],
        vec![4],
        vec![],
        vec![5],
        vec![],
    ];
    let old_g: Vec<Vec<RouterId>> = vec![vec![], vec![], vec![], vec![], vec![], vec![]];
    let fwsg = ForwardingSupergraph::from_neighbors(g, external.clone());
    let old = ForwardingSupergraph::from_neighbors(old_g, external.clone());

    assert_eq!(
        fwsg.check_condition(
            &old,
            &TransientCondition::FastMode {
                router_id: 0,
                cond_id: 0,
                groups_pos: vec![vec![NodeEdge::Node(5)]],
                groups_neg: vec![vec![]]
            }
        ),
        false
    );

    assert_eq!(
        fwsg.check_condition(
            &old,
            &TransientCondition::SlowMode {
                router_id: 0,
                cond_id: 0,
                condition: PathCondition::Positional(vec![
                    Waypoint::Star,
                    Waypoint::Fix(5),
                    Waypoint::Star
                ])
            }
        ),
        false
    );
}

#[test]
fn algorithm_simple_invalid_union() {
    let external: Vec<bool> = vec![false, false, false, true, false, true];
    let g: Vec<Vec<RouterId>> =
        vec![vec![], vec![4, 5], vec![], vec![], vec![5], vec![]];
    let old_g: Vec<Vec<RouterId>> = vec![
        vec![1, 2, 3],
        vec![],
        vec![4],
        vec![],
        vec![],
        vec![],
    ];
    let fwsg = ForwardingSupergraph::from_neighbors(g, external.clone());
    let old = ForwardingSupergraph::from_neighbors(old_g, external.clone());

    assert_eq!(
        fwsg.check_condition(
            &old,
            &TransientCondition::FastMode {
                router_id: 0,
                cond_id: 0,
                groups_pos: vec![vec![NodeEdge::Node(5)]],
                groups_neg: vec![vec![]]
            }
        ),
        false
    );

    assert_eq!(
        fwsg.check_condition(
            &old,
            &TransientCondition::SlowMode {
                router_id: 0,
                cond_id: 0,
                condition: PathCondition::Positional(vec![
                    Waypoint::Star,
                    Waypoint::Fix(5),
                    Waypoint::Star
                ])
            }
        ),
        false
    );
}

#[test]
fn algorithm_not() {
    let external: Vec<bool> = vec![false, false, false, true, false, true];
    let g: Vec<Vec<RouterId>> = vec![
        vec![1, 2, 4],
        vec![4, 5],
        vec![4],
        vec![],
        vec![5],
        vec![],
    ];
    let old_g: Vec<Vec<RouterId>> = vec![vec![], vec![], vec![], vec![], vec![], vec![]];
    let fwsg = ForwardingSupergraph::from_neighbors(g, external.clone());
    let old = ForwardingSupergraph::from_neighbors(old_g, external.clone());

    assert_eq!(
        fwsg.check_condition(
            &old,
            &TransientCondition::FastMode {
                router_id: 0,
                cond_id: 0,
                groups_pos: vec![vec![]],
                groups_neg: vec![vec![NodeEdge::Node(3)]]
            }
        ),
        true
    );

    assert_eq!(
        fwsg.check_condition(
            &old,
            &TransientCondition::SlowMode {
                router_id: 0,
                cond_id: 0,
                condition: PathCondition::Not(Box::new(PathCondition::Positional(vec![
                    Waypoint::Star,
                    Waypoint::Fix(3),
                    Waypoint::Star
                ])))
            }
        ),
        true
    );
}

#[test]
fn algorithm_not_invalid() {
    let external: Vec<bool> = vec![false, false, false, true, false, true];
    let g: Vec<Vec<RouterId>> = vec![
        vec![1, 2, 3],
        vec![4, 5],
        vec![4],
        vec![],
        vec![5],
        vec![],
    ];
    let old_g: Vec<Vec<RouterId>> = vec![vec![], vec![], vec![], vec![], vec![], vec![]];
    let fwsg = ForwardingSupergraph::from_neighbors(g, external.clone());
    let old = ForwardingSupergraph::from_neighbors(old_g, external.clone());

    assert_eq!(
        fwsg.check_condition(
            &old,
            &TransientCondition::FastMode {
                router_id: 0,
                cond_id: 0,
                groups_pos: vec![vec![]],
                groups_neg: vec![vec![NodeEdge::Node(3)]]
            }
        ),
        false
    );

    assert_eq!(
        fwsg.check_condition(
            &old,
            &TransientCondition::SlowMode {
                router_id: 0,
                cond_id: 0,
                condition: PathCondition::Not(Box::new(PathCondition::Positional(vec![
                    Waypoint::Star,
                    Waypoint::Fix(3),
                    Waypoint::Star
                ])))
            }
        ),
        false
    );
}

#[test]
fn algorithm_edge() {
    let external: Vec<bool> = vec![false, false, false, true, false, true];
    let g: Vec<Vec<RouterId>> = vec![
        vec![1, 2, 4],
        vec![4],
        vec![4],
        vec![],
        vec![5],
        vec![],
    ];
    let old_g: Vec<Vec<RouterId>> = vec![vec![], vec![], vec![], vec![], vec![], vec![]];
    let fwsg = ForwardingSupergraph::from_neighbors(g, external.clone());
    let old = ForwardingSupergraph::from_neighbors(old_g, external.clone());

    assert_eq!(
        fwsg.check_condition(
            &old,
            &TransientCondition::FastMode {
                router_id: 0,
                cond_id: 0,
                groups_pos: vec![vec![NodeEdge::Edge(4, 5)]],
                groups_neg: vec![vec![]]
            }
        ),
        true
    );

    assert_eq!(
        fwsg.check_condition(
            &old,
            &TransientCondition::SlowMode {
                router_id: 0,
                cond_id: 0,
                condition: PathCondition::Positional(vec![
                    Waypoint::Star,
                    Waypoint::Fix(4),
                    Waypoint::Fix(5),
                    Waypoint::Star
                ])
            }
        ),
        true
    );
}

#[test]
fn algorithm_edge_invalid() {
    let external: Vec<bool> = vec![false, false, false, true, false, true];
    let g: Vec<Vec<RouterId>> = vec![
        vec![1, 2, 4],
        vec![4, 5],
        vec![4],
        vec![],
        vec![5],
        vec![],
    ];
    let old_g: Vec<Vec<RouterId>> = vec![vec![], vec![], vec![], vec![], vec![], vec![]];
    let fwsg = ForwardingSupergraph::from_neighbors(g, external.clone());
    let old = ForwardingSupergraph::from_neighbors(old_g, external.clone());

    assert_eq!(
        fwsg.check_condition(
            &old,
            &TransientCondition::FastMode {
                router_id: 0,
                cond_id: 0,
                groups_pos: vec![vec![NodeEdge::Edge(4, 5)]],
                groups_neg: vec![vec![]]
            }
        ),
        false
    );

    assert_eq!(
        fwsg.check_condition(
            &old,
            &TransientCondition::SlowMode {
                router_id: 0,
                cond_id: 0,
                condition: PathCondition::Positional(vec![
                    Waypoint::Star,
                    Waypoint::Fix(4),
                    Waypoint::Fix(5),
                    Waypoint::Star
                ])
            }
        ),
        false
    );
}

#[test]
fn algorithm_either_two_nodes() {
    let external: Vec<bool> = vec![false, false, false, true, false, true];
    let g: Vec<Vec<RouterId>> = vec![
        vec![1, 2, 3],
        vec![4, 5],
        vec![4],
        vec![],
        vec![5],
        vec![],
    ];
    let old_g: Vec<Vec<RouterId>> = vec![vec![], vec![], vec![], vec![], vec![], vec![]];
    let fwsg = ForwardingSupergraph::from_neighbors(g, external.clone());
    let old = ForwardingSupergraph::from_neighbors(old_g, external.clone());

    assert_eq!(
        fwsg.check_condition(
            &old,
            &TransientCondition::FastMode {
                router_id: 0,
                cond_id: 0,
                groups_pos: vec![vec![NodeEdge::Node(5), NodeEdge::Node(3)]],
                groups_neg: vec![vec![]]
            }
        ),
        true
    );

    assert_eq!(
        fwsg.check_condition(
            &old,
            &TransientCondition::SlowMode {
                router_id: 0,
                cond_id: 0,
                condition: PathCondition::Or(vec![
                    PathCondition::Positional(vec![
                        Waypoint::Star,
                        Waypoint::Fix(3),
                        Waypoint::Star
                    ]),
                    PathCondition::Positional(vec![
                        Waypoint::Star,
                        Waypoint::Fix(5),
                        Waypoint::Star
                    ]),
                ])
            }
        ),
        true
    );
}

#[test]
fn algorithm_either_two_nodes_invalid() {
    let external: Vec<bool> = vec![false, false, false, true, true, true];
    let g: Vec<Vec<RouterId>> = vec![
        vec![1, 2, 3],
        vec![4, 5],
        vec![4],
        vec![],
        vec![5],
        vec![],
    ];
    let old_g: Vec<Vec<RouterId>> = vec![vec![], vec![], vec![], vec![], vec![], vec![]];
    let fwsg = ForwardingSupergraph::from_neighbors(g, external.clone());
    let old = ForwardingSupergraph::from_neighbors(old_g, external.clone());

    assert_eq!(
        fwsg.check_condition(
            &old,
            &TransientCondition::FastMode {
                router_id: 0,
                cond_id: 0,
                groups_pos: vec![vec![NodeEdge::Node(5), NodeEdge::Node(3)]],
                groups_neg: vec![vec![]]
            }
        ),
        false
    );

    assert_eq!(
        fwsg.check_condition(
            &old,
            &TransientCondition::SlowMode {
                router_id: 0,
                cond_id: 0,
                condition: PathCondition::Or(vec![
                    PathCondition::Positional(vec![
                        Waypoint::Star,
                        Waypoint::Fix(3),
                        Waypoint::Star
                    ]),
                    PathCondition::Positional(vec![
                        Waypoint::Star,
                        Waypoint::Fix(5),
                        Waypoint::Star
                    ]),
                ])
            }
        ),
        false
    );
}

#[test]
fn algorithm_both_two_nodes() {
    let external: Vec<bool> = vec![false, false, false, true, false, true];
    let g: Vec<Vec<RouterId>> = vec![
        vec![1, 2, 4],
        vec![4],
        vec![4],
        vec![],
        vec![5],
        vec![],
    ];
    let old_g: Vec<Vec<RouterId>> = vec![vec![], vec![], vec![], vec![], vec![], vec![]];
    let fwsg = ForwardingSupergraph::from_neighbors(g, external.clone());
    let old = ForwardingSupergraph::from_neighbors(old_g, external.clone());

    assert_eq!(
        fwsg.check_condition(
            &old,
            &TransientCondition::FastMode {
                router_id: 0,
                cond_id: 0,
                groups_pos: vec![
                    vec![NodeEdge::Node(4)],
                    vec![NodeEdge::Node(5)]
                ],
                groups_neg: vec![vec![], vec![]]
            }
        ),
        true
    );

    assert_eq!(
        fwsg.check_condition(
            &old,
            &TransientCondition::SlowMode {
                router_id: 0,
                cond_id: 0,
                condition: PathCondition::And(vec![
                    PathCondition::Positional(vec![
                        Waypoint::Star,
                        Waypoint::Fix(4),
                        Waypoint::Star
                    ]),
                    PathCondition::Positional(vec![
                        Waypoint::Star,
                        Waypoint::Fix(5),
                        Waypoint::Star
                    ]),
                ])
            }
        ),
        true
    );
}

#[test]
fn algorithm_both_two_nodes_invalid() {
    let external: Vec<bool> = vec![false, false, false, true, false, true];
    let g: Vec<Vec<RouterId>> = vec![
        vec![1, 2, 4],
        vec![4, 5],
        vec![4],
        vec![],
        vec![5],
        vec![],
    ];
    let old_g: Vec<Vec<RouterId>> = vec![vec![], vec![], vec![], vec![], vec![], vec![]];
    let fwsg = ForwardingSupergraph::from_neighbors(g, external.clone());
    let old = ForwardingSupergraph::from_neighbors(old_g, external.clone());

    assert_eq!(
        fwsg.check_condition(
            &old,
            &TransientCondition::FastMode {
                router_id: 0,
                cond_id: 0,
                groups_pos: vec![
                    vec![NodeEdge::Node(4)],
                    vec![NodeEdge::Node(5)]
                ],
                groups_neg: vec![vec![], vec![]]
            }
        ),
        false
    );

    assert_eq!(
        fwsg.check_condition(
            &old,
            &TransientCondition::SlowMode {
                router_id: 0,
                cond_id: 0,
                condition: PathCondition::And(vec![
                    PathCondition::Positional(vec![
                        Waypoint::Star,
                        Waypoint::Fix(3),
                        Waypoint::Star
                    ]),
                    PathCondition::Positional(vec![
                        Waypoint::Star,
                        Waypoint::Fix(5),
                        Waypoint::Star
                    ]),
                ])
            }
        ),
        false
    );
}

fn names() -> Vec<String> {
    vec!["A".to_string(), "B".to_string(), "C".to_string()]
}

#[test]
fn supergraph_is_written_with_router_names() {
    let fwsg = ForwardingSupergraph::from_neighbors(vec![vec![1, 2], vec![2], vec![]], vec![false, false, true]);
    assert_eq!(fwsg.repr_with_name(&names()), "A -> [B, C]\nB -> [C]");
    let none = ForwardingSupergraph::from_neighbors(vec![vec![]], vec![true]);
    assert_eq!(none.repr_with_name(&names()), "");
}

#[test]
fn transient_conditions_are_written_with_router_names() {
    let slow = TransientCondition::new(0, 3, &PathCondition::And(vec![PathCondition::Node(1), PathCondition::Node(2)]));
    assert_eq!(slow.repr_with_name(&names()), "A: (B && C)");
    let fast = TransientCondition::FastMode {
        router_id: 1,
        cond_id: 0,
        groups_pos: vec![vec![NodeEdge::Node(1)], vec![]],
        groups_neg: vec![vec![NodeEdge::Edge(0, 2)], vec![]],
    };
    assert_eq!(fast.repr_with_name(&names()), "B: ((![A -> C] || B) && (false))");
}
