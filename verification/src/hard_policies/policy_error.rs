//! # Hard Policy Error
use vstd::prelude::*;
use crate::hard_policies::condition::{
    lemma_same_as_symmetric, lemma_same_as_transitive, same_routers, PathCondition,
};
use crate::netsim::{Prefix, RouterId};

verus! {

/// # Hard Policy Error
/// This indicates which policy resulted in the policy failing.
#[derive(Debug, PartialEq, Eq, Hash)]
pub enum PolicyError {
    /// Forwarding Black Hole occured
    BlackHole {
        /// The router where the black hole exists.
        router: RouterId,
        /// The prefix for which the black hole exists.
        prefix: Prefix,
    },
    /// Forwarding Loop occured
    ForwardingLoop {
        /// The loop, only containing the relevant routers.
        path: Vec<RouterId>,
        /// The prefix for which the forwarding loop exists.
        prefix: Prefix,
    },
    /// PathRequirement was not satisfied
    PathCondition {
        /// The actual path taken in the network
        path: Vec<RouterId>,
        /// The expected path
        condition: PathCondition,
        /// the prefix for which the wrong path exists.
        prefix: Prefix,
    },
    /// A route is present, where it should be dropped somewhere
    UnallowedPathExists {
        /// The router who should not be able to reach the prefix
        router: RouterId,
        /// The prefix which should not be reached
        prefix: Prefix,
        /// the path with which the router can reach the prefix
        path: Vec<RouterId>,
    },
    /// Reliability Constraint is not satisfied
    NotReliable {
        /// Router for thich the reliability is violated
        router: RouterId,
        /// Prefix for which the reliability is violated
        prefix: Prefix,
        /// Critical link, where a link failure causes the unreliability (router a)
        link_a: RouterId,
        /// Critical link, where a link failure causes the unreliability (router b)
        link_b: RouterId,
    },
    /// Condition during reliability check is not satisfied
    ReliabilityCondition {
        /// Router for which the reliability condition is violated
        path: Vec<RouterId>,
        /// Condition which is violated during reliability check, when the given link fails.
        condition: PathCondition,
        /// Prefix for which the reliability condition is violated
        prefix: Prefix,
        /// Critical link, where a link failure causes the reliability constraint to fail (router a)
        link_a: RouterId,
        /// Critical link, where a link failure causes the reliability constraint to fail (router b)
        link_b: RouterId,
    },
    /// No Convergence
    NoConvergence,
    /// Transient Behavior Violation
    TransientBehavior {
        /// Router for which transient behavior might be violated
        router: RouterId,
        /// Prefix for which the router might violate transient behavior
        prefix: Prefix,
        /// Path condition which may be violated in transient behavior
        condition: PathCondition,
    },
}

/// A copy of the routers of a path.
pub fn copy_path(path: &[RouterId]) -> (r: Vec<RouterId>)
    ensures
        r@ == path@,
{
    let mut r: Vec<RouterId> = Vec::new();
    let mut i: usize = 0;
    while i < path.len()
        invariant
            i <= path@.len(),
            r@ == path@.take(i as int),
        decreases path@.len() - i,
    {
        r.push(path[i]);
        i += 1;
    }
    assert(r@ =~= path@);
    r
}

impl PolicyError {
    /// Whether `self` and `other` are the same error: the same kind, with the same routers, paths
    /// and prefixes, and the same conditions.
    pub open spec fn same_as(self, other: PolicyError) -> bool {
        match (self, other) {
            (PolicyError::BlackHole { router: r1, prefix: p1 }, PolicyError::BlackHole { router: r2, prefix: p2 }) =>
                r1 == r2 && p1 == p2,
            (
                PolicyError::ForwardingLoop { path: a1, prefix: p1 },
                PolicyError::ForwardingLoop { path: a2, prefix: p2 },
            ) => a1@ == a2@ && p1 == p2,
            (
                PolicyError::PathCondition { path: a1, condition: c1, prefix: p1 },
                PolicyError::PathCondition { path: a2, condition: c2, prefix: p2 },
            ) => a1@ == a2@ && c1.same_as(c2) && p1 == p2,
            (
                PolicyError::UnallowedPathExists { router: r1, prefix: p1, path: a1 },
                PolicyError::UnallowedPathExists { router: r2, prefix: p2, path: a2 },
            ) => r1 == r2 && p1 == p2 && a1@ == a2@,
            (
                PolicyError::NotReliable { router: r1, prefix: p1, link_a: x1, link_b: y1 },
                PolicyError::NotReliable { router: r2, prefix: p2, link_a: x2, link_b: y2 },
            ) => r1 == r2 && p1 == p2 && x1 == x2 && y1 == y2,
            (
                PolicyError::ReliabilityCondition { path: a1, condition: c1, prefix: p1, link_a: x1, link_b: y1 },
                PolicyError::ReliabilityCondition { path: a2, condition: c2, prefix: p2, link_a: x2, link_b: y2 },
            ) => a1@ == a2@ && c1.same_as(c2) && p1 == p2 && x1 == x2 && y1 == y2,
            (PolicyError::NoConvergence, PolicyError::NoConvergence) => true,
            (
                PolicyError::TransientBehavior { router: r1, prefix: p1, condition: c1 },
                PolicyError::TransientBehavior { router: r2, prefix: p2, condition: c2 },
            ) => r1 == r2 && p1 == p2 && c1.same_as(c2),
            _ => false,
        }
    }
}

impl Clone for PolicyError {
    fn clone(&self) -> (r: Self)
        ensures
            self.same_as(r),
    {
        match self {
            PolicyError::BlackHole { router, prefix } => PolicyError::BlackHole { router: *router, prefix: *prefix },
            PolicyError::ForwardingLoop { path, prefix } => PolicyError::ForwardingLoop {
                path: copy_path(path.as_slice()),
                prefix: *prefix,
            },
            PolicyError::PathCondition { path, condition, prefix } => PolicyError::PathCondition {
                path: copy_path(path.as_slice()),
                condition: condition.deep_clone(),
                prefix: *prefix,
            },
            PolicyError::UnallowedPathExists { router, prefix, path } => PolicyError::UnallowedPathExists {
                router: *router,
                prefix: *prefix,
                path: copy_path(path.as_slice()),
            },
            PolicyError::NotReliable { router, prefix, link_a, link_b } => PolicyError::NotReliable {
                router: *router,
                prefix: *prefix,
                link_a: *link_a,
                link_b: *link_b,
            },
            PolicyError::ReliabilityCondition { path, condition, prefix, link_a, link_b } =>
                PolicyError::ReliabilityCondition {
                    path: copy_path(path.as_slice()),
                    condition: condition.deep_clone(),
                    prefix: *prefix,
                    link_a: *link_a,
                    link_b: *link_b,
                },
            PolicyError::NoConvergence => PolicyError::NoConvergence,
            PolicyError::TransientBehavior { router, prefix, condition } => PolicyError::TransientBehavior {
                router: *router,
                prefix: *prefix,
                condition: condition.deep_clone(),
            },
        }
    }
}

impl PolicyError {
    /// Whether `self` and `other` are the same error.
    pub fn equals(&self, other: &PolicyError) -> (r: bool)
        ensures
            r == self.same_as(*other),
    {
        match (self, other) {
            (PolicyError::BlackHole { router: r1, prefix: p1 }, PolicyError::BlackHole { router: r2, prefix: p2 }) =>
                *r1 == *r2 && *p1 == *p2,
            (
                PolicyError::ForwardingLoop { path: a1, prefix: p1 },
                PolicyError::ForwardingLoop { path: a2, prefix: p2 },
            ) => same_routers(a1, a2) && *p1 == *p2,
            (
                PolicyError::PathCondition { path: a1, condition: c1, prefix: p1 },
                PolicyError::PathCondition { path: a2, condition: c2, prefix: p2 },
            ) => same_routers(a1, a2) && c1.equals(c2) && *p1 == *p2,
            (
                PolicyError::UnallowedPathExists { router: r1, prefix: p1, path: a1 },
                PolicyError::UnallowedPathExists { router: r2, prefix: p2, path: a2 },
            ) => *r1 == *r2 && *p1 == *p2 && same_routers(a1, a2),
            (
                PolicyError::NotReliable { router: r1, prefix: p1, link_a: x1, link_b: y1 },
                PolicyError::NotReliable { router: r2, prefix: p2, link_a: x2, link_b: y2 },
            ) => *r1 == *r2 && *p1 == *p2 && *x1 == *x2 && *y1 == *y2,
            (
                PolicyError::ReliabilityCondition { path: a1, condition: c1, prefix: p1, link_a: x1, link_b: y1 },
                PolicyError::ReliabilityCondition { path: a2, condition: c2, prefix: p2, link_a: x2, link_b: y2 },
            ) => same_routers(a1, a2) && c1.equals(c2) && *p1 == *p2 && *x1 == *x2 && *y1 == *y2,
            (PolicyError::NoConvergence, PolicyError::NoConvergence) => true,
            (
                PolicyError::TransientBehavior { router: r1, prefix: p1, condition: c1 },
                PolicyError::TransientBehavior { router: r2, prefix: p2, condition: c2 },
            ) => *r1 == *r2 && *p1 == *p2 && c1.equals(c2),
            _ => false,
        }
    }
}

/// Being the same error is symmetric.
pub proof fn lemma_same_error_symmetric(a: PolicyError, b: PolicyError)
    requires
        a.same_as(b),
    ensures
        b.same_as(a),
{
    match (a, b) {
        (
            PolicyError::PathCondition { condition: c1, .. },
            PolicyError::PathCondition { condition: c2, .. },
        ) => lemma_same_as_symmetric(c1, c2),
        (
            PolicyError::ReliabilityCondition { condition: c1, .. },
            PolicyError::ReliabilityCondition { condition: c2, .. },
        ) => lemma_same_as_symmetric(c1, c2),
        (
            PolicyError::TransientBehavior { condition: c1, .. },
            PolicyError::TransientBehavior { condition: c2, .. },
        ) => lemma_same_as_symmetric(c1, c2),
        _ => {},
    }
}

/// Being the same error is transitive.
pub proof fn lemma_same_error_transitive(a: PolicyError, b: PolicyError, c: PolicyError)
    requires
        a.same_as(b),
        b.same_as(c),
    ensures
        a.same_as(c),
{
    match (a, b, c) {
        (
            PolicyError::PathCondition { condition: c1, .. },
            PolicyError::PathCondition { condition: c2, .. },
            PolicyError::PathCondition { condition: c3, .. },
        ) => lemma_same_as_transitive(c1, c2, c3),
        (
            PolicyError::ReliabilityCondition { condition: c1, .. },
            PolicyError::ReliabilityCondition { condition: c2, .. },
            PolicyError::ReliabilityCondition { condition: c3, .. },
        ) => lemma_same_as_transitive(c1, c2, c3),
        (
            PolicyError::TransientBehavior { condition: c1, .. },
            PolicyError::TransientBehavior { condition: c2, .. },
            PolicyError::TransientBehavior { condition: c3, .. },
        ) => lemma_same_as_transitive(c1, c2, c3),
        _ => {},
    }
}

} // verus!
