//! # Hard Policies
//!
//! Hard policies are expressed as formulas of linear temporal logic over a set of conditions.
pub mod condition;
pub mod condition_repr;
pub mod hard_policy;
pub mod ltl;
pub mod ltl_result;
pub mod operator;
pub mod partial_soundness;
pub mod policy_error;
pub mod repr;
pub mod transient_behavior;
pub mod watch_partial;

pub use condition::{Condition, PathCondition, PathConditionCNF, Waypoint};
pub use hard_policy::{HardPolicy, WatchErrors};
pub use ltl::{LTLBoolean, LTLExpr, LTLModal, LTLResult};
pub use operator::{LTLBoxClone, LTLOperator};
pub use policy_error::PolicyError;

use vstd::prelude::*;
use crate::netsim::RouterId;

verus! {

/// Whether the path ends in a router that it has visited before: a forwarding loop.
pub open spec fn loops_back(p: Seq<RouterId>) -> bool {
    p.len() > 0 && exists|i: int| 0 <= i < p.len() - 1 && p[i] == p.last()
}

/// Whether `f` is the first position of the path at which its last router occurs, before the end.
pub open spec fn first_return(p: Seq<RouterId>, f: int) -> bool {
    &&& 0 <= f < p.len() - 1
    &&& p[f] == p.last()
    &&& forall|i: int| 0 <= i < f ==> p[i] != p.last()
}

/// Whether `m` is the first position of a smallest router of `l`.
pub open spec fn first_min(l: Seq<RouterId>, m: int) -> bool {
    &&& 0 <= m < l.len()
    &&& forall|i: int| 0 <= i < l.len() ==> l[m] <= l[i]
    &&& forall|i: int| 0 <= i < m ==> l[m] < l[i]
}

/// The loop of a path that ends in a forwarding loop: the routers after the first visit of the
/// last router, up to the end, rotated such that the smallest router id comes first.
pub open spec fn prepared_loop(p: Seq<RouterId>) -> Seq<RouterId> {
    let f = choose|f: int| first_return(p, f);
    let l = p.subrange(f + 1, p.len() as int);
    let m = choose|m: int| first_min(l, m);
    l.subrange(m, l.len() as int) + l.subrange(0, m)
}

/// Prepare the forwarding loop path, such that it only contains the routers of the loop, and the
/// loop starts at the router with the smallest id.
pub fn prepare_loop_path(path: Vec<RouterId>) -> (r: Vec<RouterId>)
    requires
        loops_back(path@),
    ensures
        r@ == prepared_loop(path@),
{
    let ghost p = path@;
    let len = path.len();
    let loop_router = path[len - 1];
    let ghost w = choose|i: int| 0 <= i < p.len() - 1 && p[i] == p.last();
    let mut f: usize = 0;
    while path[f] != loop_router
        invariant
            p == path@,
            len == p.len(),
            loop_router == p.last(),
            0 <= w < p.len() - 1,
            p[w] == p.last(),
            f <= w,
            forall|i: int| 0 <= i < f ==> p[i] != p.last(),
        decreases w - f,
    {
        f += 1;
    }
    proof {
        assert(first_return(p, f as int));
        assert forall|g: int| first_return(p, g) implies g == f by {}
    }
    let ghost l = p.subrange(f + 1, p.len() as int);
    let start = f + 1;
    let mut m: usize = start;
    let mut j: usize = start + 1;
    while j < len
        invariant
            p == path@,
            len == p.len(),
            l == p.subrange(start as int, len as int),
            start < len,
            start <= m < j <= len,
            forall|i: int| start <= i < j ==> p[m as int] <= p[i],
            forall|i: int| start <= i < m ==> p[m as int] < p[i],
        decreases len - j,
    {
        if path[j] < path[m] {
            m = j;
        }
        j += 1;
    }
    let ghost mm = m - start;
    proof {
        assert(first_min(l, mm));
        assert forall|g: int| first_min(l, g) implies g == mm by {
            if g < mm {
                assert(l[mm] < l[g]);
                assert(l[g] <= l[mm]);
            }
            if g > mm {
                assert(l[mm] <= l[g]);
                assert(l[g] < l[mm]);
            }
        }
    }
    let mut r: Vec<RouterId> = Vec::new();
    let mut k: usize = m;
    while k < len
        invariant
            p == path@,
            len == p.len(),
            start <= m <= k <= len,
            r@ == p.subrange(m as int, k as int),
        decreases len - k,
    {
        r.push(path[k]);
        k += 1;
    }
    let mut k: usize = start;
    while k < m
        invariant
            p == path@,
            len == p.len(),
            start <= k <= m <= len,
            r@ == p.subrange(m as int, len as int) + p.subrange(start as int, k as int),
        decreases m - k,
    {
        r.push(path[k]);
        proof {
            assert(p.subrange(start as int, k + 1) == p.subrange(start as int, k as int).push(p[k as int]));
        }
        k += 1;
    }
    proof {
        assert(l.subrange(mm, l.len() as int) =~= p.subrange(m as int, len as int));
        assert(l.subrange(0, mm) =~= p.subrange(start as int, m as int));
    }
    r
}

} // verus!
