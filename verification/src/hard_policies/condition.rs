//! # Condition
//!
//! A condition is treated as one single boolean expression, which can evaluate to either true or
//! false. A path condition is a condition on the path that packets take through the network.
use vstd::prelude::*;
use crate::hard_policies::policy_error::{copy_path, PolicyError};
use crate::hard_policies::{loops_back, prepare_loop_path, prepared_loop};
use crate::netsim::{NetworkError, Prefix, RouterId};

verus! {

broadcast use vstd::std_specs::vec::axiom_vec_index_decreases;

/// Part of the positional waypointing argument
#[derive(Clone, Debug, PartialEq, Eq, Structural, Hash, Copy)]
pub enum Waypoint {
    /// The next node is always allowed, no matter what it is. This is equivalent to the regular
    /// expression `.` (UNIX style)
    Any,
    /// A sequence of undefined length is allowed (including length 0). This is equivalent to the
    /// regular expression `.*` (UNIX style)
    Star,
    /// At the current position, the path must contain the given node.
    Fix(RouterId),
}

/// Whether the path `p` matches the waypoints `w` as a whole: `Any` matches one router, `Fix(n)`
/// matches the router `n`, and `Star` matches any sequence of routers, the empty one included.
pub open spec fn positional_match(w: Seq<Waypoint>, p: Seq<RouterId>) -> bool
    decreases w.len(), p.len(),
{
    if w.len() == 0 {
        p.len() == 0
    } else {
        match w[0] {
            Waypoint::Any => p.len() > 0 && positional_match(w.skip(1), p.skip(1)),
            Waypoint::Fix(n) => p.len() > 0 && p[0] == n && positional_match(w.skip(1), p.skip(1)),
            Waypoint::Star => positional_match(w.skip(1), p) || (p.len() > 0 && positional_match(
                w,
                p.skip(1),
            )),
        }
    }
}

/// Whether the path `p` traverses the edge from `a` to `b`.
pub open spec fn traverses_edge(p: Seq<RouterId>, a: RouterId, b: RouterId) -> bool {
    exists|i: int| 0 <= i && i + 1 < p.len() && #[trigger] p[i] == a && p[i + 1] == b
}

/// Condition on the path, which may be either to require that the path passes through a specific
/// node, or that the path traverses a specific edge.
#[derive(Debug, PartialEq, Eq, Hash)]
pub enum PathCondition {
    /// Condition that a specific node must be traversed by the path
    Node(RouterId),
    /// Condition that a specific edge must be traversed by the path
    Edge(RouterId, RouterId),
    /// Set of conditions, combined with a logical and
    And(Vec<PathCondition>),
    /// Set of conditions, combined with a logical or
    Or(Vec<PathCondition>),
    /// inverted condition.
    Not(Box<PathCondition>),
    /// Condition for expressing positional waypointing. The vector represents a sequence of
    /// waypoints, including placeholders. It is not possible to express logical OR or AND inside
    /// this positional expression. However, by combining multiple positional expressions, a
    /// similar expressiveness can be achieved.
    Positional(Vec<Waypoint>),
}

impl PathCondition {
    /// Whether the path `p` satisfies the condition.
    pub open spec fn sat(self, p: Seq<RouterId>) -> bool
        decreases self,
    {
        match self {
            PathCondition::Node(n) => p.contains(n),
            PathCondition::Edge(a, b) => traverses_edge(p, a, b),
            PathCondition::And(v) => forall|j: int| 0 <= j < v.len() ==> (#[trigger] v[j]).sat(p),
            PathCondition::Or(v) => exists|j: int| 0 <= j < v.len() && (#[trigger] v[j]).sat(p),
            PathCondition::Not(c) => !c.sat(p),
            PathCondition::Positional(w) => positional_match(w@, p),
        }
    }

    /// Whether the condition is a single requirement, that is neither a combination nor a
    /// negation of conditions.
    pub open spec fn is_atom(self) -> bool {
        self is Node || self is Edge || self is Positional
    }

    /// Whether `self` and `other` are the same condition, operand by operand.
    pub open spec fn same_as(self, other: PathCondition) -> bool
        decreases self,
    {
        match (self, other) {
            (PathCondition::Node(a), PathCondition::Node(b)) => a == b,
            (PathCondition::Edge(a, b), PathCondition::Edge(c, d)) => a == c && b == d,
            (PathCondition::And(v), PathCondition::And(w)) => v.len() == w.len() && forall|j: int|
                0 <= j < v.len() ==> (#[trigger] v[j]).same_as(w[j]),
            (PathCondition::Or(v), PathCondition::Or(w)) => v.len() == w.len() && forall|j: int|
                0 <= j < v.len() ==> (#[trigger] v[j]).same_as(w[j]),
            (PathCondition::Not(a), PathCondition::Not(b)) => a.same_as(*b),
            (PathCondition::Positional(v), PathCondition::Positional(w)) => v@ == w@,
            _ => false,
        }
    }

    /// A copy of the condition, with every operand copied.
    pub fn deep_clone(&self) -> (r: PathCondition)
        ensures
            self.same_as(r),
        decreases self,
    {
        match self {
            PathCondition::Node(n) => PathCondition::Node(*n),
            PathCondition::Edge(a, b) => PathCondition::Edge(*a, *b),
            PathCondition::And(v) => {
                proof {
                    assert(decreases_to!(self => self->And_0));
                }
                PathCondition::And(clone_conditions(v))
            },
            PathCondition::Or(v) => {
                proof {
                    assert(decreases_to!(self => self->Or_0));
                }
                PathCondition::Or(clone_conditions(v))
            },
            PathCondition::Not(c) => PathCondition::Not(Box::new(c.deep_clone())),
            PathCondition::Positional(w) => {
                let mut r: Vec<Waypoint> = Vec::new();
                let mut i: usize = 0;
                while i < w.len()
                    invariant
                        i <= w@.len(),
                        r@ == w@.take(i as int),
                    decreases w@.len() - i,
                {
                    r.push(w[i]);
                    i += 1;
                }
                assert(r@ =~= w@);
                PathCondition::Positional(r)
            },
        }
    }
}

/// Copies every condition of `v`.
fn clone_conditions(v: &Vec<PathCondition>) -> (r: Vec<PathCondition>)
    ensures
        r@.len() == v@.len(),
        forall|j: int| 0 <= j < v@.len() ==> (#[trigger] v@[j]).same_as(r@[j]),
    decreases v,
{
    let mut r: Vec<PathCondition> = Vec::new();
    let mut j: usize = 0;
    while j < v.len()
        invariant
            j <= v@.len(),
            r@.len() == j,
            forall|k: int| 0 <= k < j ==> (#[trigger] v@[k]).same_as(r@[k]),
        decreases v@.len() - j,
    {
        proof {
            assert(decreases_to!(v => v@[j as int]));
        }
        r.push(v[j].deep_clone());
        j += 1;
    }
    r
}

/// Conditions that are the same are satisfied by the same paths.
pub proof fn lemma_same_sat(a: PathCondition, b: PathCondition, p: Seq<RouterId>)
    requires
        a.same_as(b),
    ensures
        a.sat(p) == b.sat(p),
    decreases a,
{
    match (a, b) {
        (PathCondition::And(v), PathCondition::And(w)) => {
            assert forall|j: int| 0 <= j < v.len() implies (#[trigger] v[j]).sat(p) == w[j].sat(p) by {
                lemma_same_sat(v[j], w[j], p);
            }
            if !a.sat(p) {
                let j = choose|j: int| 0 <= j < v.len() && !(#[trigger] v[j]).sat(p);
                assert(!w[j].sat(p));
            }
            if !b.sat(p) {
                let j = choose|j: int| 0 <= j < w.len() && !(#[trigger] w[j]).sat(p);
                assert(!v[j].sat(p));
            }
        },
        (PathCondition::Or(v), PathCondition::Or(w)) => {
            assert forall|j: int| 0 <= j < v.len() implies (#[trigger] v[j]).sat(p) == w[j].sat(p) by {
                lemma_same_sat(v[j], w[j], p);
            }
            if a.sat(p) {
                let j = choose|j: int| 0 <= j < v.len() && (#[trigger] v[j]).sat(p);
                assert(w[j].sat(p));
            }
            if b.sat(p) {
                let j = choose|j: int| 0 <= j < w.len() && (#[trigger] w[j]).sat(p);
                assert(v[j].sat(p));
            }
        },
        (PathCondition::Not(c), PathCondition::Not(d)) => {
            lemma_same_sat(*c, *d, p);
        },
        _ => {},
    }
}

/// Whether the waypoints from `i` on match the path from `j` on.
fn positional_from(w: &Vec<Waypoint>, i: usize, path: &[RouterId], j: usize) -> (r: bool)
    requires
        i <= w@.len(),
        j <= path@.len(),
    ensures
        r == positional_match(w@.skip(i as int), path@.skip(j as int)),
    decreases w@.len() - i, path@.len() - j,
{
    let ghost ws = w@.skip(i as int);
    let ghost ps = path@.skip(j as int);
    if i == w.len() {
        return j == path.len();
    }
    assert(ws[0] == w@[i as int]);
    assert(ws.skip(1) =~= w@.skip(i + 1));
    match w[i] {
        Waypoint::Any => {
            if j < path.len() {
                assert(ps.skip(1) =~= path@.skip(j + 1));
                positional_from(w, i + 1, path, j + 1)
            } else {
                false
            }
        },
        Waypoint::Fix(n) => {
            if j < path.len() && path[j] == n {
                assert(ps.skip(1) =~= path@.skip(j + 1));
                assert(ps[0] == path@[j as int]);
                positional_from(w, i + 1, path, j + 1)
            } else {
                false
            }
        },
        Waypoint::Star => {
            // the star takes the routers from `j` up to `k`, for the first `k` that works
            let next = i + 1;
            let mut k = j;
            while k < path.len()
                invariant
                    i < w@.len(),
                    next == i + 1,
                    w@[i as int] == Waypoint::Star,
                    j <= k <= path@.len(),
                    positional_match(w@.skip(i as int), path@.skip(j as int)) == positional_match(
                        w@.skip(i as int),
                        path@.skip(k as int),
                    ),
                decreases path@.len() - k,
            {
                let ghost ks = path@.skip(k as int);
                assert(w@.skip(i as int)[0] == w@[i as int]);
                assert(w@.skip(i as int).skip(1) =~= w@.skip(i + 1));
                assert(ks.skip(1) =~= path@.skip(k + 1));
                if positional_from(w, next, path, k) {
                    return true;
                }
                k += 1;
            }
            let ghost ks = path@.skip(k as int);
            assert(w@.skip(i as int)[0] == w@[i as int]);
            assert(w@.skip(i as int).skip(1) =~= w@.skip(i + 1));
            assert(ks.len() == 0);
            positional_from(w, next, path, k)
        },
    }
}

/// Whether the path contains the node `n`.
fn contains_node(path: &[RouterId], n: RouterId) -> (r: bool)
    ensures
        r == path@.contains(n),
{
    let mut i: usize = 0;
    while i < path.len()
        invariant
            i <= path@.len(),
            forall|k: int| 0 <= k < i ==> path@[k] != n,
        decreases path@.len() - i,
    {
        if path[i] == n {
            return true;
        }
        i += 1;
    }
    false
}

/// Whether the path traverses the edge from `a` to `b`.
fn contains_edge(path: &[RouterId], a: RouterId, b: RouterId) -> (r: bool)
    ensures
        r == traverses_edge(path@, a, b),
{
    let mut i: usize = 0;
    while i < path.len() && i + 1 < path.len()
        invariant
            i <= path@.len(),
            forall|k: int| 0 <= k < i && k + 1 < path@.len() ==> !(#[trigger] path@[k] == a && path@[k + 1] == b),
        decreases path@.len() - i,
    {
        if path[i] == a && path[i + 1] == b {
            return true;
        }
        i += 1;
    }
    false
}

impl PathCondition {
    /// Whether the path satisfies the condition.
    pub fn holds(&self, path: &[RouterId]) -> (r: bool)
        ensures
            r == self.sat(path@),
        decreases self,
    {
        match self {
            PathCondition::And(v) => {
                let mut j: usize = 0;
                while j < v.len()
                    invariant
                        j <= v@.len(),
                        *self == PathCondition::And(*v),
                        forall|k: int| 0 <= k < j ==> (#[trigger] v@[k]).sat(path@),
                    decreases v@.len() - j,
                {
                    proof {
                        assert(decreases_to!(self => self->And_0));
                        assert(decreases_to!(self->And_0 => self->And_0@[j as int]));
                    }
                    if !v[j].holds(path) {
                        return false;
                    }
                    j += 1;
                }
                true
            },
            PathCondition::Or(v) => {
                let mut j: usize = 0;
                while j < v.len()
                    invariant
                        j <= v@.len(),
                        *self == PathCondition::Or(*v),
                        forall|k: int| 0 <= k < j ==> !(#[trigger] v@[k]).sat(path@),
                    decreases v@.len() - j,
                {
                    proof {
                        assert(decreases_to!(self => self->Or_0));
                        assert(decreases_to!(self->Or_0 => self->Or_0@[j as int]));
                    }
                    if v[j].holds(path) {
                        return true;
                    }
                    j += 1;
                }
                false
            },
            PathCondition::Not(c) => !c.holds(path),
            PathCondition::Node(n) => contains_node(path, *n),
            PathCondition::Edge(a, b) => contains_edge(path, *a, *b),
            PathCondition::Positional(w) => {
                proof {
                    assert(w@.skip(0) =~= w@);
                    assert(path@.skip(0) =~= path@);
                }
                positional_from(w, 0, path, 0)
            },
        }
    }

    /// Returns wether the path condition is satisfied, or the error that names the path, the
    /// condition and the prefix.
    pub fn check(&self, path: &[RouterId], prefix: Prefix) -> (r: Result<(), PolicyError>)
        ensures
            r is Ok <==> self.sat(path@),
            r matches Err(e) ==> e matches PolicyError::PathCondition { path: p, condition: c, prefix: q }
                && p@ == path@ && self.same_as(c) && q == prefix,
    {
        if self.holds(path) {
            Ok(())
        } else {
            Err(PolicyError::PathCondition { path: copy_path(path), condition: self.deep_clone(), prefix })
        }
    }
}


/// A group of conditions of a formula in conjunctive normal form: the conditions that must hold,
/// and those that must fail. The group is satisfied if one of them does.
pub type CnfGroup = (Vec<PathCondition>, Vec<PathCondition>);

/// Whether the path `p` satisfies the group: one of the conditions of `t` holds, or one of the
/// conditions of `f` fails.
pub open spec fn group_sat(t: Seq<PathCondition>, f: Seq<PathCondition>, p: Seq<RouterId>) -> bool {
    (exists|k: int| 0 <= k < t.len() && (#[trigger] t[k]).sat(p)) || (exists|k: int|
        0 <= k < f.len() && !(#[trigger] f[k]).sat(p))
}

/// Whether the path `p` satisfies every group of the formula `e`.
pub open spec fn cnf_sat(e: Seq<CnfGroup>, p: Seq<RouterId>) -> bool {
    forall|i: int| 0 <= i < e.len() ==> group_sat((#[trigger] e[i]).0@, e[i].1@, p)
}

/// Whether every condition in the groups of `e` is a single requirement.
pub open spec fn atoms_only(e: Seq<CnfGroup>) -> bool {
    forall|i: int|
        0 <= i < e.len() ==> (forall|k: int| 0 <= k < (#[trigger] e[i]).0@.len() ==> e[i].0@[k].is_atom())
            && (forall|k: int| 0 <= k < e[i].1@.len() ==> e[i].1@[k].is_atom())
}

/// The group `g` is the concatenation of the groups `ga` and `gb`, condition by condition.
pub open spec fn joins(g: CnfGroup, ga: CnfGroup, gb: CnfGroup) -> bool {
    &&& g.0@.len() == ga.0@.len() + gb.0@.len()
    &&& g.1@.len() == ga.1@.len() + gb.1@.len()
    &&& forall|m: int| 0 <= m < ga.0@.len() ==> (#[trigger] ga.0@[m]).same_as(g.0@[m])
    &&& forall|m: int| 0 <= m < gb.0@.len() ==> (#[trigger] gb.0@[m]).same_as(g.0@[ga.0@.len() + m])
    &&& forall|m: int| 0 <= m < ga.1@.len() ==> (#[trigger] ga.1@[m]).same_as(g.1@[m])
    &&& forall|m: int| 0 <= m < gb.1@.len() ==> (#[trigger] gb.1@[m]).same_as(g.1@[ga.1@.len() + m])
}

/// A group that joins two groups is satisfied by the paths that satisfy one of them.
pub proof fn lemma_joins_sat(g: CnfGroup, ga: CnfGroup, gb: CnfGroup, p: Seq<RouterId>)
    requires
        joins(g, ga, gb),
    ensures
        group_sat(g.0@, g.1@, p) == (group_sat(ga.0@, ga.1@, p) || group_sat(gb.0@, gb.1@, p)),
{
    let (t, f) = (g.0@, g.1@);
    let (ta, fa) = (ga.0@, ga.1@);
    let (tb, fb) = (gb.0@, gb.1@);
    assert forall|m: int| 0 <= m < ta.len() implies (#[trigger] ta[m]).sat(p) == t[m].sat(p) by {
        lemma_same_sat(ta[m], t[m], p);
    }
    assert forall|m: int| 0 <= m < tb.len() implies (#[trigger] tb[m]).sat(p) == t[ta.len() + m].sat(p) by {
        lemma_same_sat(tb[m], t[ta.len() + m], p);
    }
    assert forall|m: int| 0 <= m < fa.len() implies (#[trigger] fa[m]).sat(p) == f[m].sat(p) by {
        lemma_same_sat(fa[m], f[m], p);
    }
    assert forall|m: int| 0 <= m < fb.len() implies (#[trigger] fb[m]).sat(p) == f[fa.len() + m].sat(p) by {
        lemma_same_sat(fb[m], f[fa.len() + m], p);
    }
    if exists|k: int| 0 <= k < t.len() && (#[trigger] t[k]).sat(p) {
        let k = choose|k: int| 0 <= k < t.len() && (#[trigger] t[k]).sat(p);
        if k < ta.len() {
            assert(ta[k].sat(p));
        } else {
            assert(tb[k - ta.len()].sat(p));
        }
    }
    if exists|k: int| 0 <= k < f.len() && !(#[trigger] f[k]).sat(p) {
        let k = choose|k: int| 0 <= k < f.len() && !(#[trigger] f[k]).sat(p);
        if k < fa.len() {
            assert(!fa[k].sat(p));
        } else {
            assert(!fb[k - fa.len()].sat(p));
        }
    }
}

/// The pair `(aa, bb)` comes before `(a, b)` among the pairs of a group below `a` or equal to
/// it, and a group below `n`.
pub open spec fn pair_before(aa: int, bb: int, a: int, b: int, n: int) -> bool {
    (0 <= aa < a && 0 <= bb < n) || (aa == a && 0 <= bb < b)
}

/// Every group of `x` before `a` is joined with every group of `e`, and group `a` of `x` with the
/// groups of `e` before `b`, by some group of `r`.
pub open spec fn pairs_joined(r: Seq<CnfGroup>, x: Seq<CnfGroup>, e: Seq<CnfGroup>, a: int, b: int) -> bool {
    forall|aa: int, bb: int|
        #[trigger] pair_before(aa, bb, a, b, e.len() as int) ==> exists|k: int|
            0 <= k < r.len() && joins(#[trigger] r[k], x[aa], e[bb])
}

/// Every group of `r` joins a group of `x` with a group of `e`, as `src` names them.
pub open spec fn joined_from(r: Seq<CnfGroup>, x: Seq<CnfGroup>, e: Seq<CnfGroup>, src: Seq<(int, int)>) -> bool {
    &&& src.len() == r.len()
    &&& forall|k: int|
        0 <= k < r.len() ==> 0 <= (#[trigger] src[k]).0 < x.len() && 0 <= src[k].1 < e.len() && joins(
            r[k],
            x[src[k].0],
            e[src[k].1],
        )
}

/// Adding a group that joins group `a` of `x` with group `b` of `e`.
pub proof fn lemma_pairs_push(r: Seq<CnfGroup>, x: Seq<CnfGroup>, e: Seq<CnfGroup>, a: int, b: int, g: CnfGroup)
    requires
        pairs_joined(r, x, e, a, b),
        joins(g, x[a], e[b]),
    ensures
        pairs_joined(r.push(g), x, e, a, b + 1),
{
    let rr = r.push(g);
    assert forall|aa: int, bb: int| #[trigger] pair_before(aa, bb, a, b + 1, e.len() as int) implies exists|k: int|
        0 <= k < rr.len() && joins(#[trigger] rr[k], x[aa], e[bb]) by {
        if aa == a && bb == b {
            assert(joins(rr[r.len() as int], x[aa], e[bb]));
        } else {
            assert(pair_before(aa, bb, a, b, e.len() as int));
            let k = choose|k: int| 0 <= k < r.len() && joins(#[trigger] r[k], x[aa], e[bb]);
            assert(rr[k] == r[k]);
        }
    }
}

/// Once group `a` of `x` is joined with every group of `e`, the next group of `x` starts.
pub proof fn lemma_pairs_next(r: Seq<CnfGroup>, x: Seq<CnfGroup>, e: Seq<CnfGroup>, a: int)
    requires
        pairs_joined(r, x, e, a, e.len() as int),
    ensures
        pairs_joined(r, x, e, a + 1, 0),
{
    assert forall|aa: int, bb: int| #[trigger] pair_before(aa, bb, a + 1, 0, e.len() as int) implies exists|k: int|
        0 <= k < r.len() && joins(#[trigger] r[k], x[aa], e[bb]) by {
        assert(pair_before(aa, bb, a, e.len() as int, e.len() as int));
    }
}

/// Adding a group keeps the groups that `src` names.
pub proof fn lemma_joined_push(r: Seq<CnfGroup>, x: Seq<CnfGroup>, e: Seq<CnfGroup>, src: Seq<(int, int)>, a: int, b: int, g: CnfGroup)
    requires
        joined_from(r, x, e, src),
        0 <= a < x.len(),
        0 <= b < e.len(),
        joins(g, x[a], e[b]),
    ensures
        joined_from(r.push(g), x, e, src.push((a, b))),
{
    let rr = r.push(g);
    let ss = src.push((a, b));
    assert forall|k: int| 0 <= k < rr.len() implies 0 <= (#[trigger] ss[k]).0 < x.len() && 0 <= ss[k].1 < e.len()
        && joins(rr[k], x[ss[k].0], e[ss[k].1]) by {
        if k < r.len() {
            assert(ss[k] == src[k]);
            assert(rr[k] == r[k]);
        }
    }
}

/// The groups of `r` join every group of `x` with every group of `e`, and nothing else: `r`
/// holds exactly where `x` or `e` does.
pub proof fn lemma_product_sat(r: Seq<CnfGroup>, x: Seq<CnfGroup>, e: Seq<CnfGroup>, src: Seq<(int, int)>)
    requires
        joined_from(r, x, e, src),
        pairs_joined(r, x, e, x.len() as int, 0),
    ensures
        forall|p: Seq<RouterId>| #[trigger] cnf_sat(r, p) == (cnf_sat(x, p) || cnf_sat(e, p)),
{
    assert forall|p: Seq<RouterId>| #[trigger] cnf_sat(r, p) == (cnf_sat(x, p) || cnf_sat(e, p)) by {
        if cnf_sat(x, p) || cnf_sat(e, p) {
            assert forall|k: int| 0 <= k < r.len() implies group_sat((#[trigger] r[k]).0@, r[k].1@, p) by {
                let (a, b) = src[k];
                lemma_joins_sat(r[k], x[a], e[b], p);
                assert(group_sat(x[a].0@, x[a].1@, p) || group_sat(e[b].0@, e[b].1@, p));
            }
        }
        if cnf_sat(r, p) && !cnf_sat(x, p) {
            let a = choose|a: int| 0 <= a < x.len() && !group_sat((#[trigger] x[a]).0@, x[a].1@, p);
            assert forall|b: int| 0 <= b < e.len() implies group_sat((#[trigger] e[b]).0@, e[b].1@, p) by {
                assert(pair_before(a, b, x.len() as int, 0, e.len() as int));
                let k = choose|k: int| 0 <= k < r.len() && joins(#[trigger] r[k], x[a], e[b]);
                lemma_joins_sat(r[k], x[a], e[b], p);
                assert(group_sat(r[k].0@, r[k].1@, p));
            }
        }
    }
}

/// Copies the conditions of `s1` followed by those of `s2`.
fn concat_conditions(s1: &Vec<PathCondition>, s2: &Vec<PathCondition>) -> (r: Vec<PathCondition>)
    ensures
        r@.len() == s1@.len() + s2@.len(),
        forall|m: int| 0 <= m < s1@.len() ==> (#[trigger] s1@[m]).same_as(r@[m]),
        forall|m: int| 0 <= m < s2@.len() ==> (#[trigger] s2@[m]).same_as(r@[s1@.len() + m]),
{
    let mut r = clone_conditions(s1);
    let mut j: usize = 0;
    while j < s2.len()
        invariant
            j <= s2@.len(),
            r@.len() == s1@.len() + j,
            forall|m: int| 0 <= m < s1@.len() ==> (#[trigger] s1@[m]).same_as(r@[m]),
            forall|m: int| 0 <= m < j ==> (#[trigger] s2@[m]).same_as(r@[s1@.len() + m]),
        decreases s2@.len() - j,
    {
        r.push(s2[j].deep_clone());
        j += 1;
    }
    r
}

/// Combines two formulas in conjunctive normal form into one that holds where one of them does,
/// by joining every group of `x` with every group of `e`.
fn cnf_product(x: &Vec<CnfGroup>, e: &Vec<CnfGroup>) -> (r: Vec<CnfGroup>)
    requires
        atoms_only(x@),
        atoms_only(e@),
    ensures
        forall|p: Seq<RouterId>| #[trigger] cnf_sat(r@, p) == (cnf_sat(x@, p) || cnf_sat(e@, p)),
        atoms_only(r@),
{
    let mut r: Vec<CnfGroup> = Vec::new();
    let ghost mut src: Seq<(int, int)> = Seq::empty();
    let mut a: usize = 0;
    while a < x.len()
        invariant
            a <= x@.len(),
            atoms_only(x@),
            atoms_only(e@),
            atoms_only(r@),
            joined_from(r@, x@, e@, src),
            pairs_joined(r@, x@, e@, a as int, 0),
        decreases x@.len() - a,
    {
        let mut b: usize = 0;
        while b < e.len()
            invariant
                a < x@.len(),
                b <= e@.len(),
                atoms_only(x@),
                atoms_only(e@),
                atoms_only(r@),
                joined_from(r@, x@, e@, src),
                pairs_joined(r@, x@, e@, a as int, b as int),
            decreases e@.len() - b,
        {
            let t = concat_conditions(&x[a].0, &e[b].0);
            let f = concat_conditions(&x[a].1, &e[b].1);
            proof {
                assert forall|m: int| 0 <= m < t@.len() implies (#[trigger] t@[m]).is_atom() by {
                    if m < x@[a as int].0@.len() {
                        assert(x@[a as int].0@[m].same_as(t@[m]));
                    } else {
                        assert(e@[b as int].0@[m - x@[a as int].0@.len()].same_as(t@[m]));
                    }
                }
                assert forall|m: int| 0 <= m < f@.len() implies (#[trigger] f@[m]).is_atom() by {
                    if m < x@[a as int].1@.len() {
                        assert(x@[a as int].1@[m].same_as(f@[m]));
                    } else {
                        assert(e@[b as int].1@[m - x@[a as int].1@.len()].same_as(f@[m]));
                    }
                }
                assert(joins((t, f), x@[a as int], e@[b as int]));
                lemma_pairs_push(r@, x@, e@, a as int, b as int, (t, f));
                lemma_joined_push(r@, x@, e@, src, a as int, b as int, (t, f));
                src = src.push((a as int, b as int));
            }
            r.push((t, f));
            b += 1;
        }
        proof {
            lemma_pairs_next(r@, x@, e@, a as int);
        }
        a += 1;
    }
    proof {
        lemma_product_sat(r@, x@, e@, src);
    }
    r
}


/// A formula is satisfied where both of its parts are.
pub proof fn lemma_cnf_concat(a: Seq<CnfGroup>, b: Seq<CnfGroup>, p: Seq<RouterId>)
    ensures
        cnf_sat(a + b, p) == (cnf_sat(a, p) && cnf_sat(b, p)),
{
    let ab = a + b;
    if cnf_sat(a, p) && cnf_sat(b, p) {
        assert forall|i: int| 0 <= i < ab.len() implies group_sat((#[trigger] ab[i]).0@, ab[i].1@, p) by {
            if i < a.len() {
                assert(ab[i] == a[i]);
            } else {
                assert(ab[i] == b[i - a.len()]);
            }
        }
    }
    if cnf_sat(ab, p) {
        assert forall|i: int| 0 <= i < a.len() implies group_sat((#[trigger] a[i]).0@, a[i].1@, p) by {
            assert(ab[i] == a[i]);
        }
        assert forall|i: int| 0 <= i < b.len() implies group_sat((#[trigger] b[i]).0@, b[i].1@, p) by {
            assert(ab[a.len() + i] == b[i]);
        }
    }
}

/// A formula of a single group with the single condition `c`, which must hold (or, if `neg`,
/// fail).
fn single_group(c: PathCondition, neg: bool) -> (r: Vec<CnfGroup>)
    requires
        c.is_atom(),
    ensures
        forall|p: Seq<RouterId>| #[trigger] cnf_sat(r@, p) == (c.sat(p) != neg),
        atoms_only(r@),
{
    let mut one: Vec<PathCondition> = Vec::new();
    one.push(c);
    let g: CnfGroup = if neg { (Vec::new(), one) } else { (one, Vec::new()) };
    let mut r: Vec<CnfGroup> = Vec::new();
    r.push(g);
    proof {
        assert forall|p: Seq<RouterId>| #[trigger] cnf_sat(r@, p) == (c.sat(p) != neg) by {
            assert(r@[0] == g);
            if neg {
                assert(g.1@[0] == c);
            } else {
                assert(g.0@[0] == c);
            }
        }
    }
    r
}

impl PathCondition {
    /// Converts the condition (or, if `neg`, its negation) into conjunctive normal form: the
    /// result is satisfied by exactly the paths that satisfy the condition (or its negation), and
    /// all its groups hold single requirements. A conjunction concatenates the groups of its
    /// operands; a disjunction joins each group of one operand with each of the next; a negation
    /// converts its operand with the negation flipped.
    #[verifier::loop_isolation(false)]
    pub fn into_cnf_recursive(self, neg: bool) -> (r: Vec<CnfGroup>)
        ensures
            forall|p: Seq<RouterId>| #[trigger] cnf_sat(r@, p) == (self.sat(p) != neg),
            atoms_only(r@),
        decreases self,
    {
        let ghost orig = self;
        let is_and = match &self {
            PathCondition::And(_) => true,
            _ => false,
        };
        match self {
            PathCondition::Not(c) => {
                let r = (*c).into_cnf_recursive(!neg);
                r
            },
            PathCondition::And(v) | PathCondition::Or(v) => {
                let ghost v0 = v;
                let ghost vs = v@;
                proof {
                    if is_and {
                        assert(decreases_to!(orig => orig->And_0));
                    } else {
                        assert(decreases_to!(orig => orig->Or_0));
                    }
                    assert(v0.len() == vs.len());
                }
                let mut v = v;
                if is_and != neg {
                    // every operand must hold (or fail): concatenate their groups
                    let mut r: Vec<CnfGroup> = Vec::new();
                    let mut done: usize = 0;
                    while v.len() > 0
                        invariant
                            done <= vs.len(),
                            v@ == vs.skip(done as int),
                            decreases_to!(orig => v0),
                            v0@ == vs,
                            vs.len() <= usize::MAX,
                            atoms_only(r@),
                            forall|p: Seq<RouterId>| #[trigger] cnf_sat(r@, p) == (forall|k: int|
                                0 <= k < done ==> (#[trigger] vs[k]).sat(p) != neg),
                        decreases v@.len(),
                    {
                        let ghost before = v@;
                        let x = v.remove(0);
                        proof {
                            assert(x == vs[done as int]);
                            assert(decreases_to!(v0 => v0@[done as int]));
                            assert(decreases_to!(orig => x));
                        }
                        let ghost r_old = r@;
                        let mut g = x.into_cnf_recursive(neg);
                        let ghost gv = g@;
                        r.append(&mut g);
                        proof {
                            assert(v@ =~= vs.skip(done + 1));
                            assert forall|p: Seq<RouterId>| #[trigger] cnf_sat(r@, p) == (forall|k: int|
                                0 <= k < done + 1 ==> (#[trigger] vs[k]).sat(p) != neg) by {
                                lemma_cnf_concat(r_old, gv, p);
                                if forall|k: int| 0 <= k < done + 1 ==> (#[trigger] vs[k]).sat(p) != neg {
                                    assert(vs[done as int].sat(p) != neg);
                                }
                            }
                        }
                        done += 1;
                    }
                    proof {
                        assert forall|p: Seq<RouterId>| #[trigger] cnf_sat(r@, p) == (orig.sat(p) != neg) by {
                            if is_and {
                                assert(orig == PathCondition::And(v0));
                            } else {
                                assert(orig == PathCondition::Or(v0));
                            }
                        }
                    }
                    r
                } else {
                    // some operand must hold (or fail): join the groups of the operands
                    if v.len() == 0 {
                        let mut r: Vec<CnfGroup> = Vec::new();
                        r.push((Vec::new(), Vec::new()));
                        proof {
                            assert forall|p: Seq<RouterId>| #[trigger] cnf_sat(r@, p) == (orig.sat(p) != neg) by {
                                assert(!group_sat(r@[0].0@, r@[0].1@, p));
                            }
                        }
                        return r;
                    }
                    let x = v.remove(0);
                    proof {
                        assert(x == vs[0]);
                        assert(decreases_to!(v0 => v0@[0]));
                        assert(decreases_to!(orig => x));
                    }
                    let mut acc = x.into_cnf_recursive(neg);
                    let mut done: usize = 1;
                    proof {
                        assert forall|p: Seq<RouterId>| #[trigger] cnf_sat(acc@, p) == (exists|k: int|
                            0 <= k < done && (#[trigger] vs[k]).sat(p) != neg) by {
                            if cnf_sat(acc@, p) {
                                assert(vs[0].sat(p) != neg);
                            }
                        }
                    }
                    while v.len() > 0
                        invariant
                            1 <= done <= vs.len(),
                            v@ == vs.skip(done as int),
                            decreases_to!(orig => v0),
                            v0@ == vs,
                            vs.len() <= usize::MAX,
                            atoms_only(acc@),
                            forall|p: Seq<RouterId>| #[trigger] cnf_sat(acc@, p) == (exists|k: int|
                                0 <= k < done && (#[trigger] vs[k]).sat(p) != neg),
                        decreases v@.len(),
                    {
                        let y = v.remove(0);
                        proof {
                            assert(y == vs[done as int]);
                            assert(decreases_to!(v0 => v0@[done as int]));
                            assert(decreases_to!(orig => y));
                        }
                        let e = y.into_cnf_recursive(neg);
                        let ghost acc_old = acc@;
                        acc = cnf_product(&acc, &e);
                        proof {
                            assert(v@ =~= vs.skip(done + 1));
                            assert forall|p: Seq<RouterId>| #[trigger] cnf_sat(acc@, p) == (exists|k: int|
                                0 <= k < done + 1 && (#[trigger] vs[k]).sat(p) != neg) by {
                                assert(cnf_sat(acc_old, p) == (exists|k: int|
                                    0 <= k < done && (#[trigger] vs[k]).sat(p) != neg));
                                if exists|k: int| 0 <= k < done + 1 && (#[trigger] vs[k]).sat(p) != neg {
                                    let k = choose|k: int| 0 <= k < done + 1 && (#[trigger] vs[k]).sat(p) != neg;
                                    if k < done {
                                        assert(cnf_sat(acc_old, p));
                                    } else {
                                        assert(cnf_sat(e@, p));
                                    }
                                }
                                if cnf_sat(e@, p) {
                                    assert(vs[done as int].sat(p) != neg);
                                }
                            }
                        }
                        done += 1;
                    }
                    proof {
                        assert forall|p: Seq<RouterId>| #[trigger] cnf_sat(acc@, p) == (orig.sat(p) != neg) by {
                            if is_and {
                                assert(orig == PathCondition::And(v0));
                            } else {
                                assert(orig == PathCondition::Or(v0));
                            }
                        }
                    }
                    acc
                }
            },
            atom => single_group(atom, neg),
        }
    }
}


impl PathCondition {
    /// Converts the condition into conjunctive normal form: the result is satisfied by exactly
    /// the paths that satisfy the condition.
    pub fn into_cnf(self) -> (r: PathConditionCNF)
        ensures
            forall|p: Seq<RouterId>| #[trigger] cnf_sat(r.e@, p) == self.sat(p),
            r.is_cnf == nodes_and_edges_only(r.e@),
    {
        PathConditionCNF::new(self.into_cnf_recursive(false))
    }
}

/// Whether every condition in the groups of `e` requires a node or an edge.
pub open spec fn nodes_and_edges_only(e: Seq<CnfGroup>) -> bool {
    forall|i: int|
        0 <= i < e.len() ==> (forall|k: int|
            0 <= k < (#[trigger] e[i]).0@.len() ==> (e[i].0@[k] is Node || e[i].0@[k] is Edge))
            && (forall|k: int| 0 <= k < e[i].1@.len() ==> (e[i].1@[k] is Node || e[i].1@[k] is Edge))
}

/// Whether the condition `c` is the disjunction of the group `g`: the negations of the conditions
/// that must fail, followed by the conditions that must hold.
pub open spec fn group_condition(c: PathCondition, g: CnfGroup) -> bool {
    &&& c is Or
    &&& c->Or_0@.len() == g.1@.len() + g.0@.len()
    &&& forall|k: int| 0 <= k < g.1@.len() ==> (#[trigger] c->Or_0@[k]) is Not
        && g.1@[k].same_as(*c->Or_0@[k]->Not_0)
    &&& forall|k: int| 0 <= k < g.0@.len() ==> (#[trigger] g.0@[k]).same_as(c->Or_0@[g.1@.len() + k])
}

/// Whether the condition `c` is the conjunction of the disjunctions of the groups of `e`.
pub open spec fn condition_of(c: PathCondition, e: Seq<CnfGroup>) -> bool {
    &&& c is And
    &&& c->And_0@.len() == e.len()
    &&& forall|i: int| 0 <= i < e.len() ==> group_condition(#[trigger] c->And_0@[i], e[i])
}

/// The disjunction of a group is satisfied by the paths that satisfy the group.
proof fn lemma_group_condition_sat(c: PathCondition, g: CnfGroup, p: Seq<RouterId>)
    requires
        group_condition(c, g),
    ensures
        c.sat(p) == group_sat(g.0@, g.1@, p),
{
    let w = c->Or_0@;
    let nf = g.1@.len();
    assert forall|k: int| 0 <= k < nf implies (#[trigger] w[k]).sat(p) == !g.1@[k].sat(p) by {
        lemma_same_sat(g.1@[k], *w[k]->Not_0, p);
    }
    assert forall|k: int| 0 <= k < g.0@.len() implies (#[trigger] g.0@[k]).sat(p) == w[nf + k].sat(p) by {
        lemma_same_sat(g.0@[k], w[nf + k], p);
    }
    if c.sat(p) {
        let j = choose|j: int| 0 <= j < w.len() && (#[trigger] w[j]).sat(p);
        if j < nf {
            assert(!g.1@[j].sat(p));
        } else {
            assert(g.0@[j - nf].sat(p));
        }
    }
    if exists|k: int| 0 <= k < g.0@.len() && (#[trigger] g.0@[k]).sat(p) {
        let k = choose|k: int| 0 <= k < g.0@.len() && (#[trigger] g.0@[k]).sat(p);
        assert(w[nf + k].sat(p));
    }
    if exists|k: int| 0 <= k < g.1@.len() && !(#[trigger] g.1@[k]).sat(p) {
        let k = choose|k: int| 0 <= k < g.1@.len() && !(#[trigger] g.1@[k]).sat(p);
        assert(w[k].sat(p));
    }
}

/// The conjunction of the disjunctions of a formula's groups is satisfied by the paths that
/// satisfy the formula.
pub proof fn lemma_condition_of_sat(c: PathCondition, e: Seq<CnfGroup>, p: Seq<RouterId>)
    requires
        condition_of(c, e),
    ensures
        c.sat(p) == cnf_sat(e, p),
{
    let v = c->And_0@;
    assert forall|i: int| 0 <= i < e.len() implies (#[trigger] v[i]).sat(p) == group_sat(
        e[i].0@,
        e[i].1@,
        p,
    ) by {
        lemma_group_condition_sat(v[i], e[i], p);
    }
    if !c.sat(p) {
        let j = choose|j: int| 0 <= j < v.len() && !(#[trigger] v[j]).sat(p);
        assert(!group_sat(e[j].0@, e[j].1@, p));
    }
    if !cnf_sat(e, p) {
        let j = choose|j: int| 0 <= j < e.len() && !group_sat((#[trigger] e[j]).0@, e[j].1@, p);
        assert(!v[j].sat(p));
    }
}

/// Whether the groups of `b` are copies of those of `a`, condition by condition.
pub open spec fn same_groups(a: Seq<CnfGroup>, b: Seq<CnfGroup>) -> bool {
    &&& a.len() == b.len()
    &&& forall|i: int| #![trigger a[i]] 0 <= i < a.len() ==> {
        &&& a[i].0@.len() == b[i].0@.len()
        &&& a[i].1@.len() == b[i].1@.len()
        &&& forall|k: int| 0 <= k < a[i].0@.len() ==> (#[trigger] a[i].0@[k]).same_as(b[i].0@[k])
        &&& forall|k: int| 0 <= k < a[i].1@.len() ==> (#[trigger] a[i].1@[k]).same_as(b[i].1@[k])
    }
}

/// Copies every group of `e`.
fn clone_groups(e: &Vec<CnfGroup>) -> (r: Vec<CnfGroup>)
    ensures
        same_groups(e@, r@),
{
    let mut r: Vec<CnfGroup> = Vec::new();
    let mut i: usize = 0;
    while i < e.len()
        invariant
            i <= e@.len(),
            r@.len() == i,
            forall|j: int| #![trigger e@[j]] 0 <= j < i ==> {
                &&& e@[j].0@.len() == r@[j].0@.len()
                &&& e@[j].1@.len() == r@[j].1@.len()
                &&& forall|k: int| 0 <= k < e@[j].0@.len() ==> (#[trigger] e@[j].0@[k]).same_as(r@[j].0@[k])
                &&& forall|k: int| 0 <= k < e@[j].1@.len() ==> (#[trigger] e@[j].1@[k]).same_as(r@[j].1@[k])
            },
        decreases e@.len() - i,
    {
        let t = clone_conditions(&e[i].0);
        let f = clone_conditions(&e[i].1);
        r.push((t, f));
        i += 1;
    }
    r
}

/// Copies of the same conditions are satisfied by the same paths.
pub proof fn lemma_same_groups_sat(a: Seq<CnfGroup>, b: Seq<CnfGroup>, p: Seq<RouterId>)
    requires
        same_groups(a, b),
    ensures
        cnf_sat(a, p) == cnf_sat(b, p),
{
    assert forall|i: int| 0 <= i < a.len() implies group_sat((#[trigger] a[i]).0@, a[i].1@, p)
        == group_sat(b[i].0@, b[i].1@, p) by {
        assert forall|k: int| 0 <= k < a[i].0@.len() implies (#[trigger] a[i].0@[k]).sat(p)
            == b[i].0@[k].sat(p) by {
            lemma_same_sat(a[i].0@[k], b[i].0@[k], p);
        }
        assert forall|k: int| 0 <= k < a[i].1@.len() implies (#[trigger] a[i].1@[k]).sat(p)
            == b[i].1@[k].sat(p) by {
            lemma_same_sat(a[i].1@[k], b[i].1@[k], p);
        }
        if group_sat(a[i].0@, a[i].1@, p) {
            if exists|k: int| 0 <= k < a[i].0@.len() && (#[trigger] a[i].0@[k]).sat(p) {
                let k = choose|k: int| 0 <= k < a[i].0@.len() && (#[trigger] a[i].0@[k]).sat(p);
                assert(b[i].0@[k].sat(p));
            } else {
                let k = choose|k: int| 0 <= k < a[i].1@.len() && !(#[trigger] a[i].1@[k]).sat(p);
                assert(!b[i].1@[k].sat(p));
            }
        }
        if group_sat(b[i].0@, b[i].1@, p) {
            if exists|k: int| 0 <= k < b[i].0@.len() && (#[trigger] b[i].0@[k]).sat(p) {
                let k = choose|k: int| 0 <= k < b[i].0@.len() && (#[trigger] b[i].0@[k]).sat(p);
                assert(a[i].0@[k].sat(p));
            } else {
                let k = choose|k: int| 0 <= k < b[i].1@.len() && !(#[trigger] b[i].1@[k]).sat(p);
                assert(!a[i].1@[k].sat(p));
            }
        }
    }
    if !cnf_sat(a, p) {
        let i = choose|i: int| 0 <= i < a.len() && !group_sat((#[trigger] a[i]).0@, a[i].1@, p);
        assert(!group_sat(b[i].0@, b[i].1@, p));
    }
    if !cnf_sat(b, p) {
        let i = choose|i: int| 0 <= i < b.len() && !group_sat((#[trigger] b[i]).0@, b[i].1@, p);
        assert(!group_sat(a[i].0@, a[i].1@, p));
    }
}

/// Path Condition, expressed in Conjunctive Normal Form (CNF), which is a product of sums, or in
/// other words, an AND of ORs.
/// There might be cases, where the PathCondition cannot fully be expressed as a CNF. This is the
/// case if positional requirements are used (like requiring the path * A * B *). In this case,
/// is_cnf is set to false.
#[derive(Debug, PartialEq, Eq, Hash)]
pub struct PathConditionCNF {
    /// Expression in the CNF form. The first vector contains all groups, which are finally combined
    /// with a logical AND. Every group consists of two vectors, the first containing the non-
    /// negated parts, and the second contains the negated parts, which are finally OR-ed together.
    pub e: Vec<CnfGroup>,
    /// Whether every condition of the groups requires a node or an edge.
    pub is_cnf: bool,
}

/// Whether every condition of `v` requires a node or an edge.
fn nodes_or_edges(v: &Vec<PathCondition>) -> (r: bool)
    ensures
        r == forall|k: int| 0 <= k < v@.len() ==> (v@[k] is Node || v@[k] is Edge),
{
    let mut k: usize = 0;
    while k < v.len()
        invariant
            k <= v@.len(),
            forall|m: int| 0 <= m < k ==> (v@[m] is Node || v@[m] is Edge),
        decreases v@.len() - k,
    {
        match &v[k] {
            PathCondition::Node(_) | PathCondition::Edge(_, _) => {},
            _ => {
                return false;
            },
        }
        k += 1;
    }
    true
}

/// Whether every condition of the groups of `e` requires a node or an edge.
fn all_nodes_or_edges(e: &Vec<CnfGroup>) -> (r: bool)
    ensures
        r == nodes_and_edges_only(e@),
{
    let mut i: usize = 0;
    while i < e.len()
        invariant
            i <= e@.len(),
            forall|j: int| #![trigger e@[j]] 0 <= j < i ==> (forall|k: int|
                0 <= k < e@[j].0@.len() ==> (e@[j].0@[k] is Node || e@[j].0@[k] is Edge))
                && (forall|k: int| 0 <= k < e@[j].1@.len() ==> (e@[j].1@[k] is Node || e@[j].1@[k] is Edge)),
        decreases e@.len() - i,
    {
        if !nodes_or_edges(&e[i].0) || !nodes_or_edges(&e[i].1) {
            return false;
        }
        i += 1;
    }
    true
}

impl PathConditionCNF {
    /// Generate a new PathCondition in Conjunctive Normal Form (CNF).
    pub fn new(e: Vec<CnfGroup>) -> (r: Self)
        ensures
            r.e@ == e@,
            r.is_cnf == nodes_and_edges_only(e@),
    {
        let is_cnf = all_nodes_or_edges(&e);
        Self { e, is_cnf }
    }

    /// Returns true if the path condition is a valid cnf, and does not contain any positional path
    /// requirements
    pub fn is_cnf(&self) -> (r: bool)
        ensures
            r == self.is_cnf,
    {
        self.is_cnf
    }

    /// The condition that holds where the formula does: the conjunction, over the groups, of the
    /// disjunction of the negated conditions that must fail and the conditions that must hold.
    pub fn into_condition(self) -> (r: PathCondition)
        ensures
            condition_of(r, self.e@),
            forall|p: Seq<RouterId>| #[trigger] r.sat(p) == cnf_sat(self.e@, p),
    {
        let ghost e0 = self.e@;
        let mut e = self.e;
        let mut groups: Vec<PathCondition> = Vec::new();
        let mut i: usize = 0;
        proof {
            vstd::std_specs::vec::axiom_spec_len(&e);
        }
        while e.len() > 0
            invariant
                i <= e0.len(),
                e0.len() <= usize::MAX,
                e@ == e0.skip(i as int),
                groups@.len() == i,
                forall|j: int| 0 <= j < i ==> group_condition(#[trigger] groups@[j], e0[j]),
            decreases e@.len(),
        {
            let (vt, vf) = e.remove(0);
            proof {
                assert(e0.skip(i as int)[0] == e0[i as int]);
            }
            let ghost g = e0[i as int];
            let mut w: Vec<PathCondition> = Vec::new();
            let mut vf = vf;
            let mut k: usize = 0;
            proof {
                vstd::std_specs::vec::axiom_spec_len(&vf);
            }
            while vf.len() > 0
                invariant
                    k <= g.1@.len(),
                    g.1@.len() <= usize::MAX,
                    vf@ == g.1@.skip(k as int),
                    w@.len() == k,
                    forall|m: int| 0 <= m < k ==> (#[trigger] w@[m]) is Not && g.1@[m].same_as(
                        *w@[m]->Not_0,
                    ),
                decreases vf@.len(),
            {
                let c = vf.remove(0);
                proof {
                    assert(g.1@.skip(k as int)[0] == g.1@[k as int]);
                }
                let d = c.deep_clone();
                w.push(PathCondition::Not(Box::new(d)));
                proof {
                    assert(vf@ =~= g.1@.skip(k + 1));
                }
                k += 1;
            }
            let nf = k;
            let mut vt = vt;
            let mut k: usize = 0;
            proof {
                vstd::std_specs::vec::axiom_spec_len(&vt);
            }
            while vt.len() > 0
                invariant
                    k <= g.0@.len(),
                    g.0@.len() <= usize::MAX,
                    nf == g.1@.len(),
                    vt@ == g.0@.skip(k as int),
                    w@.len() == nf + k,
                    forall|m: int| 0 <= m < nf ==> (#[trigger] w@[m]) is Not && g.1@[m].same_as(
                        *w@[m]->Not_0,
                    ),
                    forall|m: int| 0 <= m < k ==> (#[trigger] g.0@[m]).same_as(w@[nf + m]),
                decreases vt@.len(),
            {
                let c = vt.remove(0);
                proof {
                    assert(g.0@.skip(k as int)[0] == g.0@[k as int]);
                }
                let d = c.deep_clone();
                w.push(d);
                proof {
                    assert(vt@ =~= g.0@.skip(k + 1));
                }
                k += 1;
            }
            groups.push(PathCondition::Or(w));
            proof {
                assert(e@ =~= e0.skip(i + 1));
            }
            i += 1;
        }
        let r = PathCondition::And(groups);
        proof {
            assert forall|p: Seq<RouterId>| #[trigger] r.sat(p) == cnf_sat(e0, p) by {
                lemma_condition_of_sat(r, e0, p);
            }
        }
        r
    }

    /// A copy of the formula, with every condition copied.
    pub fn deep_clone(&self) -> (r: Self)
        ensures
            same_groups(self.e@, r.e@),
            r.is_cnf == self.is_cnf,
    {
        PathConditionCNF { e: clone_groups(&self.e), is_cnf: self.is_cnf }
    }

    /// Returns wether the path condition is satisfied, or the error that names the path, the
    /// formula as a condition, and the prefix.
    pub fn check(&self, path: &[RouterId], prefix: Prefix) -> (r: Result<(), PolicyError>)
        ensures
            r is Ok <==> cnf_sat(self.e@, path@),
            r matches Err(e) ==> e matches PolicyError::PathCondition { path: p, condition: c, prefix: q }
                && p@ == path@ && q == prefix && forall|s: Seq<RouterId>| #[trigger] c.sat(s)
                == cnf_sat(self.e@, s),
    {
        let mut i: usize = 0;
        let mut ok = true;
        while i < self.e.len()
            invariant
                i <= self.e@.len(),
                ok == forall|j: int| 0 <= j < i ==> group_sat(
                    (#[trigger] self.e@[j]).0@,
                    self.e@[j].1@,
                    path@,
                ),
            decreases self.e@.len() - i,
        {
            let g = &self.e[i];
            if ok && !group_holds(&g.0, &g.1, path) {
                ok = false;
            }
            i += 1;
        }
        if ok {
            Ok(())
        } else {
            let ghost e0 = self.e@;
            let c = self.deep_clone();
            let cond = c.into_condition();
            proof {
                assert forall|s: Seq<RouterId>| #[trigger] cond.sat(s) == cnf_sat(e0, s) by {
                    lemma_same_groups_sat(e0, c.e@, s);
                }
            }
            Err(PolicyError::PathCondition { path: copy_path(path), condition: cond, prefix })
        }
    }
}

/// Whether the path satisfies the group of the conditions `vt`, one of which must hold, and `vf`,
/// one of which must fail.
fn group_holds(vt: &Vec<PathCondition>, vf: &Vec<PathCondition>, path: &[RouterId]) -> (r: bool)
    ensures
        r == group_sat(vt@, vf@, path@),
{
    let mut k: usize = 0;
    while k < vt.len()
        invariant
            k <= vt@.len(),
            forall|m: int| 0 <= m < k ==> !(#[trigger] vt@[m]).sat(path@),
        decreases vt@.len() - k,
    {
        if vt[k].holds(path) {
            return true;
        }
        k += 1;
    }
    let mut k: usize = 0;
    while k < vf.len()
        invariant
            k <= vf@.len(),
            forall|m: int| 0 <= m < vt@.len() ==> !(#[trigger] vt@[m]).sat(path@),
            forall|m: int| 0 <= m < k ==> (#[trigger] vf@[m]).sat(path@),
        decreases vf@.len() - k,
    {
        if !vf[k].holds(path) {
            return true;
        }
        k += 1;
    }
    false
}

/// Condition that can be checked for either being true or false.
#[derive(Debug, PartialEq, Eq, Hash)]
pub enum Condition {
    /// Condition that a router can reach a prefix, with optional conditions to the path that is
    /// taken.
    Reachable(RouterId, Prefix, Option<PathCondition>),
    /// Condition that the rotuer cannot reach the prefix, which means that there exists a black
    /// hole somewhere in between the path.
    NotReachable(RouterId, Prefix),
    /// Condition that the router has a route towards the prefix, even if every possible link in
    /// the network fails. Optionally, you can pass in a path condition, requiring the path when
    /// one of the links fail.
    Reliable(RouterId, Prefix, Option<PathCondition>),
    /// Condition on the path during transient state
    TransientPath(RouterId, Prefix, PathCondition),
}

/// Whether the optional path conditions are the same.
pub open spec fn same_option(a: Option<PathCondition>, b: Option<PathCondition>) -> bool {
    match (a, b) {
        (None, None) => true,
        (Some(x), Some(y)) => x.same_as(y),
        _ => false,
    }
}

/// Copies the optional path condition.
fn clone_option(c: &Option<PathCondition>) -> (r: Option<PathCondition>)
    ensures
        same_option(*c, r),
{
    match c {
        Some(x) => Some(x.deep_clone()),
        None => None,
    }
}

/// Whether the outcome of following the forwarding state is one that a reachability condition
/// can judge: a path that reaches the prefix, a forwarding loop that returns to a router it has
/// visited, or a black hole after at least one router.
pub open spec fn judged_route(route: Result<Vec<RouterId>, NetworkError>) -> bool {
    match route {
        Ok(_) => true,
        Err(NetworkError::ForwardingLoop(p)) => loops_back(p@),
        Err(NetworkError::ForwardingBlackHole(p)) => p@.len() > 0,
        Err(_) => false,
    }
}

/// Whether the outcome of following the forwarding state is a route that reaches the prefix, a
/// forwarding loop or a black hole.
pub open spec fn reaches_or_fails(route: Result<Vec<RouterId>, NetworkError>) -> bool {
    route matches Ok(_) || route matches Err(NetworkError::ForwardingLoop(_)) || route matches Err(
        NetworkError::ForwardingBlackHole(_),
    )
}

impl Condition {
    /// Whether `self` and `other` are the same condition, part by part.
    pub open spec fn same_as(self, other: Condition) -> bool {
        match (self, other) {
            (Condition::Reachable(r, p, c), Condition::Reachable(s, q, d)) => r == s && p == q
                && same_option(c, d),
            (Condition::NotReachable(r, p), Condition::NotReachable(s, q)) => r == s && p == q,
            (Condition::Reliable(r, p, c), Condition::Reliable(s, q, d)) => r == s && p == q
                && same_option(c, d),
            (Condition::TransientPath(r, p, c), Condition::TransientPath(s, q, d)) => r == s && p
                == q && c.same_as(d),
            _ => false,
        }
    }

    /// A copy of the condition, with its path condition copied.
    pub fn deep_clone(&self) -> (r: Condition)
        ensures
            self.same_as(r),
    {
        match self {
            Condition::Reachable(r, p, c) => Condition::Reachable(*r, *p, clone_option(c)),
            Condition::NotReachable(r, p) => Condition::NotReachable(*r, *p),
            Condition::Reliable(r, p, c) => Condition::Reliable(*r, *p, clone_option(c)),
            Condition::TransientPath(r, p, c) => Condition::TransientPath(*r, *p, c.deep_clone()),
        }
    }

    /// Whether `r` is the outcome of checking the condition on the outcome `route` of following
    /// the forwarding state from its router towards its prefix.
    pub open spec fn checked(
        self,
        route: Result<Vec<RouterId>, NetworkError>,
        r: Result<(), PolicyError>,
    ) -> bool {
        match (self, route) {
            (Condition::Reachable(_, pfx, None), Ok(_)) => r is Ok,
            (Condition::Reachable(_, pfx, Some(c)), Ok(path)) => (r is Ok <==> c.sat(path@))
                && (r matches Err(e) ==> e matches PolicyError::PathCondition {
                path: p,
                condition: d,
                prefix: q,
            } && p@ == path@ && c.same_as(d) && q == pfx),
            (Condition::Reachable(_, pfx, _), Err(NetworkError::ForwardingLoop(path))) => r
                matches Err(PolicyError::ForwardingLoop { path: l, prefix: q }) && l@
                == prepared_loop(path@) && q == pfx,
            (Condition::Reachable(_, pfx, _), Err(NetworkError::ForwardingBlackHole(path))) => r
                == Err::<(), PolicyError>(PolicyError::BlackHole { router: path@.last(), prefix: pfx }),
            (Condition::NotReachable(rid, pfx), Ok(path)) => r matches Err(
                PolicyError::UnallowedPathExists { router: a, prefix: q, path: p },
            ) && a == rid && q == pfx && p@ == path@,
            (Condition::NotReachable(_, _), Err(_)) => r is Ok,
            _ => r is Ok,
        }
    }

    /// Whether `r` is the outcome of checking the reliability condition on the outcome `route` of
    /// following the forwarding state from its router towards its prefix, once the link between
    /// `a` and `b` has failed: any route that reaches the prefix must satisfy the path condition.
    pub open spec fn reliable_checked(
        self,
        route: Result<Vec<RouterId>, NetworkError>,
        a: RouterId,
        b: RouterId,
        r: Result<(), PolicyError>,
    ) -> bool {
        match (self, route) {
            (Condition::Reliable(_, _, None), Ok(_)) => r is Ok,
            (Condition::Reliable(_, pfx, Some(c)), Ok(path)) => (r is Ok <==> c.sat(path@)) && (r matches Err(e)
                ==> e matches PolicyError::ReliabilityCondition {
                path: p,
                condition: d,
                prefix: q,
                link_a: x,
                link_b: y,
            } && p@ == path@ && c.same_as(d) && q == pfx && x == a && y == b),
            (Condition::Reliable(rid, pfx, _), Err(_)) => r == Err::<(), PolicyError>(
                PolicyError::NotReliable { router: rid, prefix: pfx, link_a: a, link_b: b },
            ),
            _ => r is Ok,
        }
    }

    /// Checks the reliability condition on the outcome of following the forwarding state from its
    /// router towards its prefix, once the link between `link_a` and `link_b` has failed. Any other
    /// condition holds here.
    pub fn check_reliable(
        &self,
        route: Result<Vec<RouterId>, NetworkError>,
        link_a: RouterId,
        link_b: RouterId,
    ) -> (r: Result<(), PolicyError>)
        requires
            *self is Reliable ==> reaches_or_fails(route),
        ensures
            self.reliable_checked(route, link_a, link_b, r),
    {
        match self {
            Condition::Reliable(rid, p, c) => match route {
                Ok(path) => match c {
                    None => Ok(()),
                    Some(c) => match c.check(&path, *p) {
                        Ok(()) => Ok(()),
                        Err(PolicyError::PathCondition { path, condition, prefix }) => Err(
                            PolicyError::ReliabilityCondition { path, condition, prefix, link_a, link_b },
                        ),
                        Err(e) => Err(e),
                    },
                },
                Err(_) => Err(PolicyError::NotReliable { router: *rid, prefix: *p, link_a, link_b }),
            },
            _ => Ok(()),
        }
    }

    /// Check the the condition on the outcome of following the forwarding state from the router
    /// of the condition towards its prefix, returning a policy error if it is violated.
    ///
    /// **Warning**: reliability or transient condition is not checked here, but will just return
    /// `Ok`.
    pub fn check(&self, route: Result<Vec<RouterId>, NetworkError>) -> (r: Result<(), PolicyError>)
        requires
            (self is Reachable || self is NotReachable) ==> judged_route(route),
        ensures
            self.checked(route, r),
    {
        match self {
            Condition::Reachable(_, p, c) => match route {
                Ok(path) => match c {
                    None => Ok(()),
                    Some(c) => c.check(&path, *p),
                },
                Err(NetworkError::ForwardingLoop(path)) => Err(
                    PolicyError::ForwardingLoop { path: prepare_loop_path(path), prefix: *p },
                ),
                Err(NetworkError::ForwardingBlackHole(path)) => {
                    let router = path[path.len() - 1];
                    Err(PolicyError::BlackHole { router, prefix: *p })
                },
                Err(_) => Ok(()),
            },
            Condition::NotReachable(r, p) => match route {
                Ok(path) => Err(PolicyError::UnallowedPathExists { router: *r, prefix: *p, path }),
                Err(_) => Ok(()),
            },
            Condition::Reliable(_, _, _) => Ok(()),
            Condition::TransientPath(_, _, _) => Ok(()),
        }
    }

    /// Returns wether the condition is a reliability condition or not.
    pub fn is_reliability(&self) -> (r: bool)
        ensures
            r == (*self is Reliable),
    {
        match self {
            Condition::Reliable(_, _, _) => true,
            _ => false,
        }
    }

    /// Returns wether the condition is a transient path condition or not.
    pub fn is_transient(&self) -> (r: bool)
        ensures
            r == (*self is TransientPath),
    {
        match self {
            Condition::TransientPath(_, _, _) => true,
            _ => false,
        }
    }

    /// The router of the condition.
    pub open spec fn router_of(self) -> RouterId {
        match self {
            Condition::Reachable(r, _, _) => r,
            Condition::NotReachable(r, _) => r,
            Condition::Reliable(r, _, _) => r,
            Condition::TransientPath(r, _, _) => r,
        }
    }

    /// The prefix of the condition.
    pub open spec fn prefix_of(self) -> Prefix {
        match self {
            Condition::Reachable(_, p, _) => p,
            Condition::NotReachable(_, p) => p,
            Condition::Reliable(_, p, _) => p,
            Condition::TransientPath(_, p, _) => p,
        }
    }

    /// Returns the router id of the condition
    pub fn router_id(&self) -> (r: RouterId)
        ensures
            r == self.router_of(),
    {
        match self {
            Condition::Reachable(r, _, _) => *r,
            Condition::NotReachable(r, _) => *r,
            Condition::Reliable(r, _, _) => *r,
            Condition::TransientPath(r, _, _) => *r,
        }
    }

    /// Returns the prefix of the condition
    pub fn prefix(&self) -> (r: Prefix)
        ensures
            r == self.prefix_of(),
    {
        match self {
            Condition::Reachable(_, p, _) => *p,
            Condition::NotReachable(_, p) => *p,
            Condition::Reliable(_, p, _) => *p,
            Condition::TransientPath(_, p, _) => *p,
        }
    }
}

impl Clone for PathCondition {
    fn clone(&self) -> (r: Self)
        ensures
            self.same_as(r),
    {
        self.deep_clone()
    }
}

impl Clone for PathConditionCNF {
    fn clone(&self) -> (r: Self)
        ensures
            same_groups(self.e@, r.e@),
            r.is_cnf == self.is_cnf,
    {
        self.deep_clone()
    }
}

impl Clone for Condition {
    fn clone(&self) -> (r: Self)
        ensures
            self.same_as(r),
    {
        self.deep_clone()
    }
}

/// Whether the routers of `a` and `b` are the same.
pub fn same_routers(a: &[RouterId], b: &[RouterId]) -> (r: bool)
    ensures
        r == (a@ == b@),
{
    if a.len() != b.len() {
        return false;
    }
    let mut i: usize = 0;
    while i < a.len()
        invariant
            a@.len() == b@.len(),
            i <= a@.len(),
            forall|k: int| 0 <= k < i ==> a@[k] == b@[k],
        decreases a@.len() - i,
    {
        if a[i] != b[i] {
            return false;
        }
        i += 1;
    }
    assert(a@ =~= b@);
    true
}

/// Whether the waypoints of `a` and `b` are the same.
fn same_waypoints(a: &Vec<Waypoint>, b: &Vec<Waypoint>) -> (r: bool)
    ensures
        r == (a@ == b@),
{
    if a.len() != b.len() {
        return false;
    }
    let mut i: usize = 0;
    while i < a.len()
        invariant
            a@.len() == b@.len(),
            i <= a@.len(),
            forall|k: int| 0 <= k < i ==> a@[k] == b@[k],
        decreases a@.len() - i,
    {
        if a[i] != b[i] {
            return false;
        }
        i += 1;
    }
    assert(a@ =~= b@);
    true
}

impl PathCondition {
    /// Whether `self` and `other` are the same condition, operand by operand.
    pub fn equals(&self, other: &PathCondition) -> (r: bool)
        ensures
            r == self.same_as(*other),
        decreases self,
    {
        match (self, other) {
            (PathCondition::Node(a), PathCondition::Node(b)) => *a == *b,
            (PathCondition::Edge(a, b), PathCondition::Edge(c, d)) => *a == *c && *b == *d,
            (PathCondition::And(v), PathCondition::And(w)) => {
                proof {
                    assert(decreases_to!(self => self->And_0));
                }
                same_conditions(v, w)
            },
            (PathCondition::Or(v), PathCondition::Or(w)) => {
                proof {
                    assert(decreases_to!(self => self->Or_0));
                }
                same_conditions(v, w)
            },
            (PathCondition::Not(a), PathCondition::Not(b)) => a.equals(b),
            (PathCondition::Positional(v), PathCondition::Positional(w)) => same_waypoints(v, w),
            _ => false,
        }
    }
}

/// Whether the conditions of `v` and `w` are the same, operand by operand.
fn same_conditions(v: &Vec<PathCondition>, w: &Vec<PathCondition>) -> (r: bool)
    ensures
        r == (v@.len() == w@.len() && forall|j: int| 0 <= j < v@.len() ==> (#[trigger] v@[j]).same_as(w@[j])),
    decreases v,
{
    if v.len() != w.len() {
        return false;
    }
    let mut j: usize = 0;
    while j < v.len()
        invariant
            v@.len() == w@.len(),
            j <= v@.len(),
            forall|k: int| 0 <= k < j ==> (#[trigger] v@[k]).same_as(w@[k]),
        decreases v@.len() - j,
    {
        proof {
            assert(decreases_to!(v => v@[j as int]));
        }
        if !v[j].equals(&w[j]) {
            return false;
        }
        j += 1;
    }
    true
}

/// Being the same condition is symmetric.
pub proof fn lemma_same_as_symmetric(a: PathCondition, b: PathCondition)
    requires
        a.same_as(b),
    ensures
        b.same_as(a),
    decreases a,
{
    match (a, b) {
        (PathCondition::And(v), PathCondition::And(w)) => {
            assert forall|j: int| 0 <= j < w.len() implies (#[trigger] w[j]).same_as(v[j]) by {
                lemma_same_as_symmetric(v[j], w[j]);
            }
        },
        (PathCondition::Or(v), PathCondition::Or(w)) => {
            assert forall|j: int| 0 <= j < w.len() implies (#[trigger] w[j]).same_as(v[j]) by {
                lemma_same_as_symmetric(v[j], w[j]);
            }
        },
        (PathCondition::Not(x), PathCondition::Not(y)) => {
            lemma_same_as_symmetric(*x, *y);
        },
        _ => {},
    }
}

/// Being the same condition is transitive.
pub proof fn lemma_same_as_transitive(a: PathCondition, b: PathCondition, c: PathCondition)
    requires
        a.same_as(b),
        b.same_as(c),
    ensures
        a.same_as(c),
    decreases a,
{
    match (a, b, c) {
        (PathCondition::And(u), PathCondition::And(v), PathCondition::And(w)) => {
            assert forall|j: int| 0 <= j < u.len() implies (#[trigger] u[j]).same_as(w[j]) by {
                lemma_same_as_transitive(u[j], v[j], w[j]);
            }
        },
        (PathCondition::Or(u), PathCondition::Or(v), PathCondition::Or(w)) => {
            assert forall|j: int| 0 <= j < u.len() implies (#[trigger] u[j]).same_as(w[j]) by {
                lemma_same_as_transitive(u[j], v[j], w[j]);
            }
        },
        (PathCondition::Not(x), PathCondition::Not(y), PathCondition::Not(z)) => {
            lemma_same_as_transitive(*x, *y, *z);
        },
        _ => {},
    }
}

} // verus!
