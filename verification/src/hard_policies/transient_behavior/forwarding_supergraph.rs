//! # Forwarding Supergraph
//!
//! This module contains the implementation of the forwarding supergraph. This is only the graph
//! corresponding with a single instance. All algorithms on it require also a reference to the old
//! graph.
use vstd::prelude::*;
use crate::hard_policies::condition::PathCondition;
use crate::hard_policies::condition_repr::{
    and_sep, append_path, items_joined, join_strings, names_view, or_sep, path_names,
};
use crate::netsim::{Prefix, RouterId};

verus! {

/// A single requirement of a group of a path condition in conjunctive normal form: a node or an
/// edge that the path must traverse.
#[derive(Debug, Clone, Copy, PartialEq, Eq, Structural, Hash)]
pub enum NodeEdge {
    /// The node must be traversed
    Node(RouterId),
    /// The edge must be traversed
    Edge(RouterId, RouterId),
}

impl NodeEdge {
    /// The path condition that requires the node or the edge.
    pub open spec fn condition(self) -> PathCondition {
        match self {
            NodeEdge::Node(v) => PathCondition::Node(v),
            NodeEdge::Edge(a, b) => PathCondition::Edge(a, b),
        }
    }

    /// Converts the node or edge into the path condition that requires it.
    pub fn into_condition(self) -> (r: PathCondition)
        ensures
            r == self.condition(),
    {
        match self {
            NodeEdge::Node(v) => PathCondition::Node(v),
            NodeEdge::Edge(a, b) => PathCondition::Edge(a, b),
        }
    }

    /// Generate a NodeEdge from a path condition, which must be either a node or an edge.
    pub fn from_condition(p: &PathCondition) -> (r: NodeEdge)
        requires
            *p is Node || *p is Edge,
        ensures
            r.condition() == *p,
    {
        match p {
            PathCondition::Node(v) => NodeEdge::Node(*v),
            PathCondition::Edge(a, b) => NodeEdge::Edge(*a, *b),
            _ => NodeEdge::Node(0),
        }
    }
}

/// Whether the routers of `s` are distinct.
pub open spec fn distinct(s: Seq<RouterId>) -> bool {
    forall|i: int, j: int| 0 <= i < j < s.len() ==> s[i] != s[j]
}

/// Whether the path `p` is longer than `path` and starts with it.
pub open spec fn extends(p: Seq<RouterId>, path: Seq<RouterId>) -> bool {
    path.len() < p.len() && p.take(path.len() as int) == path
}

/// The paths held by the vectors of `s`.
pub open spec fn views(s: Seq<Vec<RouterId>>) -> Seq<Seq<RouterId>> {
    s.map_values(|v: Vec<RouterId>| v@)
}

/// Distinct routers that are all below `n` are at most `n`.
proof fn lemma_distinct_below(s: Seq<RouterId>, n: nat)
    requires
        distinct(s),
        forall|i: int| 0 <= i < s.len() ==> s[i] < n,
    ensures
        s.len() <= n,
    decreases n,
{
    if n == 0 {
        if s.len() > 0 {
            assert(s[0] < n);
        }
    } else if exists|k: int| 0 <= k < s.len() && s[k] == n - 1 {
        let k = choose|k: int| 0 <= k < s.len() && s[k] == n - 1;
        let t = s.take(k) + s.skip(k + 1);
        assert forall|i: int| 0 <= i < t.len() implies t[i] == (if i < k { s[i] } else { s[i + 1] }) by {}
        assert forall|i: int| 0 <= i < t.len() implies t[i] < n - 1 by {
            if i < k {
                assert(s[i] != s[k]);
            } else {
                assert(s[i + 1] != s[k]);
            }
        }
        assert forall|i: int, j: int| 0 <= i < j < t.len() implies t[i] != t[j] by {
            let a = if i < k { i } else { i + 1 };
            let b = if j < k { j } else { j + 1 };
            assert(s[a] != s[b]);
        }
        lemma_distinct_below(t, (n - 1) as nat);
    } else {
        assert forall|i: int| 0 <= i < s.len() implies s[i] < n - 1 by {
            assert(s[i] != n - 1);
        }
        lemma_distinct_below(s, (n - 1) as nat);
    }
}

/// Whether the router `x` occurs in `v`.
fn contains_router(v: &Vec<RouterId>, x: RouterId) -> (r: bool)
    ensures
        r == v@.contains(x),
{
    let mut i: usize = 0;
    while i < v.len()
        invariant
            i <= v@.len(),
            forall|k: int| 0 <= k < i ==> v@[k] != x,
        decreases v@.len() - i,
    {
        if v[i] == x {
            return true;
        }
        i += 1;
    }
    false
}

/// Forwarding Supergraph
#[derive(Debug)]
pub struct ForwardingSupergraph {
    neighbors: Vec<Vec<RouterId>>,
    external: Vec<bool>,
}

impl ForwardingSupergraph {
    /// The next hops of each router.
    pub closed spec fn next_hops(&self) -> Seq<Seq<RouterId>> {
        self.neighbors@.map_values(|v: Vec<RouterId>| v@)
    }

    /// Whether each router is external.
    pub closed spec fn externals(&self) -> Seq<bool> {
        self.external@
    }

    /// The number of routers.
    pub open spec fn size(&self) -> nat {
        self.externals().len()
    }

    /// There are next hops for each router, and every next hop is a router of the graph.
    pub open spec fn wf(&self) -> bool {
        &&& self.next_hops().len() == self.size()
        &&& forall|a: int, k: int|
            0 <= a < self.size() && 0 <= k < self.next_hops()[a].len() ==> (#[trigger] self.next_hops()[a][k])
                < self.size()
    }

    /// The graph and the one before it describe the same routers.
    pub open spec fn compatible(&self, prev: &Self) -> bool {
        &&& self.wf()
        &&& prev.wf()
        &&& prev.size() == self.size()
    }

    /// Whether `b` is a next hop of `a`, in this graph or the one before it.
    pub open spec fn hop(&self, prev: &Self, a: RouterId, b: RouterId) -> bool {
        self.next_hops()[a as int].contains(b) || prev.next_hops()[a as int].contains(b)
    }

    /// Whether `path` can start a path of the supergraph: it visits internal routers of the
    /// graph, each one once, from one to one of its next hops.
    pub open spec fn internal_path(&self, prev: &Self, path: Seq<RouterId>) -> bool {
        &&& path.len() >= 1
        &&& forall|i: int| 0 <= i < path.len() ==> (#[trigger] path[i]) < self.size() && !self.externals()[path[i] as int]
        &&& distinct(path)
        &&& forall|i: int| 0 <= i < path.len() - 1 ==> #[trigger] self.hop_at(prev, path, i)
    }

    /// Whether the router after position `i` of `path` is a next hop of the router at `i`.
    pub open spec fn hop_at(&self, prev: &Self, path: Seq<RouterId>, i: int) -> bool {
        self.hop(prev, path[i], path[i + 1])
    }

    /// Whether `p` is a path of the supergraph: routers, each one the next hop of the previous,
    /// in this graph or the one before it, up to the first external router. No router repeats.
    pub open spec fn is_route(&self, prev: &Self, p: Seq<RouterId>) -> bool {
        &&& p.len() >= 1
        &&& p.last() < self.size()
        &&& self.externals()[p.last() as int]
        &&& self.internal_path(prev, p.drop_last()) || p.len() == 1
        &&& p.len() > 1 ==> self.hop(prev, p[p.len() - 2], p.last())
    }

    /// Build the forwarding supergraph from the next hops of each router, and whether it is
    /// external.
    pub fn from_neighbors(neighbors: Vec<Vec<RouterId>>, external: Vec<bool>) -> (r: Self)
        ensures
            r.next_hops() == neighbors@.map_values(|v: Vec<RouterId>| v@),
            r.externals() == external@,
    {
        ForwardingSupergraph { neighbors, external }
    }

    /// Whether `v` is a next hop of `u`, in this graph or the one before it.
    fn is_hop(&self, prev: &Self, u: RouterId, v: RouterId) -> (r: bool)
        requires
            self.compatible(prev),
            u < self.size(),
        ensures
            r == self.hop(prev, u, v),
    {
        contains_router(&self.neighbors[u as usize], v) || contains_router(&prev.neighbors[u as usize], v)
    }

    /// A path of the supergraph that extends `base` goes on to a next hop of the last router of
    /// `base`.
    proof fn lemma_route_hop(&self, prev: &Self, p: Seq<RouterId>, base: Seq<RouterId>)
        requires
            self.is_route(prev, p),
            extends(p, base),
            self.internal_path(prev, base),
        ensures
            self.hop(prev, base.last(), p[base.len() as int]),
            p[base.len() as int] < self.size(),
    {
        let k = base.len() as int;
        assert(p[k - 1] == base.last()) by {
            assert(p.take(k)[k - 1] == p[k - 1]);
        }
        if k == p.len() - 1 {
        } else {
            let dl = p.drop_last();
            assert(dl[k - 1] == p[k - 1] && dl[k] == p[k]);
            assert(self.hop_at(prev, dl, k - 1));
            assert(dl[k] < self.size());
        }
    }

    /// The only path of the supergraph that extends `base` with the external router `w` ends
    /// there.
    proof fn lemma_route_to_external(&self, prev: &Self, base: Seq<RouterId>, w: RouterId)
        requires
            self.internal_path(prev, base),
            self.hop(prev, base.last(), w),
            w < self.size(),
            self.externals()[w as int],
        ensures
            self.is_route(prev, base.push(w)),
            extends(base.push(w), base),
            forall|p: Seq<RouterId>|
                self.is_route(prev, p) && extends(p, base) && p[base.len() as int] == w ==> p == base.push(w),
    {
        let q = base.push(w);
        assert(q.drop_last() =~= base);
        assert(q.take(base.len() as int) =~= base);
        assert forall|p: Seq<RouterId>|
            self.is_route(prev, p) && extends(p, base) && p[base.len() as int] == w implies p == base.push(w) by {
            let k = base.len() as int;
            if p.len() > k + 1 {
                let dl = p.drop_last();
                assert(dl[k] == w);
                assert(!self.externals()[dl[k] as int]);
            }
            assert(p.len() == k + 1);
            assert forall|i: int| 0 <= i < p.len() implies p[i] == q[i] by {
                if i < k {
                    assert(p.take(k)[i] == p[i]);
                }
            }
            assert(p =~= q);
        }
    }

    /// No path of the supergraph that extends `base` goes on to a router that `base` visits.
    proof fn lemma_no_route_through(&self, prev: &Self, base: Seq<RouterId>, w: RouterId)
        requires
            self.internal_path(prev, base),
            base.contains(w),
        ensures
            forall|p: Seq<RouterId>| self.is_route(prev, p) && extends(p, base) ==> p[base.len() as int] != w,
    {
        assert forall|p: Seq<RouterId>| self.is_route(prev, p) && extends(p, base) implies p[base.len() as int]
            != w by {
            let k = base.len() as int;
            let j = choose|j: int| 0 <= j < base.len() && base[j] == w;
            if p[k] == w {
                assert(!self.externals()[base[j] as int]);
                if p.len() == k + 1 {
                    assert(p.last() == w);
                } else {
                    let dl = p.drop_last();
                    assert(dl[j] == p[j]);
                    assert(p[j] == p.take(k)[j]);
                    assert(dl[k] == w);
                    assert(dl[j] != dl[k]);
                }
            }
        }
    }

    /// Extending `base` by the internal router `w` that it does not visit yet gives the paths of
    /// the supergraph that extend `base` and go on to `w`.
    proof fn lemma_push_internal(&self, prev: &Self, base: Seq<RouterId>, w: RouterId)
        requires
            self.internal_path(prev, base),
            self.hop(prev, base.last(), w),
            w < self.size(),
            !self.externals()[w as int],
            !base.contains(w),
        ensures
            self.internal_path(prev, base.push(w)),
            forall|p: Seq<RouterId>|
                self.is_route(prev, p) ==> (extends(p, base.push(w)) <==> (extends(p, base) && p[base.len() as int]
                    == w)),
    {
        let q = base.push(w);
        let k = base.len() as int;
        assert forall|i: int, j: int| 0 <= i < j < q.len() implies q[i] != q[j] by {
            if j == k {
                assert(base[i] != w);
            }
        }
        assert forall|i: int| 0 <= i < q.len() - 1 implies #[trigger] self.hop_at(prev, q, i) by {
            if i < k - 1 {
                assert(self.hop_at(prev, base, i));
            }
        }
        assert forall|p: Seq<RouterId>| self.is_route(prev, p) implies (extends(p, base.push(w)) <==> (
            extends(p, base) && p[base.len() as int] == w)) by {
            if extends(p, base.push(w)) {
                assert forall|i: int| 0 <= i < k implies p.take(k)[i] == base[i] by {
                    assert(p.take(k + 1)[i] == q[i]);
                }
                assert(p.take(k) =~= base);
                assert(p[k] == p.take(k + 1)[k]);
            }
            if extends(p, base) && p[k] == w {
                if p.len() == k + 1 {
                    assert(p.last() == w);
                }
                assert forall|i: int| 0 <= i < k + 1 implies p.take(k + 1)[i] == q[i] by {
                    if i < k {
                        assert(p.take(k)[i] == p[i]);
                    }
                }
                assert(p.take(k + 1) =~= q);
            }
        }
    }

    /// Appending the path `base` extended by the external router `w` keeps the paths found so
    /// far those that extend `base` by a router from `w` on.
    proof fn lemma_added_one(
        &self,
        prev: &Self,
        base: Seq<RouterId>,
        out0: Seq<Vec<RouterId>>,
        before: Seq<Vec<RouterId>>,
        after: Seq<Vec<RouterId>>,
        w: RouterId,
    )
        requires
            self.internal_path(prev, base),
            self.hop(prev, base.last(), w),
            w < self.size(),
            self.externals()[w as int],
            before.len() >= out0.len(),
            before.take(out0.len() as int) == out0,
            forall|p: Seq<RouterId>| #[trigger] views(before.skip(out0.len() as int)).contains(p) <==> (
                self.is_route(prev, p) && extends(p, base) && p[base.len() as int] >= w + 1),
            views(before.skip(out0.len() as int)).no_duplicates(),
            after.len() == before.len() + 1,
            after.take(before.len() as int) == before,
            after.last()@ == base.push(w),
        ensures
            after.len() >= out0.len(),
            after.take(out0.len() as int) == out0,
            forall|p: Seq<RouterId>| #[trigger] views(after.skip(out0.len() as int)).contains(p) <==> (
                self.is_route(prev, p) && extends(p, base) && p[base.len() as int] >= w),
            views(after.skip(out0.len() as int)).no_duplicates(),
    {
        self.lemma_route_to_external(prev, base, w);
        let l0 = out0.len() as int;
        let vb = views(before.skip(l0));
        let va = views(after.skip(l0));
        assert(after.take(l0) =~= before.take(l0));
        assert(va =~= vb.push(base.push(w))) by {
            assert forall|i: int| 0 <= i < vb.len() implies va[i] == vb[i] by {
                assert(after[l0 + i] == before[l0 + i]) by {
                    assert(after.take(before.len() as int)[l0 + i] == after[l0 + i]);
                }
            }
        }
        assert(!vb.contains(base.push(w))) by {
            assert(base.push(w)[base.len() as int] == w);
        }
        assert forall|p: Seq<RouterId>| #[trigger] va.contains(p) <==> (self.is_route(prev, p) && extends(p, base)
            && p[base.len() as int] >= w) by {
            if va.contains(p) && !vb.contains(p) {
                let i = choose|i: int| 0 <= i < va.len() && va[i] == p;
                assert(i == vb.len());
            }
            if vb.contains(p) {
                let i = choose|i: int| 0 <= i < vb.len() && vb[i] == p;
                assert(va[i] == p);
            }
            if p == base.push(w) {
                assert(va[vb.len() as int] == p);
            }
        }
        assert forall|i: int, j: int| 0 <= i < va.len() && 0 <= j < va.len() && i != j implies va[i]
            != va[j] by {
            if i == vb.len() {
                assert(vb.contains(va[j]) || j == vb.len());
            }
            if j == vb.len() {
                assert(vb[i] == va[i]);
            }
        }
    }

    /// Appending the paths that extend `base` by the internal router `w` keeps the paths found so
    /// far those that extend `base` by a router from `w` on.
    proof fn lemma_added_many(
        &self,
        prev: &Self,
        base: Seq<RouterId>,
        out0: Seq<Vec<RouterId>>,
        before: Seq<Vec<RouterId>>,
        after: Seq<Vec<RouterId>>,
        w: RouterId,
    )
        requires
            self.internal_path(prev, base),
            before.len() >= out0.len(),
            before.take(out0.len() as int) == out0,
            forall|p: Seq<RouterId>| #[trigger] views(before.skip(out0.len() as int)).contains(p) <==> (
                self.is_route(prev, p) && extends(p, base) && p[base.len() as int] >= w + 1),
            views(before.skip(out0.len() as int)).no_duplicates(),
            after.len() >= before.len(),
            after.take(before.len() as int) == before,
            forall|p: Seq<RouterId>| #[trigger] views(after.skip(before.len() as int)).contains(p) <==> (
                self.is_route(prev, p) && extends(p, base) && p[base.len() as int] == w),
            views(after.skip(before.len() as int)).no_duplicates(),
        ensures
            after.len() >= out0.len(),
            after.take(out0.len() as int) == out0,
            forall|p: Seq<RouterId>| #[trigger] views(after.skip(out0.len() as int)).contains(p) <==> (
                self.is_route(prev, p) && extends(p, base) && p[base.len() as int] >= w),
            views(after.skip(out0.len() as int)).no_duplicates(),
    {
        let l0 = out0.len() as int;
        let lb = before.len() as int;
        let vb = views(before.skip(l0));
        let vn = views(after.skip(lb));
        let va = views(after.skip(l0));
        assert(after.take(l0) =~= before.take(l0)) by {
            assert forall|i: int| 0 <= i < l0 implies after.take(l0)[i] == before.take(l0)[i] by {
                assert(after.take(lb)[i] == after[i]);
            }
        }
        assert(va =~= vb + vn) by {
            assert forall|i: int| 0 <= i < vb.len() implies va[i] == vb[i] by {
                assert(after.take(lb)[l0 + i] == after[l0 + i]);
            }
        }
        assert forall|p: Seq<RouterId>| #[trigger] va.contains(p) <==> (self.is_route(prev, p) && extends(p, base)
            && p[base.len() as int] >= w) by {
            if va.contains(p) {
                let i = choose|i: int| 0 <= i < va.len() && va[i] == p;
                if i < vb.len() {
                    assert(vb.contains(p));
                } else {
                    assert(vn[i - vb.len()] == p);
                    assert(vn.contains(p));
                }
            }
            if self.is_route(prev, p) && extends(p, base) && p[base.len() as int] >= w {
                if p[base.len() as int] == w {
                    assert(vn.contains(p));
                    let i = choose|i: int| 0 <= i < vn.len() && vn[i] == p;
                    assert(va[vb.len() + i] == p);
                } else {
                    assert(vb.contains(p));
                    let i = choose|i: int| 0 <= i < vb.len() && vb[i] == p;
                    assert(va[i] == p);
                }
            }
        }
        assert forall|i: int, j: int| 0 <= i < va.len() && 0 <= j < va.len() && i != j implies va[i]
            != va[j] by {
            if i < vb.len() && j >= vb.len() {
                assert(vb.contains(va[i]));
                assert(vn.contains(va[j]));
            }
            if j < vb.len() && i >= vb.len() {
                assert(vb.contains(va[j]));
                assert(vn.contains(va[i]));
            }
        }
    }

    /// Appends to `out` every path of the supergraph that extends `path`, in the order of a
    /// depth-first search that tries the next hops from the largest router id down.
    #[verifier::loop_isolation(false)]
    fn extend(&self, prev: &Self, path: &mut Vec<RouterId>, out: &mut Vec<Vec<RouterId>>)
        requires
            self.compatible(prev),
            self.internal_path(prev, old(path)@),
            self.size() <= u32::MAX,
        ensures
            final(path)@ == old(path)@,
            final(out)@.len() >= old(out)@.len(),
            final(out)@.take(old(out)@.len() as int) == old(out)@,
            forall|p: Seq<RouterId>| #[trigger] views(final(out)@.skip(old(out)@.len() as int)).contains(p) <==> (
                self.is_route(prev, p) && extends(p, old(path)@)),
            views(final(out)@.skip(old(out)@.len() as int)).no_duplicates(),
        decreases self.size() - old(path)@.len(),
    {
        let ghost base = path@;
        let ghost out0 = out@;
        let n = self.external.len();
        let u = path[path.len() - 1];
        proof {
            lemma_distinct_below(base, self.size());
            assert(out@.skip(out0.len() as int) =~= Seq::<Vec<RouterId>>::empty());
            assert(out@.take(out0.len() as int) =~= out0);
            assert forall|p: Seq<RouterId>| self.is_route(prev, p) && extends(p, base) implies p[base.len() as int] < n by {
                self.lemma_route_hop(prev, p, base);
            }
        }
        let mut v: usize = n;
        while v > 0
            invariant
                v <= n,
                n == self.size(),
                path@ == base,
                out@.len() >= out0.len(),
                out@.take(out0.len() as int) == out0,
                forall|p: Seq<RouterId>| #[trigger] views(out@.skip(out0.len() as int)).contains(p) <==> (
                    self.is_route(prev, p) && extends(p, base) && p[base.len() as int] >= v),
                views(out@.skip(out0.len() as int)).no_duplicates(),
            decreases v,
        {
            v -= 1;
            let w = v as RouterId;
            let ghost before = out@;
            if self.is_hop(prev, u, w) {
                if self.external[v] {
                    let mut q = path.clone();
                    q.push(w);
                    out.push(q);
                    proof {
                        assert(out@.take(before.len() as int) =~= before);
                        self.lemma_route_to_external(prev, base, w);
                        self.lemma_added_one(prev, base, out0, before, out@, w);
                    }
                } else if contains_router(path, w) {
                    proof {
                        self.lemma_no_route_through(prev, base, w);
                        assert forall|p: Seq<RouterId>| #[trigger] views(out@.skip(out0.len() as int)).contains(p) <==> (
                            self.is_route(prev, p) && extends(p, base) && p[base.len() as int] >= v) by {
                            if self.is_route(prev, p) && extends(p, base) && p[base.len() as int] == v {
                                assert(p[base.len() as int] == w);
                            }
                        }
                    }
                } else {
                    path.push(w);
                    proof {
                        self.lemma_push_internal(prev, base, w);
                        lemma_distinct_below(path@, self.size());
                    }
                    self.extend(prev, path, out);
                    path.pop();
                    proof {
                        assert(path@ =~= base);
                        assert forall|p: Seq<RouterId>| #[trigger] views(out@.skip(before.len() as int)).contains(p) <==> (
                            self.is_route(prev, p) && extends(p, base) && p[base.len() as int] == w) by {
                            if self.is_route(prev, p) {
                                assert(extends(p, base.push(w)) <==> (extends(p, base) && p[base.len() as int] == w));
                            }
                        }
                        self.lemma_added_many(prev, base, out0, before, out@, w);
                    }
                }
            } else {
                proof {
                    assert forall|p: Seq<RouterId>| #[trigger] views(out@.skip(out0.len() as int)).contains(p) <==> (
                        self.is_route(prev, p) && extends(p, base) && p[base.len() as int] >= v) by {
                        if self.is_route(prev, p) && extends(p, base) && p[base.len() as int] == v {
                            self.lemma_route_hop(prev, p, base);
                            assert(p[base.len() as int] == w);
                        }
                    }
                }
            }
        }
    }
}

impl ForwardingSupergraph {
    /// Whether `p` is a path of the supergraph from `start`.
    pub open spec fn is_route_from(&self, prev: &Self, start: RouterId, p: Seq<RouterId>) -> bool {
        self.is_route(prev, p) && p[0] == start
    }

    /// Returns all simple paths starting from the given router: every path of this graph and the
    /// one before it, from each router to one of its next hops in either graph, up to the first
    /// external router, that visits no router twice. They come in the order of a depth-first
    /// search that tries the next hops from the largest router id down.
    pub fn simple_paths(&self, start: RouterId, prev: &Self) -> (r: ForwardingSupergraphPaths)
        requires
            self.compatible(prev),
            start < self.size(),
            self.size() <= u32::MAX,
        ensures
            forall|p: Seq<RouterId>| #[trigger] r.remaining().contains(p) <==> self.is_route_from(prev, start, p),
            r.remaining().no_duplicates(),
    {
        let mut out: Vec<Vec<RouterId>> = Vec::new();
        if self.external[start as usize] {
            let mut p: Vec<RouterId> = Vec::new();
            p.push(start);
            out.push(p);
            proof {
                assert(views(out@) =~= seq![seq![start]]);
                assert forall|p: Seq<RouterId>| #[trigger] views(out@).contains(p) <==> self.is_route_from(prev, start, p) by {
                    if self.is_route_from(prev, start, p) {
                        if p.len() > 1 {
                            assert(!self.externals()[p.drop_last()[0] as int]);
                        }
                        assert(p =~= seq![start]);
                    }
                    if p == seq![start] {
                        assert(views(out@)[0] == p);
                    }
                }
            }
        } else {
            let mut path: Vec<RouterId> = Vec::new();
            path.push(start);
            proof {
                assert(self.internal_path(prev, path@));
            }
            self.extend(prev, &mut path, &mut out);
            proof {
                assert(out@.skip(0) =~= out@);
                assert forall|p: Seq<RouterId>| #[trigger] views(out@).contains(p) <==> self.is_route_from(prev, start, p) by {
                    if self.is_route_from(prev, start, p) {
                        assert(p.len() > 1);
                        assert(p.take(1) =~= seq![start]);
                    }
                    if views(out@).contains(p) {
                        assert(p.take(1)[0] == start);
                    }
                }
            }
        }
        ForwardingSupergraphPaths { paths: out }
    }

    /// Check the transient condition on the current supergraph, including the old supergraph.
    /// In slow mode, every path from the router of the condition must satisfy it.
    pub fn check_condition(&self, prev: &Self, cond: &TransientCondition) -> (r: bool)
        requires
            self.compatible(prev),
            self.size() <= u32::MAX,
            cond.router() < self.size(),
        ensures
            cond is SlowMode ==> (r <==> forall|p: Seq<RouterId>|
                self.is_route_from(prev, cond.router(), p) ==> cond->SlowMode_condition.sat(p)),
            cond is FastMode ==> self.fast_verdict(
                prev,
                cond.router(),
                cond->FastMode_groups_pos@,
                cond->FastMode_groups_neg@,
                r,
            ),
            cond is FastMode ==> self.dfs_verdict(
                prev,
                cond.router(),
                cond->FastMode_groups_pos@,
                cond->FastMode_groups_neg@,
                r,
            ),
    {
        match cond {
            TransientCondition::FastMode { router_id, groups_pos, groups_neg, .. } => {
                self.cond_algorithm(prev, *router_id, groups_pos, groups_neg)
            },
            TransientCondition::SlowMode { router_id, condition, .. } => {
                let mut paths = self.simple_paths(*router_id, prev);
                let ghost all = paths.remaining();
                let ghost mut seen: Seq<Seq<RouterId>> = Seq::empty();
                let ghost start = *router_id;
                loop
                    invariant
                        cond is SlowMode,
                        start == cond.router(),
                        cond->SlowMode_condition == *condition,
                        all == seen + paths.remaining(),
                        forall|q: Seq<RouterId>| #[trigger] all.contains(q) <==> self.is_route_from(prev, start, q),
                        forall|q: Seq<RouterId>| #[trigger] seen.contains(q) ==> condition.sat(q),
                    decreases paths.remaining().len(),
                {
                    match paths.next() {
                        Some(path) => {
                            let res = condition.check(path.as_slice(), Prefix(0));
                            if res.is_err() {
                                proof {
                                    assert(all.contains(path@)) by {
                                        assert(all[seen.len() as int] == path@);
                                    }
                                    assert(self.is_route_from(prev, start, path@) && !condition.sat(path@));
                                }
                                return false;
                            }
                            proof {
                                assert(condition.sat(path@));
                                let rest = paths.remaining();
                                assert(seen.push(path@) + rest =~= all);
                                assert forall|q: Seq<RouterId>| #[trigger] seen.push(path@).contains(q) implies condition.sat(q) by {
                                    if q != path@ {
                                        let i = choose|i: int| 0 <= i < seen.push(path@).len() && seen.push(path@)[i] == q;
                                        assert(seen[i] == q);
                                        assert(seen.contains(q));
                                    }
                                }
                                seen = seen.push(path@);
                            }
                        },
                        None => {
                            proof {
                                assert(seen + paths.remaining() =~= seen);
                                assert forall|q: Seq<RouterId>| self.is_route_from(prev, start, q) implies condition.sat(q) by {
                                    assert(all.contains(q));
                                }
                            }
                            return true;
                        },
                    }
                }
            },
        }
    }

    /// The next hops of `node` in this graph and the one before it, each once, in increasing
    /// order of their router ids.
    fn next_options(&self, prev: &Self, node: RouterId) -> (r: Vec<RouterId>)
        requires
            self.compatible(prev),
            node < self.size(),
            self.size() <= u32::MAX,
        ensures
            forall|a: int, b: int| 0 <= a < b < r@.len() ==> r@[a] < r@[b],
            forall|x: RouterId| #[trigger] r@.contains(x) <==> self.hop(prev, node, x),
            forall|k: int| 0 <= k < r@.len() ==> #[trigger] r@[k] < self.size(),
            r@ == self.hops_below(prev, node, self.size()),
    {
        let n = self.external.len();
        let mut r: Vec<RouterId> = Vec::new();
        let mut v: usize = 0;
        while v < n
            invariant
                self.compatible(prev),
                node < self.size(),
                n <= u32::MAX,
                n == self.size(),
                v <= n,
                forall|a: int, b: int| 0 <= a < b < r@.len() ==> r@[a] < r@[b],
                forall|k: int| 0 <= k < r@.len() ==> #[trigger] r@[k] < v,
                forall|x: RouterId| #[trigger] r@.contains(x) <==> (x < v && self.hop(prev, node, x)),
                r@ == self.hops_below(prev, node, v as nat),
            decreases n - v,
        {
            let w = v as RouterId;
            let ghost r0 = r@;
            if self.is_hop(prev, node, w) {
                r.push(w);
                proof {
                    assert forall|x: RouterId| #[trigger] r@.contains(x) <==> (x < v + 1 && self.hop(prev, node, x)) by {
                        if r@.contains(x) && x != w {
                            let i = choose|i: int| 0 <= i < r@.len() && r@[i] == x;
                            assert(r0[i] == x);
                            assert(r0.contains(x));
                        }
                        if x < v + 1 && self.hop(prev, node, x) {
                            if x == w {
                                assert(r@[r0.len() as int] == w);
                            } else {
                                assert(r0.contains(x));
                                let i = choose|i: int| 0 <= i < r0.len() && r0[i] == x;
                                assert(r@[i] == x);
                            }
                        }
                    }
                }
            }
            v += 1;
        }
        proof {
            assert forall|x: RouterId| self.hop(prev, node, x) implies x < n by {
                if self.next_hops()[node as int].contains(x) {
                    let k = choose|k: int| 0 <= k < self.next_hops()[node as int].len() && self.next_hops()[node as int][k] == x;
                    assert(self.next_hops()[node as int][k] < self.size());
                } else {
                    let k = choose|k: int| 0 <= k < prev.next_hops()[node as int].len() && prev.next_hops()[node as int][k] == x;
                    assert(prev.next_hops()[node as int][k] < prev.size());
                }
            }
        }
        r
    }

    /// What is known of the verdict `r` of the single traversal from `router` on the groups
    /// `pos` and `neg`: at an external router, every group follows the leaf rule; at an internal
    /// one, a group that excludes the router and does not require it rejects, groups that all
    /// require it accept, and without next hops every group follows the node rule.
    pub open spec fn fast_verdict(
        &self,
        prev: &Self,
        router: RouterId,
        pos: Seq<Vec<NodeEdge>>,
        neg: Seq<Vec<NodeEdge>>,
        r: bool,
    ) -> bool {
        &&& self.externals()[router as int] ==> (r <==> forall|i: int|
            0 <= i < group_count(pos, neg) ==> leaf_rule(pos[i]@, neg[i]@, router))
        &&& !self.externals()[router as int] ==> forall|i: int|
            0 <= i < group_count(pos, neg) && !pos[i]@.contains(NodeEdge::Node(router)) && neg[i]@.contains(
                NodeEdge::Node(router),
            ) ==> !r
        &&& !self.externals()[router as int] && (forall|i: int|
            0 <= i < group_count(pos, neg) ==> pos[i]@.contains(NodeEdge::Node(router))) ==> r
        &&& !self.externals()[router as int] && (forall|x: RouterId| !self.hop(prev, router, x)) ==> (r <==> forall|
            i: int,
        | 0 <= i < group_count(pos, neg) ==> node_rule(pos[i]@, neg[i]@, router, true))
    }

    /// Fancy algorithm for checking the condition using a single DFS traversal in $O(n^2)$ time,
    /// instead of enumerating all paths in $O(2^n)$ time. Every router that is reached gets, for
    /// each group, whether every path from it satisfies the group: an external router by the leaf
    /// rule, an internal one by combining the values of its next hops that were already computed
    /// (by the edge rule) and then applying the node rule. Routers on the current path are
    /// skipped, and so are the values of next hops that are not yet computed. The condition holds
    /// if the router itself satisfies every group.
    ///
    /// This algorithm is known to accept conditions that some paths violate.
    fn cond_algorithm(
        &self,
        prev: &Self,
        router: RouterId,
        groups_pos: &Vec<Vec<NodeEdge>>,
        groups_neg: &Vec<Vec<NodeEdge>>,
    ) -> (r: bool)
        requires
            self.compatible(prev),
            router < self.size(),
            self.size() <= u32::MAX,
        ensures
            self.fast_verdict(prev, router, groups_pos@, groups_neg@, r),
            self.dfs_verdict(prev, router, groups_pos@, groups_neg@, r),
    {
        let n = self.external.len();
        let g = if groups_pos.len() < groups_neg.len() { groups_pos.len() } else { groups_neg.len() };
        let mut dfs_seen: Vec<Option<Vec<bool>>> = Vec::new();
        let mut i: usize = 0;
        while i < n
            invariant
                i <= n,
                dfs_seen@.len() == i,
                forall|k: int| 0 <= k < i ==> dfs_seen@[k] is None,
            decreases n - i,
        {
            dfs_seen.push(None);
            i += 1;
        }
        proof {
            assert(seen_view(dfs_seen@) =~= Seq::new(n as nat, |k: int| None));
        }
        let mut dfs_path: Vec<RouterId> = Vec::new();
        let mut first: Vec<RouterId> = Vec::new();
        first.push(router);
        let mut dfs_stack: Vec<Vec<RouterId>> = Vec::new();
        dfs_stack.push(first);
        proof {
            lemma_unvisited_bound(dfs_seen@, dfs_path@, n as nat);
        }
        let ghost ext = self.externals()[router as int];
        let ghost no_hops = forall|x: RouterId| !self.hop(prev, router, x);
        // whether the router has been taken from the first frame
        let ghost mut started = false;
        // the values of the groups at the router, once they are computed
        let ghost mut root_val: Seq<bool> = Seq::empty();
        // the number of steps of the traversal taken so far
        let ghost mut steps: nat = 0;
        proof {
            assert(stack_view(dfs_stack@) =~= seq![seq![router]]);
        }
        while dfs_stack.len() > 0
            invariant
                (seen_view(dfs_seen@), dfs_path@, stack_view(dfs_stack@)) == self.dfs_run(
                    prev,
                    groups_pos@,
                    groups_neg@,
                    self.dfs_start(router),
                    steps,
                ),
                self.compatible(prev),
                n == self.size(),
                n <= u32::MAX,
                router < n,
                g <= groups_pos@.len(),
                g <= groups_neg@.len(),
                g == group_count(groups_pos@, groups_neg@),
                ext == self.externals()[router as int],
                no_hops == (forall|x: RouterId| !self.hop(prev, router, x)),
                dfs_seen@.len() == n,
                forall|k: int| 0 <= k < n ==> (#[trigger] dfs_seen@[k] matches Some(st) ==> st@.len() == g),
                forall|k: int| 0 <= k < dfs_path@.len() ==> (#[trigger] dfs_path@[k]) < n
                    && dfs_seen@[dfs_path@[k] as int] is None && !self.externals()[dfs_path@[k] as int],
                distinct(dfs_path@),
                forall|f: int, k: int|
                    0 <= f < dfs_stack@.len() && 0 <= k < dfs_stack@[f]@.len() ==> (#[trigger] dfs_stack@[f]@[k]) < n,
                !started ==> dfs_stack@.len() == 1 && dfs_stack@[0]@ == seq![router] && dfs_path@.len() == 0
                    && dfs_seen@[router as int] is None,
                started && dfs_stack@.len() > 0 ==> dfs_stack@[0]@.len() == 0,
                dfs_stack@.len() == dfs_path@.len() + 1 || (dfs_stack@.len() == 0 && dfs_path@.len() == 0),
                started && dfs_path@.len() > 0 ==> dfs_path@[0] == router,
                started && dfs_seen@[router as int] is None ==> dfs_path@.len() > 0,
                dfs_seen@[router as int] matches Some(st) ==> st@ == root_val && node_values(
                    root_val,
                    ext,
                    no_hops,
                    groups_pos@,
                    groups_neg@,
                    router,
                ),
            decreases unvisited(dfs_seen@, dfs_path@, n as nat), stack_weight(dfs_stack@),
        {
            let ghost seen0 = dfs_seen@;
            let ghost path0 = dfs_path@;
            let ghost stack0 = dfs_stack@;
            let ghost cur = (seen_view(seen0), path0, stack_view(stack0));
            let top = dfs_stack.len() - 1;
            let mut frame = dfs_stack.pop().unwrap();
            let next = frame.pop();
            match next {
                Some(node) => {
                    dfs_stack.push(frame);
                    proof {
                        assert(stack_view(dfs_stack@) =~= cur.2.drop_last().push(cur.2.last().drop_last()));
                        assert(dfs_stack@.drop_last() =~= stack0.drop_last());
                        lemma_stack_weight_pop_option(stack0, dfs_stack@);
                        if !started {
                            assert(node == router);
                            assert(dfs_stack@[0]@.len() == 0);
                            started = true;
                        } else {
                            assert(top > 0);
                            assert(dfs_stack@[0] == stack0[0]);
                        }
                    }
                    if dfs_seen[node as usize].is_some() {
                    } else if contains_router(&dfs_path, node) {
                    } else if self.external[node as usize] {
                        let mut state: Vec<bool> = Vec::new();
                        let mut k: usize = 0;
                        while k < g
                            invariant
                                g <= groups_pos@.len(),
                                g <= groups_neg@.len(),
                                k <= g,
                                state@.len() == k,
                                forall|x: int| 0 <= x < k ==> #[trigger] state@[x] == leaf_rule(
                                    groups_pos@[x]@,
                                    groups_neg@[x]@,
                                    node,
                                ),
                            decreases g - k,
                        {
                            state.push(group_matches_leaf(&groups_pos[k], &groups_neg[k], node));
                            k += 1;
                        }
                        let ghost st = state@;
                        dfs_seen.set(node as usize, Some(state));
                        proof {
                            assert(st =~= Seq::new(g as nat, |k: int| leaf_rule(groups_pos@[k]@, groups_neg@[k]@, node)));
                            assert(seen_view(dfs_seen@) =~= cur.0.update(node as int, Some(st)));
                            lemma_unvisited_mark(seen0, dfs_seen@, path0, n as nat, node);
                            if node == router {
                                root_val = st;
                            }
                        }
                    } else {
                        let options = self.next_options(prev, node);
                        let ghost ov = options@;
                        let ghost stack1 = stack_view(dfs_stack@);
                        dfs_stack.push(options);
                        dfs_path.push(node);
                        proof {
                            assert(stack_view(dfs_stack@) =~= stack1.push(ov));
                            lemma_unvisited_enter(seen0, path0, dfs_path@, n as nat, node);
                        }
                    }
                },
                None => {
                    proof {
                        assert(started);
                    }
                    if dfs_path.len() > 0 {
                        let last_node = dfs_path.pop().unwrap();
                        let neighbors = self.next_options(prev, last_node);
                        let mut state: Vec<bool> = Vec::new();
                        let mut k: usize = 0;
                        while k < g
                            invariant
                                g <= groups_pos@.len(),
                                g <= groups_neg@.len(),
                                k <= g,
                                state@.len() == k,
                                dfs_seen@.len() == n,
                                dfs_seen@ == seen0,
                                forall|x: int|
                                    0 <= x < k ==> #[trigger] state@[x] == node_rule(
                                        groups_pos@[x]@,
                                        groups_neg@[x]@,
                                        last_node,
                                        below_value(groups_pos@, groups_neg@, x, last_node, neighbors@, seen_view(seen0)),
                                    ),
                                forall|x: int| 0 <= x < n ==> (#[trigger] dfs_seen@[x] matches Some(st) ==> st@.len() == g),
                                forall|j: int| 0 <= j < neighbors@.len() ==> #[trigger] neighbors@[j] < n,
                                forall|x: int|
                                    0 <= x < k ==> (groups_pos@[x]@.contains(NodeEdge::Node(last_node))
                                        ==> #[trigger] state@[x]) && (!groups_pos@[x]@.contains(
                                        NodeEdge::Node(last_node),
                                    ) && groups_neg@[x]@.contains(NodeEdge::Node(last_node)) ==> !state@[x]),
                                neighbors@.len() == 0 ==> forall|x: int|
                                    0 <= x < k ==> #[trigger] state@[x] == node_rule(
                                        groups_pos@[x]@,
                                        groups_neg@[x]@,
                                        last_node,
                                        true,
                                    ),
                            decreases g - k,
                        {
                            let mut combined = true;
                            let mut j: usize = 0;
                            while j < neighbors.len()
                                invariant
                                    k < g,
                                    g <= groups_pos@.len(),
                                    g <= groups_neg@.len(),
                                    j <= neighbors@.len(),
                                    dfs_seen@.len() == n,
                                    dfs_seen@ == seen0,
                                    combined == (forall|jj: int|
                                        0 <= jj < j ==> below_edge(
                                            groups_pos@,
                                            groups_neg@,
                                            k as int,
                                            last_node,
                                            #[trigger] neighbors@[jj],
                                            seen_view(seen0),
                                        )),
                                    forall|x: int| 0 <= x < n ==> (#[trigger] dfs_seen@[x] matches Some(st) ==> st@.len() == g),
                                    forall|j: int| 0 <= j < neighbors@.len() ==> #[trigger] neighbors@[j] < n,
                                    neighbors@.len() == 0 ==> combined,
                                decreases neighbors@.len() - j,
                            {
                                let nb = neighbors[j];
                                match &dfs_seen[nb as usize] {
                                    Some(other_state) => {
                                        if !group_matches_edge(&groups_pos[k], &groups_neg[k], last_node, nb, other_state[k]) {
                                            combined = false;
                                        }
                                    },
                                    None => {},
                                }
                                j += 1;
                            }
                            proof {
                                assert(combined == below_value(
                                    groups_pos@,
                                    groups_neg@,
                                    k as int,
                                    last_node,
                                    neighbors@,
                                    seen_view(seen0),
                                ));
                            }
                            state.push(group_matches_node(&groups_pos[k], &groups_neg[k], last_node, combined));
                            k += 1;
                        }
                        let ghost st = state@;
                        dfs_seen.set(last_node as usize, Some(state));
                        proof {
                            assert(st =~= left_values(groups_pos@, groups_neg@, g as nat, last_node, neighbors@, cur.0));
                            assert(seen_view(dfs_seen@) =~= cur.0.update(last_node as int, Some(st)));
                            assert(dfs_path@ =~= path0.drop_last());
                            assert(stack_view(dfs_stack@) =~= cur.2.drop_last());
                            lemma_unvisited_leave(seen0, dfs_seen@, path0, dfs_path@, n as nat, last_node);
                            assert(dfs_stack@ =~= stack0.drop_last());
                            lemma_stack_weight_pop_frame(stack0, dfs_stack@);
                            assert(path0[path0.len() - 1] == last_node);
                            assert(!self.externals()[last_node as int]);
                            if last_node == router {
                                if no_hops {
                                    if neighbors@.len() > 0 {
                                        assert(neighbors@.contains(neighbors@[0]));
                                    }
                                }
                                root_val = st;
                            }
                            if path0.len() == 1 {
                                assert(last_node == router);
                            }
                            if dfs_path@.len() > 0 {
                                assert(dfs_path@[0] == path0[0]);
                            }
                        }
                    } else {
                        proof {
                            assert(dfs_stack@ =~= stack0.drop_last());
                            assert(stack_view(dfs_stack@) =~= cur.2.drop_last());
                            lemma_stack_weight_pop_frame(stack0, dfs_stack@);
                        }
                    }
                },
            }
            proof {
                assert((seen_view(dfs_seen@), dfs_path@, stack_view(dfs_stack@)) == self.dfs_step(
                    prev,
                    groups_pos@,
                    groups_neg@,
                    cur,
                ));
                lemma_dfs_run_next(self, prev, groups_pos@, groups_neg@, self.dfs_start(router), steps);
                steps = steps + 1;
            }
        }
        proof {
            assert(started);
            assert(dfs_seen@[router as int] is Some);
        }
        let mut all = true;
        match &dfs_seen[router as usize] {
            Some(st) => {
                assert(st@ == root_val);
                assert(seen_view(dfs_seen@)[router as int] == Some(root_val));
                let mut k: usize = 0;
                while k < st.len()
                    invariant
                        k <= st@.len(),
                        all == (forall|x: int| 0 <= x < k ==> st@[x]),
                    decreases st@.len() - k,
                {
                    if !st[k] {
                        all = false;
                    }
                    k += 1;
                }
                proof {
                    let v = root_val;
                    let pos = groups_pos@;
                    let neg = groups_neg@;
                    assert(node_values(v, ext, no_hops, pos, neg, router));
                    assert(v.len() == g);
                    assert(all == (forall|x: int| 0 <= x < g ==> v[x]));
                    if ext {
                        if all {
                            assert forall|i: int| 0 <= i < g implies leaf_rule(pos[i]@, neg[i]@, router) by {
                                assert(v[i]);
                            }
                        } else {
                            let j = choose|j: int| 0 <= j < g && !v[j];
                            assert(!leaf_rule(pos[j]@, neg[j]@, router));
                        }
                    } else {
                        assert forall|i: int|
                            0 <= i < group_count(pos, neg) && !pos[i]@.contains(NodeEdge::Node(router))
                                && neg[i]@.contains(NodeEdge::Node(router)) implies !all by {
                            assert(!v[i]);
                        }
                        if forall|i: int| 0 <= i < group_count(pos, neg) ==> pos[i]@.contains(NodeEdge::Node(router)) {
                            assert forall|x: int| 0 <= x < g implies v[x] by {
                                assert(pos[x]@.contains(NodeEdge::Node(router)));
                            }
                        }
                        if no_hops {
                            if all {
                                assert forall|i: int| 0 <= i < g implies node_rule(pos[i]@, neg[i]@, router, true) by {
                                    assert(v[i]);
                                }
                            } else {
                                let j = choose|j: int| 0 <= j < g && !v[j];
                                assert(!node_rule(pos[j]@, neg[j]@, router, true));
                            }
                        }
                    }
                }
            },
            None => {
                proof {
                    assert(false);
                }
            },
        }
        proof {
            let fin = self.dfs_run(prev, groups_pos@, groups_neg@, self.dfs_start(router), steps);
            assert(fin.2.len() == 0);
            assert(fin.0[router as int] == Some(root_val));
            assert(all == (forall|x: int| 0 <= x < root_val.len() ==> root_val[x]));
            let v = fin.0[router as int]->Some_0;
            assert(v == root_val);
            if all {
                assert forall|x: int| 0 <= x < v.len() implies v[x] by {
                    assert(root_val[x]);
                }
            } else {
                let x = choose|x: int| 0 <= x < root_val.len() && !root_val[x];
                assert(!v[x]);
            }
        }
        all
    }
}

/// The done routers, the current path and the frames of the traversal of `cond_algorithm`.
pub type DfsState = (Seq<Option<Seq<bool>>>, Seq<RouterId>, Seq<Seq<RouterId>>);

/// The values of the done routers, as sequences.
pub open spec fn seen_view(seen: Seq<Option<Vec<bool>>>) -> Seq<Option<Seq<bool>>> {
    seen.map_values(
        |o: Option<Vec<bool>>|
            match o {
                Some(v) => Some(v@),
                None => None,
            },
    )
}

/// The frames of the traversal, as sequences.
pub open spec fn stack_view(stack: Seq<Vec<RouterId>>) -> Seq<Seq<RouterId>> {
    stack.map_values(|f: Vec<RouterId>| f@)
}

/// The value of group `k` over the edge from `a` to `b`: the edge rule on the value of `b`, and
/// `true` where `b` is not done.
pub open spec fn below_edge(
    pos: Seq<Vec<NodeEdge>>,
    neg: Seq<Vec<NodeEdge>>,
    k: int,
    a: RouterId,
    b: RouterId,
    seen: Seq<Option<Seq<bool>>>,
) -> bool {
    match seen[b as int] {
        Some(o) => pos[k]@.contains(NodeEdge::Edge(a, b)) || (!neg[k]@.contains(NodeEdge::Edge(a, b)) && o[k]),
        None => true,
    }
}

/// The value of group `k` below `node`: every edge to a next hop in `nbs` gives `true`.
pub open spec fn below_value(
    pos: Seq<Vec<NodeEdge>>,
    neg: Seq<Vec<NodeEdge>>,
    k: int,
    node: RouterId,
    nbs: Seq<RouterId>,
    seen: Seq<Option<Seq<bool>>>,
) -> bool {
    forall|j: int| 0 <= j < nbs.len() ==> below_edge(pos, neg, k, node, #[trigger] nbs[j], seen)
}

/// The values of the `g` groups at the internal router `node` when it is left: the node rule on
/// the values below it.
pub open spec fn left_values(
    pos: Seq<Vec<NodeEdge>>,
    neg: Seq<Vec<NodeEdge>>,
    g: nat,
    node: RouterId,
    nbs: Seq<RouterId>,
    seen: Seq<Option<Seq<bool>>>,
) -> Seq<bool> {
    Seq::new(g, |k: int| node_rule(pos[k]@, neg[k]@, node, below_value(pos, neg, k, node, nbs, seen)))
}

impl ForwardingSupergraph {
    /// The next hops of `node` below `v`, in this graph and the one before it, in increasing order.
    pub open spec fn hops_below(&self, prev: &Self, node: RouterId, v: nat) -> Seq<RouterId>
        decreases v,
    {
        if v == 0 {
            Seq::empty()
        } else {
            let rest = self.hops_below(prev, node, (v - 1) as nat);
            if self.hop(prev, node, (v - 1) as RouterId) {
                rest.push((v - 1) as RouterId)
            } else {
                rest
            }
        }
    }

    /// The traversal from `router` before its first step: no router done, an empty path, and one
    /// frame that holds the router.
    pub open spec fn dfs_start(&self, router: RouterId) -> DfsState {
        (Seq::new(self.size(), |k: int| None), Seq::empty(), seq![seq![router]])
    }

    /// One step of the traversal: the last router of the top frame is taken from it. A router
    /// that is done or on the path is passed over; an external one is done with the leaf rule;
    /// an internal one goes on the path, with a frame of its next hops. Where the top frame is
    /// empty, it is dropped, and the last router of the path leaves it, done with the values of
    /// `left_values` from the routers done so far.
    pub open spec fn dfs_step(
        &self,
        prev: &Self,
        pos: Seq<Vec<NodeEdge>>,
        neg: Seq<Vec<NodeEdge>>,
        st: DfsState,
    ) -> DfsState {
        let (seen, path, stack) = st;
        let g = group_count(pos, neg) as nat;
        let frame = stack.last();
        if frame.len() > 0 {
            let node = frame.last();
            let stack1 = stack.drop_last().push(frame.drop_last());
            if seen[node as int] is Some || path.contains(node) {
                (seen, path, stack1)
            } else if self.externals()[node as int] {
                (seen.update(node as int, Some(Seq::new(g, |k: int| leaf_rule(pos[k]@, neg[k]@, node)))), path, stack1)
            } else {
                (seen, path.push(node), stack1.push(self.hops_below(prev, node, self.size())))
            }
        } else if path.len() > 0 {
            let last = path.last();
            (
                seen.update(
                    last as int,
                    Some(left_values(pos, neg, g, last, self.hops_below(prev, last, self.size()), seen)),
                ),
                path.drop_last(),
                stack.drop_last(),
            )
        } else {
            (seen, path, stack.drop_last())
        }
    }

    /// The traversal after at most `fuel` steps: it stops once no frame is left.
    pub open spec fn dfs_run(
        &self,
        prev: &Self,
        pos: Seq<Vec<NodeEdge>>,
        neg: Seq<Vec<NodeEdge>>,
        st: DfsState,
        fuel: nat,
    ) -> DfsState
        decreases fuel,
    {
        if fuel == 0 || st.2.len() == 0 {
            st
        } else {
            self.dfs_run(prev, pos, neg, self.dfs_step(prev, pos, neg, st), (fuel - 1) as nat)
        }
    }

    /// The verdict `r` of the traversal from `router` on the groups `pos` and `neg`: the traversal
    /// comes to an end, and `r` says whether every group holds at the router then.
    pub open spec fn dfs_verdict(
        &self,
        prev: &Self,
        router: RouterId,
        pos: Seq<Vec<NodeEdge>>,
        neg: Seq<Vec<NodeEdge>>,
        r: bool,
    ) -> bool {
        exists|fuel: nat|
            #![trigger self.dfs_run(prev, pos, neg, self.dfs_start(router), fuel)]
            self.dfs_run(prev, pos, neg, self.dfs_start(router), fuel).2.len() == 0 && (r <==> (self.dfs_run(
                prev,
                pos,
                neg,
                self.dfs_start(router),
                fuel,
            ).0[router as int] matches Some(v) && forall|k: int| 0 <= k < v.len() ==> v[k]))
    }
}

/// Where the traversal has a frame left after `k` steps, one step more is one more step of it.
proof fn lemma_dfs_run_next(
    fsg: &ForwardingSupergraph,
    prev: &ForwardingSupergraph,
    pos: Seq<Vec<NodeEdge>>,
    neg: Seq<Vec<NodeEdge>>,
    st: DfsState,
    k: nat,
)
    requires
        fsg.dfs_run(prev, pos, neg, st, k).2.len() > 0,
    ensures
        fsg.dfs_run(prev, pos, neg, st, k + 1) == fsg.dfs_step(prev, pos, neg, fsg.dfs_run(prev, pos, neg, st, k)),
    decreases k,
{
    assert(st.2.len() > 0);
    let next = fsg.dfs_step(prev, pos, neg, st);
    assert(fsg.dfs_run(prev, pos, neg, st, k + 1) == fsg.dfs_run(prev, pos, neg, next, k));
    if k > 0 {
        assert(fsg.dfs_run(prev, pos, neg, st, k) == fsg.dfs_run(prev, pos, neg, next, (k - 1) as nat));
        lemma_dfs_run_next(fsg, prev, pos, neg, next, (k - 1) as nat);
        assert(((k - 1) as nat) + 1 == k);
    }
}

/// The internal routers below `k`, in increasing order.
pub open spec fn internal_below(ext: Seq<bool>, k: nat) -> Seq<RouterId>
    decreases k,
{
    if k == 0 {
        Seq::empty()
    } else {
        let rest = internal_below(ext, (k - 1) as nat);
        if !ext[k - 1] {
            rest.push((k - 1) as RouterId)
        } else {
            rest
        }
    }
}

impl ForwardingSupergraph {
    /// The line of router `a`: its name, then the names of its next hops between brackets.
    pub open spec fn router_line(&self, a: RouterId, names: Seq<Seq<char>>) -> Seq<char> {
        names[a as int] + " -> ["@ + path_names(self.next_hops()[a as int], names, ", "@) + "]"@
    }

    /// The number of routers.
    pub(crate) fn size_exec(&self) -> (r: usize)
        ensures
            r == self.size(),
    {
        self.external.len()
    }

    /// The lines of the routers `rs`.
    pub open spec fn router_lines(&self, rs: Seq<RouterId>, names: Seq<Seq<char>>) -> Seq<Seq<char>> {
        rs.map_values(|a: RouterId| self.router_line(a, names))
    }

    /// The lines of the internal routers, one below the other.
    pub open spec fn written(&self, names: Seq<Seq<char>>) -> Seq<char> {
        let rs = internal_below(self.externals(), self.size());
        items_joined(self.router_lines(rs, names), "\n"@, rs.len())
    }

    /// Returns a representation string of the forwarding supergraph, where the router names have
    /// been inserted: for each internal router, its next hops. The names are indexed by router.
    pub fn repr_with_name(&self, names: &Vec<String>) -> (s: String)
        requires
            self.wf(),
            self.size() <= names@.len(),
            self.size() <= u32::MAX,
        ensures
            s@ == self.written(names@.map_values(|x: String| x@)),
    {
        let ghost nv = names@.map_values(|x: String| x@);
        let mut lines: Vec<String> = Vec::new();
        let mut idx: usize = 0;
        assert(lines@.map_values(|x: String| x@) =~= self.router_lines(internal_below(self.externals(), 0), nv));
        while idx < self.external.len()
            invariant
                self.wf(),
                self.size() <= names@.len(),
                self.size() <= u32::MAX,
                idx <= self.size(),
                nv == names@.map_values(|x: String| x@),
                lines@.map_values(|x: String| x@) == self.router_lines(internal_below(self.externals(), idx as nat), nv),
            decreases self.size() - idx,
        {
            let ghost before = lines@;
            if !self.external[idx] {
                let a = idx as RouterId;
                let mut line = String::from_str(names[idx].as_str());
                line.append(" -> [");
                assert(self.next_hops()[a as int] == self.neighbors@[idx as int]@);
                let ghost hops = self.neighbors@[idx as int]@;
                assert forall|i: int| 0 <= i < hops.len() implies #[trigger] hops[i] < names@.len() by {
                    assert(self.next_hops()[a as int][i] < self.size());
                }
                append_path(&mut line, &self.neighbors[idx], names, ", ");
                line.append("]");
                assert(nv[idx as int] == names@[idx as int]@);
                assert(line@ == self.router_line(a, nv));
                assert(internal_below(self.externals(), (idx + 1) as nat) == internal_below(self.externals(), idx as nat).push(a));
                let ghost lv = line@;
                lines.push(line);
                proof {
                    let r0 = internal_below(self.externals(), idx as nat);
                    assert(self.router_lines(r0.push(a), nv) =~= self.router_lines(r0, nv).push(lv));
                    assert(lines@.map_values(|x: String| x@) =~= before.map_values(|x: String| x@).push(lv));
                }
            }
            idx += 1;
        }
        join_strings(&lines, "\n")
    }
}

/// Every router that the node or edge names is below `n`.
pub open spec fn node_edge_below(x: NodeEdge, n: nat) -> bool {
    match x {
        NodeEdge::Node(r) => r < n,
        NodeEdge::Edge(a, b) => a < n && b < n,
    }
}

/// The disjuncts of a group: first the nodes and edges that must not be traversed, negated, then
/// those that must.
pub open spec fn edge_items(pos: Seq<NodeEdge>, neg: Seq<NodeEdge>, names: Seq<Seq<char>>) -> Seq<Seq<char>> {
    neg.map_values(|x: NodeEdge| seq!['!'] + x.condition().written(Some(names))) + pos.map_values(
        |x: NodeEdge| x.condition().written(Some(names)),
    )
}

/// How a group is written: its disjuncts between parentheses.
pub open spec fn edge_group_text(pos: Seq<NodeEdge>, neg: Seq<NodeEdge>, names: Seq<Seq<char>>) -> Seq<char> {
    let items = edge_items(pos, neg, names);
    seq!['('] + if items.len() == 0 {
        seq!['f', 'a', 'l', 's', 'e']
    } else {
        items_joined(items, or_sep(), items.len())
    } + seq![')']
}

/// How the groups are written, one for each group of `pos`.
pub open spec fn group_texts(pos: Seq<Vec<NodeEdge>>, neg: Seq<Vec<NodeEdge>>, names: Seq<Seq<char>>) -> Seq<Seq<char>> {
    Seq::new(pos.len(), |i: int| edge_group_text(pos[i]@, neg[i]@, names))
}

/// How the groups of a condition in conjunctive normal form are written: their conjunction.
pub open spec fn fast_text(pos: Seq<Vec<NodeEdge>>, neg: Seq<Vec<NodeEdge>>, names: Seq<Seq<char>>) -> Seq<char> {
    seq!['('] + if pos.len() == 0 {
        seq!['t', 'r', 'u', 'e']
    } else {
        items_joined(group_texts(pos, neg, names), and_sep(), pos.len())
    } + seq![')']
}

/// Whether every router of the nodes and edges of the groups is below `n`.
fn all_below(groups: &Vec<Vec<NodeEdge>>, n: usize) -> (r: bool)
    ensures
        r == forall|i: int, k: int|
            0 <= i < groups@.len() && 0 <= k < groups@[i]@.len() ==> node_edge_below(#[trigger] groups@[i]@[k], n as nat),
{
    let mut i: usize = 0;
    while i < groups.len()
        invariant
            i <= groups@.len(),
            forall|a: int, k: int|
                0 <= a < i && 0 <= k < groups@[a]@.len() ==> node_edge_below(#[trigger] groups@[a]@[k], n as nat),
        decreases groups@.len() - i,
    {
        let mut k: usize = 0;
        while k < groups[i].len()
            invariant
                i < groups@.len(),
                k <= groups@[i as int]@.len(),
                forall|a: int, k: int|
                    0 <= a < i && 0 <= k < groups@[a]@.len() ==> node_edge_below(#[trigger] groups@[a]@[k], n as nat),
                forall|j: int| 0 <= j < k ==> node_edge_below(#[trigger] groups@[i as int]@[j], n as nat),
            decreases groups@[i as int]@.len() - k,
        {
            let below = match &groups[i][k] {
                NodeEdge::Node(x) => (*x as usize) < n,
                NodeEdge::Edge(a, b) => (*a as usize) < n && (*b as usize) < n,
            };
            if !below {
                return false;
            }
            k += 1;
        }
        i += 1;
    }
    true
}

/// How the node or edge is written, with the routers written by their names.
fn node_edge_text(x: &NodeEdge, names: &Vec<String>) -> (s: String)
    requires
        node_edge_below(*x, names@.len()),
    ensures
        s@ == x.condition().written(Some(names@.map_values(|y: String| y@))),
{
    let c = x.clone().into_condition();
    assert(names_view(Some(names)) == Some(names@.map_values(|y: String| y@)));
    c.repr_with_name(names)
}

/// How a group is written.
fn edge_group_repr(pos: &Vec<NodeEdge>, neg: &Vec<NodeEdge>, names: &Vec<String>) -> (s: String)
    requires
        forall|k: int| 0 <= k < pos@.len() ==> node_edge_below(#[trigger] pos@[k], names@.len()),
        forall|k: int| 0 <= k < neg@.len() ==> node_edge_below(#[trigger] neg@[k], names@.len()),
    ensures
        s@ == edge_group_text(pos@, neg@, names@.map_values(|y: String| y@)),
{
    let ghost nv = names@.map_values(|y: String| y@);
    let ghost all = edge_items(pos@, neg@, nv);
    let mut items: Vec<String> = Vec::new();
    let mut k: usize = 0;
    while k < neg.len()
        invariant
            k <= neg@.len(),
            nv == names@.map_values(|y: String| y@),
            all == edge_items(pos@, neg@, nv),
            forall|k: int| 0 <= k < neg@.len() ==> node_edge_below(#[trigger] neg@[k], names@.len()),
            items@.len() == k,
            forall|i: int| 0 <= i < k ==> (#[trigger] items@[i])@ == all[i],
        decreases neg@.len() - k,
    {
        let mut t = String::from_str("!");
        let e = node_edge_text(&neg[k], names);
        t.append(e.as_str());
        proof {
            reveal_strlit("!");
        }
        items.push(t);
        k += 1;
    }
    let mut j: usize = 0;
    while j < pos.len()
        invariant
            j <= pos@.len(),
            nv == names@.map_values(|y: String| y@),
            all == edge_items(pos@, neg@, nv),
            forall|k: int| 0 <= k < pos@.len() ==> node_edge_below(#[trigger] pos@[k], names@.len()),
            items@.len() == neg@.len() + j,
            forall|i: int| 0 <= i < neg@.len() + j ==> (#[trigger] items@[i])@ == all[i],
        decreases pos@.len() - j,
    {
        let e = node_edge_text(&pos[j], names);
        items.push(e);
        j += 1;
    }
    assert(items@.map_values(|y: String| y@) =~= all);
    let mut s = String::from_str("(");
    if items.len() == 0 {
        s.append("false");
    } else {
        let inner = join_strings(&items, " || ");
        s.append(inner.as_str());
    }
    s.append(")");
    proof {
        reveal_strlit("(");
        reveal_strlit(")");
        reveal_strlit("false");
        reveal_strlit(" || ");
        assert(" || "@ =~= or_sep());
        assert(s@ =~= edge_group_text(pos@, neg@, nv));
    }
    s
}

impl TransientCondition {
    /// Every router that the condition names is below `n`, and there is a list of the nodes and
    /// edges that must not be traversed for each group.
    pub open spec fn named(self, n: nat) -> bool {
        match self {
            TransientCondition::FastMode { router_id, groups_pos, groups_neg, .. } => {
                &&& router_id < n
                &&& groups_pos@.len() <= groups_neg@.len()
                &&& forall|i: int, k: int|
                    0 <= i < groups_pos@.len() && 0 <= k < groups_pos@[i]@.len() ==> node_edge_below(
                        #[trigger] groups_pos@[i]@[k],
                        n,
                    )
                &&& forall|i: int, k: int|
                    0 <= i < groups_neg@.len() && 0 <= k < groups_neg@[i]@.len() ==> node_edge_below(
                        #[trigger] groups_neg@[i]@[k],
                        n,
                    )
            },
            TransientCondition::SlowMode { router_id, condition, .. } => router_id < n && condition.routers_below(n),
        }
    }

    /// How the condition is written: the name of its router, then its path condition.
    pub open spec fn written(self, names: Seq<Seq<char>>) -> Seq<char> {
        match self {
            TransientCondition::FastMode { router_id, groups_pos, groups_neg, .. } => names[router_id as int]
                + ": "@ + fast_text(groups_pos@, groups_neg@, names),
            TransientCondition::SlowMode { router_id, condition, .. } => names[router_id as int] + ": "@
                + condition.written(Some(names)),
        }
    }

    /// Whether every router that the condition names is below `n`, with a list of the nodes and
    /// edges that must not be traversed for each group.
    pub(crate) fn has_names(&self, n: usize) -> (r: bool)
        ensures
            r == self.named(n as nat),
    {
        match self {
            TransientCondition::FastMode { router_id, groups_pos, groups_neg, .. } => {
                if (*router_id as usize) >= n || groups_pos.len() > groups_neg.len() {
                    return false;
                }
                all_below(groups_pos, n) && all_below(groups_neg, n)
            },
            TransientCondition::SlowMode { router_id, condition, .. } => (*router_id as usize) < n
                && condition.has_routers_below(n),
        }
    }

    /// Represent the condition as a string, with the router names inserted. The names are indexed
    /// by router.
    pub fn repr_with_name(&self, names: &Vec<String>) -> (s: String)
        requires
            self.named(names@.len()),
        ensures
            s@ == self.written(names@.map_values(|y: String| y@)),
    {
        let ghost nv = names@.map_values(|y: String| y@);
        assert(names_view(Some(names)) == Some(nv));
        match self {
            TransientCondition::FastMode { router_id, groups_pos, groups_neg, .. } => {
                let mut s = String::from_str(names[*router_id as usize].as_str());
                s.append(": ");
                let mut groups: Vec<String> = Vec::new();
                let mut i: usize = 0;
                while i < groups_pos.len()
                    invariant
                        i <= groups_pos@.len(),
                        groups_pos@.len() <= groups_neg@.len(),
                        nv == names@.map_values(|y: String| y@),
                        forall|i: int, k: int|
                            0 <= i < groups_pos@.len() && 0 <= k < groups_pos@[i]@.len() ==> node_edge_below(
                                #[trigger] groups_pos@[i]@[k],
                                names@.len(),
                            ),
                        forall|i: int, k: int|
                            0 <= i < groups_neg@.len() && 0 <= k < groups_neg@[i]@.len() ==> node_edge_below(
                                #[trigger] groups_neg@[i]@[k],
                                names@.len(),
                            ),
                        groups@.len() == i,
                        forall|x: int| 0 <= x < i ==> (#[trigger] groups@[x])@ == group_texts(groups_pos@, groups_neg@, nv)[x],
                    decreases groups_pos@.len() - i,
                {
                    proof {
                        let pi = groups_pos@[i as int]@;
                        let ni = groups_neg@[i as int]@;
                        assert(forall|k: int| 0 <= k < pi.len() ==> node_edge_below(#[trigger] pi[k], names@.len()));
                        assert(forall|k: int| 0 <= k < ni.len() ==> node_edge_below(#[trigger] ni[k], names@.len()));
                    }
                    let g = edge_group_repr(&groups_pos[i], &groups_neg[i], names);
                    groups.push(g);
                    i += 1;
                }
                assert(groups@.map_values(|y: String| y@) =~= group_texts(groups_pos@, groups_neg@, nv));
                s.append("(");
                if groups.len() == 0 {
                    s.append("true");
                } else {
                    let inner = join_strings(&groups, " && ");
                    s.append(inner.as_str());
                }
                s.append(")");
                proof {
                    reveal_strlit("(");
                    reveal_strlit(")");
                    reveal_strlit("true");
                    reveal_strlit(" && ");
                    assert(" && "@ =~= and_sep());
                    assert(nv[*router_id as int] == names@[*router_id as int]@);
                    assert(s@ =~= self.written(nv));
                }
                s
            },
            TransientCondition::SlowMode { router_id, condition, .. } => {
                let mut s = String::from_str(names[*router_id as usize].as_str());
                s.append(": ");
                let c = condition.repr_with_name(names);
                s.append(c.as_str());
                proof {
                    assert(nv[*router_id as int] == names@[*router_id as int]@);
                    assert(s@ =~= self.written(nv));
                }
                s
            },
        }
    }
}

/// The number of groups: as many as there are of the shorter of the two lists.
pub open spec fn group_count(pos: Seq<Vec<NodeEdge>>, neg: Seq<Vec<NodeEdge>>) -> int {
    if pos.len() < neg.len() {
        pos.len() as int
    } else {
        neg.len() as int
    }
}

/// The value of a group at an external router: it requires the router, or it excludes routers
/// and not this one.
pub open spec fn leaf_rule(pos: Seq<NodeEdge>, neg: Seq<NodeEdge>, node: RouterId) -> bool {
    pos.contains(NodeEdge::Node(node)) || (neg.len() > 0 && !neg.contains(NodeEdge::Node(node)))
}

/// The value of a group at an internal router, from the value `below` of its next hops: the
/// group requires the router, or it does not exclude it and holds below.
pub open spec fn node_rule(pos: Seq<NodeEdge>, neg: Seq<NodeEdge>, node: RouterId, below: bool) -> bool {
    pos.contains(NodeEdge::Node(node)) || (!neg.contains(NodeEdge::Node(node)) && below)
}

/// What is known of the values `v` of the groups at `node`: at an external router they follow
/// the leaf rule; at an internal one they follow the node rule, from `true` where the router has
/// no next hop.
pub open spec fn node_values(
    v: Seq<bool>,
    external: bool,
    no_hops: bool,
    pos: Seq<Vec<NodeEdge>>,
    neg: Seq<Vec<NodeEdge>>,
    node: RouterId,
) -> bool {
    &&& v.len() == group_count(pos, neg)
    &&& external ==> forall|i: int| 0 <= i < v.len() ==> v[i] == leaf_rule(pos[i]@, neg[i]@, node)
    &&& !external ==> forall|i: int|
        0 <= i < v.len() ==> (pos[i]@.contains(NodeEdge::Node(node)) ==> v[i]) && (!pos[i]@.contains(
            NodeEdge::Node(node),
        ) && neg[i]@.contains(NodeEdge::Node(node)) ==> !v[i])
    &&& !external && no_hops ==> forall|i: int| 0 <= i < v.len() ==> v[i] == node_rule(pos[i]@, neg[i]@, node, true)
}

/// The number of routers below `k` that are neither done nor on the path.
pub open spec fn unvisited(seen: Seq<Option<Vec<bool>>>, path: Seq<RouterId>, k: nat) -> nat
    decreases k,
{
    if k == 0 {
        0
    } else {
        let x = (k - 1) as nat;
        unvisited(seen, path, x) + if seen[x as int] is None && !path.contains(x as RouterId) {
            1nat
        } else {
            0nat
        }
    }
}

/// The number of options of the frames, plus one for each frame.
pub open spec fn stack_weight(s: Seq<Vec<RouterId>>) -> nat
    decreases s.len(),
{
    if s.len() == 0 {
        0
    } else {
        stack_weight(s.drop_last()) + s.last()@.len() + 1
    }
}

/// Taking an option from the top frame lightens the stack.
proof fn lemma_stack_weight_pop_option(before: Seq<Vec<RouterId>>, after: Seq<Vec<RouterId>>)
    requires
        before.len() > 0,
        after.len() == before.len(),
        after.drop_last() == before.drop_last(),
        after.last()@.len() + 1 == before.last()@.len(),
    ensures
        stack_weight(after) < stack_weight(before),
{
}

/// Dropping the top frame lightens the stack.
proof fn lemma_stack_weight_pop_frame(before: Seq<Vec<RouterId>>, after: Seq<Vec<RouterId>>)
    requires
        before.len() > 0,
        after == before.drop_last(),
    ensures
        stack_weight(after) < stack_weight(before),
{
}

/// At most `k` routers below `k` are unvisited.
proof fn lemma_unvisited_bound(seen: Seq<Option<Vec<bool>>>, path: Seq<RouterId>, k: nat)
    ensures
        unvisited(seen, path, k) <= k,
    decreases k,
{
    if k > 0 {
        lemma_unvisited_bound(seen, path, (k - 1) as nat);
    }
}

/// Routers below `k` that are unvisited in one state exactly when in the other are as many.
proof fn lemma_unvisited_same(
    s1: Seq<Option<Vec<bool>>>,
    p1: Seq<RouterId>,
    s2: Seq<Option<Vec<bool>>>,
    p2: Seq<RouterId>,
    k: nat,
)
    requires
        forall|x: int| 0 <= x < k ==> ((s1[x] is None && !p1.contains(x as RouterId)) <==> (s2[x] is None
            && !p2.contains(x as RouterId))),
    ensures
        unvisited(s1, p1, k) == unvisited(s2, p2, k),
    decreases k,
{
    if k > 0 {
        lemma_unvisited_same(s1, p1, s2, p2, (k - 1) as nat);
    }
}

/// A router that stops being unvisited, while every other keeps its status, lowers the count by
/// one; a router that keeps its status leaves it unchanged.
proof fn lemma_unvisited_one(
    s1: Seq<Option<Vec<bool>>>,
    p1: Seq<RouterId>,
    s2: Seq<Option<Vec<bool>>>,
    p2: Seq<RouterId>,
    k: nat,
    y: int,
)
    requires
        0 <= y,
        forall|x: int| 0 <= x < k && x != y ==> ((s1[x] is None && !p1.contains(x as RouterId)) <==> (
        s2[x] is None && !p2.contains(x as RouterId))),
        s1[y] is None && !p1.contains(y as RouterId),
        !(s2[y] is None && !p2.contains(y as RouterId)),
    ensures
        y < k ==> unvisited(s2, p2, k) + 1 == unvisited(s1, p1, k),
        y >= k ==> unvisited(s2, p2, k) == unvisited(s1, p1, k),
    decreases k,
{
    if k > 0 {
        lemma_unvisited_one(s1, p1, s2, p2, (k - 1) as nat, y);
    }
}

/// Marking an external router as done, that was neither done nor on the path, leaves one
/// router less unvisited.
proof fn lemma_unvisited_mark(
    seen0: Seq<Option<Vec<bool>>>,
    seen1: Seq<Option<Vec<bool>>>,
    path: Seq<RouterId>,
    n: nat,
    node: RouterId,
)
    requires
        n <= u32::MAX,
        node < n,
        seen0.len() == n,
        seen0[node as int] is None,
        !path.contains(node),
        seen1 == seen0.update(node as int, seen1[node as int]),
        seen1[node as int] is Some,
    ensures
        unvisited(seen1, path, n) < unvisited(seen0, path, n),
{
    lemma_unvisited_one(seen0, path, seen1, path, n, node as int);
}

/// Entering a router, that was neither done nor on the path, leaves one router less unvisited.
proof fn lemma_unvisited_enter(
    seen: Seq<Option<Vec<bool>>>,
    path0: Seq<RouterId>,
    path1: Seq<RouterId>,
    n: nat,
    node: RouterId,
)
    requires
        n <= u32::MAX,
        node < n,
        seen[node as int] is None,
        !path0.contains(node),
        path1 == path0.push(node),
    ensures
        unvisited(seen, path1, n) < unvisited(seen, path0, n),
{
    assert forall|x: int| 0 <= x < n && x != node implies ((seen[x] is None && !path0.contains(x as RouterId))
        <==> (seen[x] is None && !path1.contains(x as RouterId))) by {
        if path1.contains(x as RouterId) {
            let i = choose|i: int| 0 <= i < path1.len() && path1[i] == x as RouterId;
            if i < path0.len() {
                assert(path0[i] == x as RouterId);
            } else {
                assert(path1[i] == node);
            }
        }
        if path0.contains(x as RouterId) {
            let i = choose|i: int| 0 <= i < path0.len() && path0[i] == x as RouterId;
            assert(path1[i] == x as RouterId);
        }
    }
    assert(path1[path0.len() as int] == node);
    lemma_unvisited_one(seen, path0, seen, path1, n, node as int);
}

/// Leaving the last router of the path for the routers that are done keeps the number of
/// unvisited routers.
proof fn lemma_unvisited_leave(
    seen0: Seq<Option<Vec<bool>>>,
    seen1: Seq<Option<Vec<bool>>>,
    path0: Seq<RouterId>,
    path1: Seq<RouterId>,
    n: nat,
    node: RouterId,
)
    requires
        n <= u32::MAX,
        node < n,
        seen0.len() == n,
        path0.len() > 0,
        path0.last() == node,
        path1 == path0.drop_last(),
        seen1 == seen0.update(node as int, seen1[node as int]),
        seen1[node as int] is Some,
    ensures
        unvisited(seen1, path1, n) == unvisited(seen0, path0, n),
{
    assert forall|x: int| 0 <= x < n implies ((seen0[x] is None && !path0.contains(x as RouterId)) <==> (
    seen1[x] is None && !path1.contains(x as RouterId))) by {
        if x == node {
            assert(path0.contains(node)) by {
                assert(path0[path0.len() - 1] == node);
            }
        } else {
            if path1.contains(x as RouterId) {
                let i = choose|i: int| 0 <= i < path1.len() && path1[i] == x as RouterId;
                assert(path0[i] == x as RouterId);
            }
            if path0.contains(x as RouterId) {
                let i = choose|i: int| 0 <= i < path0.len() && path0[i] == x as RouterId;
                assert(i != path0.len() - 1);
                assert(path1[i] == x as RouterId);
            }
        }
    }
    lemma_unvisited_same(seen0, path0, seen1, path1, n);
}

/// Whether `v` holds the node or edge `x`.
fn contains_node_edge(v: &Vec<NodeEdge>, x: NodeEdge) -> (r: bool)
    ensures
        r == v@.contains(x),
{
    let mut i: usize = 0;
    while i < v.len()
        invariant
            i <= v@.len(),
            forall|k: int| 0 <= k < i ==> v@[k] != x,
        decreases v@.len() - i,
    {
        if v[i] == x {
            return true;
        }
        i += 1;
    }
    false
}

/// This is the logic for checking if a leaf makes a group to become true or not.
///
/// - if pos matches, no matter neg, we are true
/// - if pos does not match, but neg does, we are false
/// - if nothing matches, but neg is non-empty, then we are true
/// - if nothing matches, but neg is empty, then we are false.
fn group_matches_leaf(pos: &Vec<NodeEdge>, neg: &Vec<NodeEdge>, node: RouterId) -> (r: bool)
    ensures
        r == (pos@.contains(NodeEdge::Node(node)) || (neg@.len() > 0 && !neg@.contains(NodeEdge::Node(node)))),
{
    if contains_node_edge(pos, NodeEdge::Node(node)) {
        true
    } else if neg.len() == 0 {
        false
    } else {
        !contains_node_edge(neg, NodeEdge::Node(node))
    }
}

/// This is the logic for checking if an edge to an already checked node is true
///
/// - if pos matches the edge, no matter neg, we are true
/// - if pos does not match the edge, but neg does, we are false
/// - if nothing matches, take the value from the target.
fn group_matches_edge(
    pos: &Vec<NodeEdge>,
    neg: &Vec<NodeEdge>,
    a: RouterId,
    b: RouterId,
    old_value: bool,
) -> (r: bool)
    ensures
        r == (pos@.contains(NodeEdge::Edge(a, b)) || (!neg@.contains(NodeEdge::Edge(a, b)) && old_value)),
{
    if contains_node_edge(pos, NodeEdge::Edge(a, b)) {
        true
    } else if contains_node_edge(neg, NodeEdge::Edge(a, b)) {
        false
    } else {
        old_value
    }
}

/// This is the logic, responsible for determining if a group matches, based on the current node,
/// the parent and the group definition, based on pos and neg.
///
/// - if pos matches, no matter neg, we are true
/// - if pos does not match, but neg does, we are false
/// - if nothing matches, then the old value will remain
fn group_matches_node(pos: &Vec<NodeEdge>, neg: &Vec<NodeEdge>, node: RouterId, old_value: bool) -> (r: bool)
    ensures
        r == (pos@.contains(NodeEdge::Node(node)) || (!neg@.contains(NodeEdge::Node(node)) && old_value)),
{
    if contains_node_edge(pos, NodeEdge::Node(node)) {
        true
    } else if contains_node_edge(neg, NodeEdge::Node(node)) {
        false
    } else {
        old_value
    }
}

/// The paths of the forwarding supergraph from one router, given one by one.
#[derive(Debug)]
pub struct ForwardingSupergraphPaths {
    paths: Vec<Vec<RouterId>>,
}

impl ForwardingSupergraphPaths {
    /// The paths that are still to come, in order.
    pub closed spec fn remaining(&self) -> Seq<Seq<RouterId>> {
        views(self.paths@)
    }

    /// The next path, if any is left.
    pub fn next(&mut self) -> (r: Option<Vec<RouterId>>)
        ensures
            old(self).remaining().len() == 0 ==> r is None && final(self).remaining() == old(self).remaining(),
            old(self).remaining().len() > 0 ==> (r matches Some(p) && p@ == old(self).remaining()[0]
                && final(self).remaining() == old(self).remaining().drop_first()),
    {
        if self.paths.len() == 0 {
            None
        } else {
            let p = self.paths.remove(0);
            proof {
                assert(views(self.paths@) =~= views(old(self).paths@).drop_first());
            }
            Some(p)
        }
    }
}

/// A transient condition on the paths from a router.
#[derive(Debug)]
pub enum TransientCondition {
    /// The condition in conjunctive normal form: each group lists the nodes and edges of which
    /// one must be traversed, and those of which one must not.
    FastMode {
        /// The router from which the paths start
        router_id: RouterId,
        /// The position of the condition in the hard policy
        cond_id: usize,
        /// The nodes and edges of each group that must be traversed
        groups_pos: Vec<Vec<NodeEdge>>,
        /// The nodes and edges of each group that must not be traversed
        groups_neg: Vec<Vec<NodeEdge>>,
    },
    /// The condition, checked on each path.
    SlowMode {
        /// The router from which the paths start
        router_id: RouterId,
        /// The position of the condition in the hard policy
        cond_id: usize,
        /// The path condition
        condition: PathCondition,
    },
}

impl TransientCondition {
    /// The router from which the paths start.
    pub open spec fn router(&self) -> RouterId {
        match self {
            TransientCondition::FastMode { router_id, .. } => *router_id,
            TransientCondition::SlowMode { router_id, .. } => *router_id,
        }
    }

    /// The transient condition that checks the path condition on each path from the router.
    pub fn new(router_id: RouterId, cond_id: usize, cond: &PathCondition) -> (r: Self)
        ensures
            r matches TransientCondition::SlowMode { router_id: a, cond_id: b, condition: c } && a == router_id
                && b == cond_id && cond.same_as(c),
    {
        TransientCondition::SlowMode { router_id, cond_id, condition: cond.deep_clone() }
    }

    /// The position of the condition in the hard policy.
    pub open spec fn cond_id_of(&self) -> usize {
        match self {
            TransientCondition::FastMode { cond_id, .. } => *cond_id,
            TransientCondition::SlowMode { cond_id, .. } => *cond_id,
        }
    }

    /// The position of the condition in the hard policy.
    pub fn cond_id(&self) -> (r: usize)
        ensures
            r == self.cond_id_of(),
    {
        match self {
            TransientCondition::FastMode { cond_id, .. } => *cond_id,
            TransientCondition::SlowMode { cond_id, .. } => *cond_id,
        }
    }
}

} // verus!
