//! # Transient state analysis
//!
//! The transient path conditions of a hard policy are checked on the forwarding supergraphs of
//! consecutive states: every path that packets may take while the network converges from one
//! state to the next must satisfy them.
use vstd::prelude::*;
use crate::hard_policies::condition::Condition;
use crate::hard_policies::condition_repr::{items_joined, join_strings};
use crate::hard_policies::repr::{append_decimal, decimal};
use crate::hard_policies::transient_behavior::forwarding_supergraph::{
    ForwardingSupergraph, TransientCondition,
};
use crate::netsim::{Prefix, RouterId};

verus! {

/// The positions, among the first `k` conditions, of the transient path conditions for `prefix`.
pub open spec fn transient_positions(conds: Seq<Condition>, prefix: Prefix, k: nat) -> Seq<usize>
    decreases k,
{
    if k == 0 {
        Seq::empty()
    } else {
        let rest = transient_positions(conds, prefix, (k - 1) as nat);
        if conds[k - 1] matches Condition::TransientPath(_, p, _) && p == prefix {
            rest.push((k - 1) as usize)
        } else {
            rest
        }
    }
}

/// Whether `t` checks the transient path condition at position `i` of `conds`.
pub open spec fn checks_condition(t: TransientCondition, conds: Seq<Condition>, i: int) -> bool {
    0 <= i < conds.len() && match (t, conds[i]) {
        (
            TransientCondition::SlowMode { router_id, cond_id, condition },
            Condition::TransientPath(r, _, c),
        ) => router_id == r && cond_id == i && c.same_as(condition),
        _ => false,
    }
}

/// Whether every path of the supergraph `cur` and the one before it, from `router`, satisfies
/// the path condition of the transient condition `t`.
pub open spec fn transient_holds(
    cur: ForwardingSupergraph,
    prev: ForwardingSupergraph,
    t: TransientCondition,
) -> bool {
    forall|p: Seq<RouterId>| cur.is_route_from(&prev, t.router(), p) ==> t->SlowMode_condition.sat(p)
}

/// The analyzer of the transient path conditions for one prefix.
#[derive(Debug)]
struct PrefixAnalyzer {
    /// Prefix which is checked
    prefix: Prefix,
    /// Forwarding Supergraph at every position
    fwsg: Vec<ForwardingSupergraph>,
    /// Conditions for this prefix
    conds: Vec<TransientCondition>,
}

impl PrefixAnalyzer {
    /// The verdicts on the conditions: for each, its position and whether it holds on the last
    /// two supergraphs; none before there are two.
    spec fn verdicts(&self) -> Seq<(usize, bool)> {
        if self.fwsg@.len() < 2 {
            Seq::empty()
        } else {
            let cur = self.fwsg@.last();
            let prev = self.fwsg@[self.fwsg@.len() - 2];
            Seq::new(
                self.conds@.len(),
                |k: int| (self.conds@[k].cond_id_of(), transient_holds(cur, prev, self.conds@[k])),
            )
        }
    }

    /// The supergraphs describe the same routers, at most `u32::MAX` of them, and the
    /// conditions start at routers of the graphs and check each path.
    spec fn ready(&self) -> bool {
        &&& forall|i: int, j: int| #![trigger self.fwsg@[i], self.fwsg@[j]]
            0 <= i < self.fwsg@.len() && 0 <= j < self.fwsg@.len() ==> self.fwsg@[i].compatible(&self.fwsg@[j])
        &&& forall|i: int| 0 <= i < self.fwsg@.len() ==> (#[trigger] self.fwsg@[i]).size() <= u32::MAX
        &&& forall|i: int, k: int|
            0 <= i < self.fwsg@.len() && 0 <= k < self.conds@.len() ==> (#[trigger] self.conds@[k]).router()
                < (#[trigger] self.fwsg@[i]).size()
        &&& forall|k: int| 0 <= k < self.conds@.len() ==> (#[trigger] self.conds@[k]) is SlowMode
    }

    fn new(prefix: Prefix, conditions: &[Condition]) -> (r: Self)
        ensures
            r.prefix == prefix,
            r.fwsg@.len() == 0,
            r.conds@.len() == transient_positions(conditions@, prefix, conditions@.len()).len(),
            forall|k: int|
                0 <= k < r.conds@.len() ==> checks_condition(
                    #[trigger] r.conds@[k],
                    conditions@,
                    transient_positions(conditions@, prefix, conditions@.len())[k] as int,
                ),
    {
        let mut conds: Vec<TransientCondition> = Vec::new();
        let mut i: usize = 0;
        while i < conditions.len()
            invariant
                i <= conditions@.len(),
                conds@.len() == transient_positions(conditions@, prefix, i as nat).len(),
                forall|k: int|
                    0 <= k < conds@.len() ==> checks_condition(
                        #[trigger] conds@[k],
                        conditions@,
                        transient_positions(conditions@, prefix, i as nat)[k] as int,
                    ),
                forall|k: int|
                    0 <= k < conds@.len() ==> #[trigger] transient_positions(conditions@, prefix, i as nat)[k]
                        < i,
            decreases conditions@.len() - i,
        {
            let ghost before = transient_positions(conditions@, prefix, i as nat);
            match &conditions[i] {
                Condition::TransientPath(r, p, c) => {
                    if *p == prefix {
                        conds.push(TransientCondition::new(*r, i, c));
                    }
                },
                _ => {},
            }
            proof {
                let after = transient_positions(conditions@, prefix, (i + 1) as nat);
                assert(after == before || after == before.push(i));
                assert forall|k: int| 0 <= k < conds@.len() implies checks_condition(
                    #[trigger] conds@[k],
                    conditions@,
                    after[k] as int,
                ) by {
                    if k < before.len() {
                        assert(after[k] == before[k]);
                    }
                }
            }
            i += 1;
        }
        PrefixAnalyzer { prefix, fwsg: Vec::new(), conds }
    }

    /// Prepare the data by performing a single step
    fn step(&mut self, graph: ForwardingSupergraph)
        ensures
            final(self).prefix == old(self).prefix,
            final(self).conds == old(self).conds,
            final(self).fwsg@ == old(self).fwsg@.push(graph),
    {
        self.fwsg.push(graph);
    }

    /// Undo the last call to step
    fn undo(&mut self)
        ensures
            final(self).prefix == old(self).prefix,
            final(self).conds == old(self).conds,
            final(self).fwsg@ == (if old(self).fwsg@.len() > 0 {
                old(self).fwsg@.drop_last()
            } else {
                old(self).fwsg@
            }),
    {
        self.fwsg.pop();
    }

    /// reset the prefix analyzer
    fn reset(&mut self)
        ensures
            final(self).prefix == old(self).prefix,
            final(self).conds == old(self).conds,
            final(self).fwsg@.len() == 0,
    {
        self.fwsg.clear();
    }

    /// check all conditions
    fn check(&self) -> (r: Vec<(usize, bool)>)
        requires
            self.ready(),
        ensures
            r@ == self.verdicts(),
    {
        let mut result: Vec<(usize, bool)> = Vec::new();
        if self.fwsg.len() >= 2 {
            let cur = &self.fwsg[self.fwsg.len() - 1];
            let prev = &self.fwsg[self.fwsg.len() - 2];
            let ghost want = self.verdicts();
            let mut k: usize = 0;
            while k < self.conds.len()
                invariant
                    self.ready(),
                    self.fwsg@.len() >= 2,
                    *cur == self.fwsg@.last(),
                    *prev == self.fwsg@[self.fwsg@.len() - 2],
                    want == self.verdicts(),
                    k <= self.conds@.len(),
                    result@ == want.take(k as int),
                decreases self.conds@.len() - k,
            {
                let cond = &self.conds[k];
                proof {
                    assert(cur.compatible(prev));
                    assert(cond.router() < cur.size());
                }
                let holds = cur.check_condition(prev, cond);
                result.push((cond.cond_id(), holds));
                proof {
                    assert(result@ =~= want.take(k + 1));
                }
                k += 1;
            }
            proof {
                assert(want.take(self.conds@.len() as int) =~= want);
            }
        } else {
            assert(result@ =~= self.verdicts());
        }
        result
    }
}

/// The verdicts of the first `k` analyzers, one after the other.
spec fn all_verdicts(analyzers: Seq<PrefixAnalyzer>, k: nat) -> Seq<(usize, bool)>
    decreases k,
{
    if k == 0 {
        Seq::empty()
    } else {
        all_verdicts(analyzers, (k - 1) as nat) + analyzers[k - 1].verdicts()
    }
}

/// The analyzer of the transient path conditions of a hard policy.
#[derive(Debug)]
pub struct TransientStateAnalyzer {
    /// All analyzers for each prefix
    analyzers: Vec<PrefixAnalyzer>,
}

impl TransientStateAnalyzer {
    /// The number of prefixes, one analyzer each.
    pub closed spec fn num_prefixes(&self) -> nat {
        self.analyzers@.len()
    }

    /// The verdicts on the transient path conditions: for each, its position among the
    /// conditions and whether every path of the last two supergraphs of its prefix satisfies it.
    pub closed spec fn verdicts(&self) -> Seq<(usize, bool)> {
        all_verdicts(self.analyzers@, self.analyzers@.len())
    }

    /// Whether the analyzer checks the transient path conditions of `conds`: each analyzer, those
    /// of its prefix, in order.
    pub closed spec fn built_for(&self, conds: Seq<Condition>) -> bool {
        forall|i: int, j: int|
            0 <= i < self.analyzers@.len() && 0 <= j < self.analyzers@[i].conds@.len() ==> checks_condition(
                #[trigger] self.analyzers@[i].conds@[j],
                conds,
                transient_positions(conds, self.analyzers@[i].prefix, conds.len())[j] as int,
            )
    }

    /// The verdicts of an analyzer built for `conds` are on transient path conditions of `conds`.
    pub proof fn lemma_verdicts_transient(&self, conds: Seq<Condition>)
        requires
            self.built_for(conds),
        ensures
            forall|k: int|
                0 <= k < self.verdicts().len() ==> (#[trigger] self.verdicts()[k]).0 < conds.len()
                    && conds[self.verdicts()[k].0 as int] is TransientPath,
    {
        lemma_all_verdicts_transient(self.analyzers@, conds, self.analyzers@.len());
    }

    /// The supergraphs given to each analyzer describe the same routers, at most `u32::MAX` of
    /// them, and the conditions start at routers of the graphs.
    pub closed spec fn ready(&self) -> bool {
        forall|i: int| 0 <= i < self.analyzers@.len() ==> (#[trigger] self.analyzers@[i]).ready()
    }

    /// Generate a new analyzer for the conditions of `conditions` that are transient path
    /// conditions, one analyzer for each prefix.
    pub fn new(prefixes: &[Prefix], conditions: &[Condition]) -> (r: Self)
        ensures
            r.num_prefixes() == prefixes@.len(),
            r.ready(),
            r.built_for(conditions@),
            r.verdicts() == Seq::<(usize, bool)>::empty(),
    {
        let mut analyzers: Vec<PrefixAnalyzer> = Vec::new();
        let mut i: usize = 0;
        while i < prefixes.len()
            invariant
                i <= prefixes@.len(),
                analyzers@.len() == i,
                forall|k: int| 0 <= k < i ==> (#[trigger] analyzers@[k]).fwsg@.len() == 0,
                forall|k: int|
                    0 <= k < i ==> forall|j: int|
                        0 <= j < (#[trigger] analyzers@[k]).conds@.len() ==> checks_condition(
                            analyzers@[k].conds@[j],
                            conditions@,
                            transient_positions(conditions@, analyzers@[k].prefix, conditions@.len())[j] as int,
                        ),
            decreases prefixes@.len() - i,
        {
            analyzers.push(PrefixAnalyzer::new(prefixes[i], conditions));
            i += 1;
        }
        let r = TransientStateAnalyzer { analyzers };
        proof {
            assert forall|k: int| 0 <= k < r.analyzers@.len() implies (#[trigger] r.analyzers@[k]).ready() by {
                assert forall|j: int| 0 <= j < r.analyzers@[k].conds@.len() implies (
                #[trigger] r.analyzers@[k].conds@[j]) is SlowMode by {
                    assert(checks_condition(
                        r.analyzers@[k].conds@[j],
                        conditions@,
                        transient_positions(conditions@, r.analyzers@[k].prefix, conditions@.len())[j] as int,
                    ));
                }
            }
            lemma_all_verdicts_empty(r.analyzers@, r.analyzers@.len());
        }
        r
    }

    /// The supergraphs given so far to the analyzer of the prefix at position `i`.
    pub closed spec fn graphs_of(&self, i: int) -> Seq<ForwardingSupergraph> {
        self.analyzers@[i].fwsg@
    }

    /// The routers from which the paths of the conditions of the prefix at position `i` start.
    pub closed spec fn routers_of(&self, i: int) -> Seq<RouterId> {
        self.analyzers@[i].conds@.map_values(|t: TransientCondition| t.router())
    }

    /// Whether `g` can be given to the analyzer of the prefix at position `i`: it describes the
    /// same routers as the graphs given before, at most `u32::MAX` of them, among which the routers
    /// of the conditions.
    pub open spec fn accepts(&self, i: int, g: ForwardingSupergraph) -> bool {
        &&& g.wf()
        &&& g.size() <= u32::MAX
        &&& forall|j: int| 0 <= j < self.graphs_of(i).len() ==> (#[trigger] self.graphs_of(i)[j]).size() == g.size()
        &&& forall|k: int| 0 <= k < self.routers_of(i).len() ==> (#[trigger] self.routers_of(i)[k]) < g.size()
    }

    /// Perform a step: the analyzer of each prefix gets the supergraph of that prefix in the new
    /// state.
    pub fn step(&mut self, graphs: Vec<ForwardingSupergraph>)
        requires
            old(self).ready(),
            graphs@.len() == old(self).num_prefixes(),
            forall|i: int| 0 <= i < graphs@.len() ==> old(self).accepts(i, #[trigger] graphs@[i]),
        ensures
            forall|conds: Seq<Condition>| old(self).built_for(conds) ==> #[trigger] final(self).built_for(conds),
            final(self).ready(),
            final(self).num_prefixes() == old(self).num_prefixes(),
            forall|i: int| 0 <= i < graphs@.len() ==> #[trigger] final(self).graphs_of(i) == old(self).graphs_of(i).push(graphs@[i]),
            forall|i: int| 0 <= i < graphs@.len() ==> #[trigger] final(self).routers_of(i) == old(self).routers_of(i),
    {
        let ghost gs = graphs@;
        let ghost a0 = self.analyzers@;
        proof {
            assert forall|k: int, j: int| 0 <= k < gs.len() && 0 <= j < a0[k].fwsg@.len() implies (#[trigger] a0[k].fwsg@[j]).size() == (#[trigger] gs[k]).size() by {
                assert(old(self).accepts(k, gs[k]));
                assert(old(self).graphs_of(k)[j] == a0[k].fwsg@[j]);
            }
            assert forall|k: int, j: int| 0 <= k < gs.len() && 0 <= j < a0[k].conds@.len() implies (#[trigger] a0[k].conds@[j]).router() < (#[trigger] gs[k]).size() by {
                assert(old(self).accepts(k, gs[k]));
                assert(old(self).routers_of(k)[j] == a0[k].conds@[j].router());
            }
        }
        let mut graphs = graphs;
        let mut i: usize = 0;
        while i < self.analyzers.len()
            invariant
                i <= self.analyzers@.len(),
                a0.len() == self.analyzers@.len(),
                gs.len() == a0.len(),
                graphs@ == gs.skip(i as int),
                forall|k: int| 0 <= k < a0.len() ==> (#[trigger] self.analyzers@[k]).ready(),
                forall|k: int| 0 <= k < a0.len() ==> (#[trigger] a0[k]).ready(),
                forall|k: int| 0 <= k < i ==> (#[trigger] self.analyzers@[k]).fwsg@ == a0[k].fwsg@.push(gs[k]),
                forall|k: int| i <= k < a0.len() ==> #[trigger] self.analyzers@[k] == a0[k],
                forall|k: int| 0 <= k < a0.len() ==> (#[trigger] self.analyzers@[k]).conds == a0[k].conds,
                forall|k: int| 0 <= k < a0.len() ==> (#[trigger] self.analyzers@[k]).prefix == a0[k].prefix,
                forall|k: int| 0 <= k < gs.len() ==> (#[trigger] gs[k]).wf() && gs[k].size() <= u32::MAX,
                forall|k: int, j: int| 0 <= k < gs.len() && 0 <= j < a0[k].fwsg@.len() ==> (#[trigger] a0[k].fwsg@[j]).size() == (#[trigger] gs[k]).size(),
                forall|k: int, j: int| 0 <= k < gs.len() && 0 <= j < a0[k].conds@.len() ==> (#[trigger] a0[k].conds@[j]).router() < (#[trigger] gs[k]).size(),
            decreases a0.len() - i,
        {
            let g = graphs.remove(0);
            proof {
                assert(g == gs[i as int]);
                assert(graphs@ =~= gs.skip(i + 1));
            }
            let mut a = self.analyzers.remove(i);
            a.step(g);
            proof {
                let old_a = a0[i as int];
                assert forall|x: int, y: int| #![trigger a.fwsg@[x], a.fwsg@[y]]
                    0 <= x < a.fwsg@.len() && 0 <= y < a.fwsg@.len() implies a.fwsg@[x].compatible(&a.fwsg@[y]) by {
                    if x < old_a.fwsg@.len() {
                        assert(old_a.fwsg@[x].size() == gs[i as int].size());
                    }
                    if y < old_a.fwsg@.len() {
                        assert(old_a.fwsg@[y].size() == gs[i as int].size());
                    }
                    if x < old_a.fwsg@.len() && y < old_a.fwsg@.len() {
                        assert(old_a.fwsg@[x].compatible(&old_a.fwsg@[y]));
                    }
                    if x < old_a.fwsg@.len() {
                        assert(old_a.fwsg@[x].compatible(&old_a.fwsg@[x]));
                    }
                    if y < old_a.fwsg@.len() {
                        assert(old_a.fwsg@[y].compatible(&old_a.fwsg@[y]));
                    }
                }
                assert forall|x: int| 0 <= x < a.fwsg@.len() implies (#[trigger] a.fwsg@[x]).size() <= u32::MAX by {
                    if x < old_a.fwsg@.len() {
                        assert(old_a.fwsg@[x].size() <= u32::MAX);
                    }
                }
                assert forall|x: int, k: int|
                    0 <= x < a.fwsg@.len() && 0 <= k < a.conds@.len() implies (#[trigger] a.conds@[k]).router()
                        < (#[trigger] a.fwsg@[x]).size() by {
                    if x < old_a.fwsg@.len() {
                        assert(old_a.conds@[k].router() < old_a.fwsg@[x].size());
                    } else {
                        assert(old_a.conds@[k].router() < gs[i as int].size());
                    }
                }
                assert(a.ready());
            }
            self.analyzers.insert(i, a);
            i += 1;
        }
        proof {
            assert forall|k: int| 0 <= k < gs.len() implies #[trigger] self.routers_of(k) == old(self).routers_of(k) by {
                assert(self.analyzers@[k].conds == a0[k].conds);
            }
            self.lemma_same_conditions(old(self));
        }
    }

    /// Undo a step, going back in the history
    pub fn undo(&mut self)
        requires
            old(self).ready(),
        ensures
            forall|conds: Seq<Condition>| old(self).built_for(conds) ==> #[trigger] final(self).built_for(conds),
            final(self).ready(),
            final(self).num_prefixes() == old(self).num_prefixes(),
            forall|i: int| 0 <= i < old(self).num_prefixes() ==> #[trigger] final(self).graphs_of(i) == (if old(self).graphs_of(i).len() > 0 {
                old(self).graphs_of(i).drop_last()
            } else {
                old(self).graphs_of(i)
            }),
            forall|i: int| 0 <= i < old(self).num_prefixes() ==> #[trigger] final(self).routers_of(i) == old(self).routers_of(i),
    {
        let ghost a0 = self.analyzers@;
        let mut i: usize = 0;
        while i < self.analyzers.len()
            invariant
                i <= self.analyzers@.len(),
                self.analyzers@.len() == a0.len(),
                a0 == old(self).analyzers@,
                self.ready(),
                forall|k: int| 0 <= k < i ==> (#[trigger] self.analyzers@[k]).fwsg@ == (if a0[k].fwsg@.len() > 0 {
                    a0[k].fwsg@.drop_last()
                } else {
                    a0[k].fwsg@
                }),
                forall|k: int| i <= k < a0.len() ==> #[trigger] self.analyzers@[k] == a0[k],
                forall|k: int| 0 <= k < a0.len() ==> (#[trigger] self.analyzers@[k]).conds == a0[k].conds,
                forall|k: int| 0 <= k < a0.len() ==> (#[trigger] self.analyzers@[k]).prefix == a0[k].prefix,
            decreases self.analyzers@.len() - i,
        {
            let mut a = self.analyzers.remove(i);
            a.undo();
            self.analyzers.insert(i, a);
            i += 1;
        }
        proof {
            assert forall|k: int| 0 <= k < a0.len() implies #[trigger] self.routers_of(k) == old(self).routers_of(k) by {
                assert(self.analyzers@[k].conds == a0[k].conds);
            }
            self.lemma_same_conditions(old(self));
        }
    }

    /// reset the analyzer, clearing all information
    pub fn reset(&mut self)
        requires
            old(self).ready(),
        ensures
            forall|conds: Seq<Condition>| old(self).built_for(conds) ==> #[trigger] final(self).built_for(conds),
            final(self).ready(),
            final(self).num_prefixes() == old(self).num_prefixes(),
            final(self).verdicts() == Seq::<(usize, bool)>::empty(),
    {
        let mut i: usize = 0;
        while i < self.analyzers.len()
            invariant
                i <= self.analyzers@.len(),
                self.analyzers@.len() == old(self).analyzers@.len(),
                self.ready(),
                forall|k: int| 0 <= k < i ==> (#[trigger] self.analyzers@[k]).fwsg@.len() == 0,
                forall|k: int| 0 <= k < self.analyzers@.len() ==> (#[trigger] self.analyzers@[k]).conds
                    == old(self).analyzers@[k].conds,
                forall|k: int| 0 <= k < self.analyzers@.len() ==> (#[trigger] self.analyzers@[k]).prefix
                    == old(self).analyzers@[k].prefix,
            decreases self.analyzers@.len() - i,
        {
            let mut a = self.analyzers.remove(i);
            a.reset();
            self.analyzers.insert(i, a);
            i += 1;
        }
        proof {
            lemma_all_verdicts_empty(self.analyzers@, self.analyzers@.len());
            self.lemma_same_conditions(old(self));
        }
    }

    /// Analyzers with the same prefixes and conditions are built for the same conditions.
    proof fn lemma_same_conditions(&self, other: &Self)
        requires
            self.analyzers@.len() == other.analyzers@.len(),
            forall|k: int| 0 <= k < self.analyzers@.len() ==> (#[trigger] self.analyzers@[k]).conds
                == other.analyzers@[k].conds,
            forall|k: int| 0 <= k < self.analyzers@.len() ==> (#[trigger] self.analyzers@[k]).prefix
                == other.analyzers@[k].prefix,
        ensures
            forall|conds: Seq<Condition>| other.built_for(conds) ==> #[trigger] self.built_for(conds),
    {
        assert forall|conds: Seq<Condition>| other.built_for(conds) implies #[trigger] self.built_for(conds) by {
            assert forall|i: int, j: int|
                0 <= i < self.analyzers@.len() && 0 <= j < self.analyzers@[i].conds@.len() implies checks_condition(
                    #[trigger] self.analyzers@[i].conds@[j],
                    conds,
                    transient_positions(conds, self.analyzers@[i].prefix, conds.len())[j] as int,
                ) by {
                assert(self.analyzers@[i].conds == other.analyzers@[i].conds);
                assert(checks_condition(
                    other.analyzers@[i].conds@[j],
                    conds,
                    transient_positions(conds, other.analyzers@[i].prefix, conds.len())[j] as int,
                ));
            }
        }
    }

    /// Perform the check of all transient conditions, returning a vector containing all checked
    /// conditions, with their id and wether they succeeded
    pub fn check(&self) -> (r: Vec<(usize, bool)>)
        requires
            self.ready(),
        ensures
            r@ == self.verdicts(),
    {
        let mut result: Vec<(usize, bool)> = Vec::new();
        let mut i: usize = 0;
        while i < self.analyzers.len()
            invariant
                self.ready(),
                i <= self.analyzers@.len(),
                result@ == all_verdicts(self.analyzers@, i as nat),
            decreases self.analyzers@.len() - i,
        {
            let mut part = self.analyzers[i].check();
            result.append(&mut part);
            i += 1;
        }
        result
    }
}

/// The verdicts of the first `k` analyzers, built for `conds`, are on transient path conditions
/// of `conds`.
proof fn lemma_all_verdicts_transient(analyzers: Seq<PrefixAnalyzer>, conds: Seq<Condition>, k: nat)
    requires
        k <= analyzers.len(),
        forall|i: int, j: int|
            0 <= i < analyzers.len() && 0 <= j < analyzers[i].conds@.len() ==> checks_condition(
                #[trigger] analyzers[i].conds@[j],
                conds,
                transient_positions(conds, analyzers[i].prefix, conds.len())[j] as int,
            ),
    ensures
        forall|m: int|
            0 <= m < all_verdicts(analyzers, k).len() ==> (#[trigger] all_verdicts(analyzers, k)[m]).0
                < conds.len() && conds[all_verdicts(analyzers, k)[m].0 as int] is TransientPath,
    decreases k,
{
    if k > 0 {
        lemma_all_verdicts_transient(analyzers, conds, (k - 1) as nat);
        let a = analyzers[k - 1];
        let before = all_verdicts(analyzers, (k - 1) as nat);
        let pos = transient_positions(conds, a.prefix, conds.len());
        assert forall|m: int| 0 <= m < all_verdicts(analyzers, k).len() implies (#[trigger] all_verdicts(
            analyzers,
            k,
        )[m]).0 < conds.len() && conds[all_verdicts(analyzers, k)[m].0 as int] is TransientPath by {
            if m < before.len() {
                assert(all_verdicts(analyzers, k)[m] == before[m]);
            } else {
                let j = m - before.len();
                assert(all_verdicts(analyzers, k)[m] == a.verdicts()[j]);
                assert(checks_condition(a.conds@[j], conds, pos[j] as int));
                assert(a.conds@[j].cond_id_of() == pos[j]);
            }
        }
    }
}

/// Analyzers without two supergraphs give no verdicts.
proof fn lemma_all_verdicts_empty(analyzers: Seq<PrefixAnalyzer>, k: nat)
    requires
        k <= analyzers.len(),
        forall|i: int| 0 <= i < k ==> (#[trigger] analyzers[i]).fwsg@.len() == 0,
    ensures
        all_verdicts(analyzers, k) == Seq::<(usize, bool)>::empty(),
    decreases k,
{
    if k > 0 {
        lemma_all_verdicts_empty(analyzers, (k - 1) as nat);
        assert(analyzers[k - 1].verdicts() =~= Seq::<(usize, bool)>::empty());
        assert(all_verdicts(analyzers, k) =~= Seq::<(usize, bool)>::empty());
    }
}

impl PrefixAnalyzer {
    /// Every router that the supergraphs and the conditions name is below `n`.
    spec fn named(&self, n: nat) -> bool {
        &&& forall|i: int| 0 <= i < self.fwsg@.len() ==> (#[trigger] self.fwsg@[i]).size() <= n
        &&& forall|k: int| 0 <= k < self.conds@.len() ==> (#[trigger] self.conds@[k]).named(n)
    }

    /// Whether every router that the supergraphs and the conditions name is below `n`.
    fn has_names(&self, n: usize) -> (r: bool)
        ensures
            r == self.named(n as nat),
    {
        let mut i: usize = 0;
        while i < self.fwsg.len()
            invariant
                i <= self.fwsg@.len(),
                forall|j: int| 0 <= j < i ==> (#[trigger] self.fwsg@[j]).size() <= n,
            decreases self.fwsg@.len() - i,
        {
            if self.fwsg[i].size_exec() > n {
                return false;
            }
            i += 1;
        }
        let mut k: usize = 0;
        while k < self.conds.len()
            invariant
                k <= self.conds@.len(),
                forall|j: int| 0 <= j < self.fwsg@.len() ==> (#[trigger] self.fwsg@[j]).size() <= n,
                forall|j: int| 0 <= j < k ==> (#[trigger] self.conds@[j]).named(n as nat),
            decreases self.conds@.len() - k,
        {
            if !self.conds[k].has_names(n) {
                return false;
            }
            k += 1;
        }
        true
    }

    /// The lines of the conditions.
    spec fn cond_lines(&self, names: Seq<Seq<char>>) -> Seq<Seq<char>> {
        self.conds@.map_values(|c: TransientCondition| c.written(names))
    }

    /// How the analyzer is written: its prefix, its conditions and its last two supergraphs, or
    /// `----` where there is none.
    spec fn written(&self, names: Seq<Seq<char>>) -> Seq<char> {
        let n = self.fwsg@.len();
        "\nPrefix "@ + decimal(self.prefix.0 as nat) + "\nconds:\n"@ + items_joined(
            self.cond_lines(names),
            "\n"@,
            self.conds@.len(),
        ) + "\nold graph:\n"@ + (if n >= 2 {
            self.fwsg@[n - 2].written(names)
        } else {
            "----"@
        }) + "\nnew graph:\n"@ + (if n >= 1 {
            self.fwsg@[n - 1].written(names)
        } else {
            "----"@
        }) + "\n"@
    }

    /// Represent the prefix analyzer as a string, with the router names inserted
    fn repr_with_name(&self, names: &Vec<String>) -> (s: String)
        requires
            self.ready(),
            self.named(names@.len()),
        ensures
            s@ == self.written(names@.map_values(|y: String| y@)),
    {
        let ghost nv = names@.map_values(|y: String| y@);
        let mut s = String::from_str("\nPrefix ");
        append_decimal(&mut s, self.prefix.0 as usize);
        s.append("\nconds:\n");
        let mut lines: Vec<String> = Vec::new();
        let mut k: usize = 0;
        while k < self.conds.len()
            invariant
                k <= self.conds@.len(),
                self.ready(),
                self.named(names@.len()),
                nv == names@.map_values(|y: String| y@),
                lines@.len() == k,
                forall|x: int| 0 <= x < k ==> (#[trigger] lines@[x])@ == self.cond_lines(nv)[x],
            decreases self.conds@.len() - k,
        {
            assert(self.conds@[k as int].named(names@.len()));
            lines.push(self.conds[k].repr_with_name(names));
            k += 1;
        }
        assert(lines@.map_values(|y: String| y@) =~= self.cond_lines(nv));
        let c = join_strings(&lines, "\n");
        s.append(c.as_str());
        s.append("\nold graph:\n");
        let n = self.fwsg.len();
        if n >= 2 {
            assert(self.fwsg@[n - 2].compatible(&self.fwsg@[n - 2]));
            assert(self.fwsg@[n - 2].wf() && self.fwsg@[n - 2].size() <= names@.len());
            let g = self.fwsg[n - 2].repr_with_name(names);
            s.append(g.as_str());
        } else {
            s.append("----");
        }
        s.append("\nnew graph:\n");
        if n >= 1 {
            assert(self.fwsg@[n - 1].compatible(&self.fwsg@[n - 1]));
            assert(self.fwsg@[n - 1].wf() && self.fwsg@[n - 1].size() <= names@.len());
            let g = self.fwsg[n - 1].repr_with_name(names);
            s.append(g.as_str());
        } else {
            s.append("----");
        }
        s.append("\n");
        assert(s@ =~= self.written(nv));
        s
    }
}

impl TransientStateAnalyzer {
    /// Every router that the supergraphs and the conditions of the analyzers name is below `n`.
    pub closed spec fn named(&self, n: nat) -> bool {
        forall|i: int| 0 <= i < self.analyzers@.len() ==> (#[trigger] self.analyzers@[i]).named(n)
    }

    /// Whether every router that the supergraphs and the conditions of the analyzers name is
    /// below `n`: whether `n` names are enough to write the analyzer.
    pub fn has_names(&self, n: usize) -> (r: bool)
        ensures
            r == self.named(n as nat),
    {
        let mut i: usize = 0;
        while i < self.analyzers.len()
            invariant
                i <= self.analyzers@.len(),
                forall|j: int| 0 <= j < i ==> (#[trigger] self.analyzers@[j]).named(n as nat),
            decreases self.analyzers@.len() - i,
        {
            if !self.analyzers[i].has_names(n) {
                return false;
            }
            i += 1;
        }
        true
    }

    /// How the analyzer is written: the analyzer of each prefix, one below the other.
    pub closed spec fn written(&self, names: Seq<Seq<char>>) -> Seq<char> {
        items_joined(
            self.analyzers@.map_values(|a: PrefixAnalyzer| a.written(names)),
            "\n"@,
            self.analyzers@.len(),
        )
    }

    /// Represent the transient state analyzer as a string, with the router names inserted. The
    /// names are indexed by router.
    pub fn repr_with_name(&self, names: &Vec<String>) -> (s: String)
        requires
            self.ready(),
            self.named(names@.len()),
        ensures
            s@ == self.written(names@.map_values(|y: String| y@)),
    {
        let ghost nv = names@.map_values(|y: String| y@);
        let mut parts: Vec<String> = Vec::new();
        let mut i: usize = 0;
        while i < self.analyzers.len()
            invariant
                i <= self.analyzers@.len(),
                self.ready(),
                self.named(names@.len()),
                nv == names@.map_values(|y: String| y@),
                parts@.len() == i,
                forall|x: int| 0 <= x < i ==> (#[trigger] parts@[x])@ == self.analyzers@[x].written(nv),
            decreases self.analyzers@.len() - i,
        {
            assert(self.analyzers@[i as int].named(names@.len()) && self.analyzers@[i as int].ready());
            parts.push(self.analyzers[i].repr_with_name(names));
            i += 1;
        }
        assert(parts@.map_values(|y: String| y@) =~= self.analyzers@.map_values(|a: PrefixAnalyzer| a.written(nv)));
        join_strings(&parts, "\n")
    }
}

} // verus!
