//! # Hard Policy
//!
//! A hard policy is an expression of linear temporal logic over a vector of conditions, together
//! with the history of which conditions were satisfied in each state seen so far.
use vstd::prelude::*;
use crate::hard_policies::condition::{judged_route, reaches_or_fails, Condition};
use crate::hard_policies::condition_repr::{items_joined, join_strings, names_view};
use crate::hard_policies::repr::{var_name, var_repr};
use crate::hard_policies::ltl::{hist_of, res_of, LTLBoolean, LTLExpr, LTLModal, LTLResult};
use crate::hard_policies::policy_error::{
    lemma_same_error_symmetric, lemma_same_error_transitive, PolicyError,
};
use crate::hard_policies::transient_behavior::analysis::TransientStateAnalyzer;
use crate::hard_policies::transient_behavior::forwarding_supergraph::ForwardingSupergraph;
use crate::netsim::{NetworkError, Prefix, RouterId};

verus! {

/// Type alias for comfortable handling of the watch errors
pub type WatchErrors = (Vec<usize>, Vec<Option<PolicyError>>);

/// Whether `r` lists, in increasing order, the positions of the reliability conditions among the
/// first `k` conditions of `c`.
pub open spec fn reliable_upto(c: Seq<Condition>, r: Seq<usize>, k: int) -> bool {
    &&& forall|a: int, b: int| 0 <= a < b < r.len() ==> r[a] < r[b]
    &&& forall|m: int| 0 <= m < r.len() ==> (#[trigger] r[m]) < k && c[r[m] as int] is Reliable
    &&& forall|j: int| 0 <= j < k && (#[trigger] c[j]) is Reliable ==> r.contains(j as usize)
}

/// Whether the expressions of `v` are the propositional variables `idx`, in this order.
pub open spec fn vars_are(v: Seq<Box<LTLExpr>>, idx: Seq<usize>) -> bool {
    &&& v.len() == idx.len()
    &&& forall|k: int| 0 <= k < v.len() ==> *(#[trigger] v[k]) == LTLExpr::Var(idx[k])
}

/// The indices `0, 1, ..., n - 1`.
pub open spec fn first_indices(n: nat) -> Seq<usize> {
    Seq::new(n, |i: int| i as usize)
}

/// Whether `e` is the conjunction of the propositional variables `idx`.
pub open spec fn conjunction_of(e: LTLExpr, idx: Seq<usize>) -> bool {
    e matches LTLExpr::Boolean(LTLBoolean::And(v)) && vars_are(v@, idx)
}

/// Whether `e` requires the first `n` propositional variables in every state.
pub open spec fn globally_all(e: LTLModal, n: nat) -> bool {
    e matches LTLModal::Globally(b) && conjunction_of(*b, first_indices(n))
}

/// Whether `e` requires the variables `phi` until the variables `psi` hold in every later state.
pub open spec fn until_globally_of(e: LTLModal, phi: Seq<usize>, psi: Seq<usize>) -> bool {
    match e {
        LTLModal::Until(a, b) => conjunction_of(*a, phi) && match *b {
            LTLExpr::Modal(LTLModal::Globally(c)) => conjunction_of(*c, psi),
            _ => false,
        },
        _ => false,
    }
}

/// Whether every state of `s` satisfies its first `n` propositional variables.
pub open spec fn all_satisfied(s: Seq<Seq<bool>>, n: nat) -> bool {
    forall|i: int, j: int| 0 <= i < s.len() && 0 <= j < n ==> #[trigger] s[i][j]
}

/// The conjunction of the propositional variables `idx`.
fn conjunction(idx: &[usize]) -> (r: LTLExpr)
    ensures
        conjunction_of(r, idx@),
{
    let mut v: Vec<Box<LTLExpr>> = Vec::new();
    let mut k: usize = 0;
    while k < idx.len()
        invariant
            k <= idx@.len(),
            vars_are(v@, idx@.take(k as int)),
        decreases idx@.len() - k,
    {
        v.push(Box::new(LTLExpr::Var(idx[k])));
        k += 1;
    }
    assert(idx@.take(idx@.len() as int) =~= idx@);
    LTLExpr::Boolean(LTLBoolean::And(v))
}

/// The indices of the first `n` propositional variables.
fn indices(n: usize) -> (r: Vec<usize>)
    ensures
        r@ == first_indices(n as nat),
{
    let mut r: Vec<usize> = Vec::new();
    let mut i: usize = 0;
    while i < n
        invariant
            i <= n,
            r@ == first_indices(i as nat),
        decreases n - i,
    {
        r.push(i);
        i += 1;
        assert(r@ =~= first_indices(i as nat));
    }
    r
}

/// # Linear Temporal Logic
///
/// This structure holds the entire LTL expression. It is stored as a vector of propositional
/// a history of which constraints were satisfied, and an expression which can check the property
/// based on the history.
#[derive(Debug)]
pub struct HardPolicy {
    /// Conditional variables of the hard poicy
    pub prop_vars: Vec<Condition>,
    reliability: Vec<usize>,
    history: Vec<Vec<bool>>,
    error_history: Vec<Vec<Option<PolicyError>>>,
    /// LTL Expression
    pub expr: LTLModal,
    num_mods: Option<usize>,
    tsa: Option<TransientStateAnalyzer>,
}

impl HardPolicy {
    /// The conditions of the policy, one propositional variable each.
    pub closed spec fn conditions(&self) -> Seq<Condition> {
        self.prop_vars@
    }

    /// The expression of linear temporal logic over the conditions.
    pub closed spec fn expression(&self) -> LTLModal {
        self.expr
    }

    /// The history: for each state, which conditions were satisfied.
    pub closed spec fn hist(&self) -> Seq<Seq<bool>> {
        hist_of(self.history@)
    }

    /// For each state, the error of each condition that was violated.
    pub closed spec fn errors(&self) -> Seq<Seq<Option<PolicyError>>> {
        self.error_history@.map_values(|r: Vec<Option<PolicyError>>| r@)
    }

    /// The positions of the reliability conditions.
    pub closed spec fn reliable_vars(&self) -> Seq<usize> {
        self.reliability@
    }

    /// The total number of modifiers, once it is set.
    pub closed spec fn mods(&self) -> Option<usize> {
        self.num_mods
    }

    /// The analyzer of the transient path conditions, if there are any.
    pub closed spec fn analyzer(&self) -> Option<TransientStateAnalyzer> {
        self.tsa
    }

    /// Whether the history holds every state of the reconfiguration: the initial one, and one
    /// after each modifier.
    pub open spec fn finished(&self) -> bool {
        match self.mods() {
            Some(m) => m + 1 == self.hist().len(),
            None => false,
        }
    }

    /// The policy is consistent: every state has a value and an error entry for each condition,
    /// the error being present exactly where the condition is violated, and the reliability
    /// conditions are known by their positions.
    pub open spec fn wf(&self) -> bool {
        &&& self.errors().len() == self.hist().len()
        &&& forall|i: int| 0 <= i < self.hist().len() ==> (#[trigger] self.hist()[i]).len()
            == self.conditions().len() && self.errors()[i].len() == self.conditions().len()
        &&& forall|i: int, j: int|
            0 <= i < self.hist().len() && 0 <= j < self.conditions().len() ==> (
            #[trigger] self.hist()[i][j] <==> self.errors()[i][j] is None)
        &&& reliable_upto(self.conditions(), self.reliable_vars(), self.conditions().len() as int)
        &&& self.analyzer() matches Some(a) ==> a.ready() && a.built_for(self.conditions())
    }

    /// Whether the variable `x` is watched: on a finished history, it may change whether the
    /// expression holds; on another, it may change the partial result.
    pub open spec fn in_watch(&self, x: usize) -> bool {
        if self.finished() {
            self.expression().watches(self.hist(), x)
        } else {
            self.expression().pwatches(self.hist(), x)
        }
    }

    /// The conditions of `self` and `other` are the same, and so are the expression, the
    /// reliability conditions and the number of modifiers.
    pub open spec fn same_setup(&self, other: &HardPolicy) -> bool {
        &&& self.conditions() == other.conditions()
        &&& self.expression() == other.expression()
        &&& self.reliable_vars() == other.reliable_vars()
        &&& self.mods() == other.mods()
    }

    /// An expression whose variables are all conditions of the policy can be evaluated on its
    /// history, if the history is not empty or the expression does not read a state directly.
    pub proof fn lemma_expr_fits(&self)
        requires
            self.wf(),
            self.expression().vars_below(self.conditions().len() as nat),
            self.hist().len() > 0 || !self.expression().reads_now(),
        ensures
            self.expression().fits(self.hist()),
    {
        assert forall|i: int| 0 <= i < self.hist().len() implies self.expression().vars_below(
            #[trigger] self.hist()[i].len(),
        ) by {
            assert(self.hist()[i].len() == self.conditions().len());
        }
    }

    /// Create a new Linear Temporal Logic Hard Policy
    pub fn new(prop_vars: Vec<Condition>, expr: LTLModal) -> (r: Self)
        ensures
            r.wf(),
            r.conditions() == prop_vars@,
            r.expression() == expr,
            r.hist() == Seq::<Seq<bool>>::empty(),
            r.errors() == Seq::<Seq<Option<PolicyError>>>::empty(),
            r.mods() is None,
            r.analyzer() is Some <==> exists|i: int| 0 <= i < prop_vars@.len() && (#[trigger] prop_vars@[i]) is TransientPath,
            r.analyzer() matches Some(a) ==> a.verdicts() == Seq::<(usize, bool)>::empty(),
    {
        let mut reliability: Vec<usize> = Vec::new();
        let mut i: usize = 0;
        while i < prop_vars.len()
            invariant
                i <= prop_vars@.len(),
                reliable_upto(prop_vars@, reliability@, i as int),
            decreases prop_vars@.len() - i,
        {
            let ghost before = reliability@;
            if prop_vars[i].is_reliability() {
                reliability.push(i);
            }
            proof {
                assert forall|j: int| 0 <= j < i + 1 && (#[trigger] prop_vars@[j]) is Reliable implies reliability@.contains(j as usize) by {
                    if j < i {
                        assert(before.contains(j as usize));
                        let m = choose|m: int| 0 <= m < before.len() && before[m] == j as usize;
                        assert(reliability@[m] == j as usize);
                    } else {
                        assert(reliability@[reliability@.len() - 1] == i);
                    }
                }
                assert forall|m: int| 0 <= m < reliability@.len() implies (#[trigger] reliability@[m]) < i + 1
                    && prop_vars@[reliability@[m] as int] is Reliable by {
                    if m < before.len() {
                        assert(reliability@[m] == before[m]);
                    }
                }
                assert forall|a: int, b: int| 0 <= a < b < reliability@.len() implies reliability@[a]
                    < reliability@[b] by {
                    if b < before.len() {
                        assert(reliability@[a] == before[a]);
                        assert(reliability@[b] == before[b]);
                    } else {
                        assert(reliability@[a] == before[a]);
                    }
                }
            }
            i += 1;
        }
        let mut prefixes: Vec<Prefix> = Vec::new();
        let mut any_transient = false;
        let mut i: usize = 0;
        while i < prop_vars.len()
            invariant
                i <= prop_vars@.len(),
                any_transient == exists|j: int| 0 <= j < i && (#[trigger] prop_vars@[j]) is TransientPath,
            decreases prop_vars@.len() - i,
        {
            let p = prop_vars[i].prefix();
            let mut known = false;
            let mut k: usize = 0;
            while k < prefixes.len()
                invariant
                    k <= prefixes@.len(),
                decreases prefixes@.len() - k,
            {
                if prefixes[k] == p {
                    known = true;
                }
                k += 1;
            }
            if !known {
                prefixes.push(p);
            }
            if prop_vars[i].is_transient() {
                any_transient = true;
            }
            proof {
                if prop_vars@[i as int] is TransientPath {
                    assert(exists|j: int| 0 <= j < i + 1 && (#[trigger] prop_vars@[j]) is TransientPath);
                }
                if exists|j: int| 0 <= j < i + 1 && (#[trigger] prop_vars@[j]) is TransientPath {
                    let j = choose|j: int| 0 <= j < i + 1 && (#[trigger] prop_vars@[j]) is TransientPath;
                    if j < i {
                        assert(exists|j: int| 0 <= j < i && (#[trigger] prop_vars@[j]) is TransientPath);
                    }
                }
            }
            i += 1;
        }
        let tsa = if any_transient {
            Some(TransientStateAnalyzer::new(prefixes.as_slice(), prop_vars.as_slice()))
        } else {
            None
        };
        let r = HardPolicy {
            prop_vars,
            reliability,
            history: Vec::new(),
            error_history: Vec::new(),
            expr,
            num_mods: None,
            tsa,
        };
        assert(r.hist() =~= Seq::<Seq<bool>>::empty());
        assert(r.errors() =~= Seq::<Seq<Option<PolicyError>>>::empty());
        r
    }

    /// Create a new Linear Temporal Logic Hard Policy, where all conditions supplied need to be
    /// satisfied all the time.
    pub fn globally(prop_vars: Vec<Condition>) -> (r: Self)
        ensures
            r.wf(),
            r.conditions() == prop_vars@,
            globally_all(r.expression(), prop_vars@.len()),
            r.hist() == Seq::<Seq<bool>>::empty(),
            r.mods() is None,
    {
        let idx = indices(prop_vars.len());
        let expr = LTLModal::Globally(Box::new(conjunction(idx.as_slice())));
        Self::new(prop_vars, expr)
    }

    /// Create a new Linear Temporal Logic Hard Policy. The LTL expression will have the following
    /// form, where $\phi_i$ are all propositional variables in the second argument, and $\psi_i$
    /// are all from the third argument.
    ///
    /// $$ \Big( \bigwedge \phi_i \Big) \ \mathbf{U}\ \mathbf{G}\ \Big( \bigwedge \psi_i \Big) $$
    ///
    pub fn until_globally(prop_vars: Vec<Condition>, phi: &[usize], psi: &[usize]) -> (r: Self)
        ensures
            r.wf(),
            r.conditions() == prop_vars@,
            until_globally_of(r.expression(), phi@, psi@),
            r.hist() == Seq::<Seq<bool>>::empty(),
            r.mods() is None,
    {
        let expr = LTLModal::Until(
            Box::new(conjunction(phi)),
            Box::new(LTLExpr::Modal(LTLModal::Globally(Box::new(conjunction(psi))))),
        );
        Self::new(prop_vars, expr)
    }

    /// Helper function to generate the reachability policy: every router must reach every
    /// prefix, in every state.
    pub fn reachability(routers: &[RouterId], prefixes: &[Prefix]) -> (r: Self)
        requires
            routers@.len() * prefixes@.len() <= usize::MAX,
        ensures
            r.wf(),
            r.conditions().len() == routers@.len() * prefixes@.len(),
            forall|a: int, b: int|
                0 <= a < routers@.len() && 0 <= b < prefixes@.len() ==> #[trigger] r.conditions()[a
                    * prefixes@.len() + b] == Condition::Reachable(routers@[a], prefixes@[b], None),
            globally_all(r.expression(), r.conditions().len()),
            r.hist() == Seq::<Seq<bool>>::empty(),
            r.mods() is None,
    {
        let np = prefixes.len();
        let mut prop_vars: Vec<Condition> = Vec::new();
        let mut a: usize = 0;
        while a < routers.len()
            invariant
                a <= routers@.len(),
                np == prefixes@.len(),
                routers@.len() * np <= usize::MAX,
                prop_vars@.len() == a * np,
                forall|x: int, y: int|
                    0 <= x < a && 0 <= y < np ==> #[trigger] prop_vars@[x * np + y]
                        == Condition::Reachable(routers@[x], prefixes@[y], None),
            decreases routers@.len() - a,
        {
            proof {
                assert((a + 1) * np <= routers@.len() * np) by (nonlinear_arith)
                    requires
                        a + 1 <= routers@.len(),
                ;
            }
            let mut b: usize = 0;
            while b < np
                invariant
                    a < routers@.len(),
                    b <= np,
                    np == prefixes@.len(),
                    (a + 1) * np <= usize::MAX,
                    prop_vars@.len() == a * np + b,
                    forall|x: int, y: int|
                        (0 <= x < a && 0 <= y < np) || (x == a && 0 <= y < b) ==> #[trigger] prop_vars@[x
                            * np + y] == Condition::Reachable(routers@[x], prefixes@[y], None),
                decreases np - b,
            {
                proof {
                    assert(a * np + b < (a + 1) * np) by (nonlinear_arith)
                        requires
                            b < np,
                    ;
                }
                prop_vars.push(Condition::Reachable(routers[a], prefixes[b], None));
                proof {
                    assert forall|x: int, y: int|
                        (0 <= x < a && 0 <= y < np) || (x == a && 0 <= y < b + 1) implies #[trigger] prop_vars@[x
                            * np + y] == Condition::Reachable(routers@[x], prefixes@[y], None) by {
                        if x < a {
                            assert(x * np + y < a * np) by (nonlinear_arith)
                                requires
                                    x < a,
                                    y < np,
                            ;
                        }
                    }
                }
                b += 1;
            }
            proof {
                assert((a + 1) * np == a * np + np) by (nonlinear_arith);
            }
            a += 1;
        }
        Self::globally(prop_vars)
    }

    /// Sets the total number of modifiers, if it was not yet set before. If it is already set, then
    /// nothing will change. This function returns `true` if there was no previous value.
    pub fn set_num_mods_if_none(&mut self, num_mods: usize) -> (r: bool)
        ensures
            r == old(self).mods() is None,
            final(self).mods() == (if r { Some(num_mods) } else { old(self).mods() }),
            final(self).hist() == old(self).hist(),
            final(self).errors() == old(self).errors(),
            final(self).conditions() == old(self).conditions(),
            final(self).expression() == old(self).expression(),
            final(self).reliable_vars() == old(self).reliable_vars(),
    {
        if self.num_mods.is_none() {
            self.num_mods = Some(num_mods);
            true
        } else {
            false
        }
    }

    /// Undoes the last call to step
    pub fn undo(&mut self)
        requires
            old(self).wf(),
        ensures
            final(self).wf(),
            final(self).same_setup(old(self)),
            final(self).hist() == (if old(self).hist().len() > 0 {
                old(self).hist().drop_last()
            } else {
                old(self).hist()
            }),
            final(self).errors() == (if old(self).errors().len() > 0 {
                old(self).errors().drop_last()
            } else {
                old(self).errors()
            }),
    {
        let ghost h0 = self.history@;
        let ghost e0 = self.error_history@;
        self.history.pop();
        self.error_history.pop();
        let mut tsa = self.tsa.take();
        match &mut tsa {
            Some(a) => a.undo(),
            None => {},
        }
        self.tsa = tsa;
        proof {
            if h0.len() > 0 {
                assert(self.hist() =~= old(self).hist().drop_last());
                assert(self.errors() =~= old(self).errors().drop_last());
            }
        }
    }

    /// Reset the strucutre, such that no state exists.
    pub fn reset(&mut self)
        requires
            old(self).wf(),
        ensures
            final(self).wf(),
            final(self).same_setup(old(self)),
            final(self).hist() == Seq::<Seq<bool>>::empty(),
            final(self).errors() == Seq::<Seq<Option<PolicyError>>>::empty(),
    {
        self.history.clear();
        self.error_history.clear();
        let mut tsa = self.tsa.take();
        match &mut tsa {
            Some(a) => a.reset(),
            None => {},
        }
        self.tsa = tsa;
        assert(self.hist() =~= Seq::<Seq<bool>>::empty());
        assert(self.errors() =~= Seq::<Seq<Option<PolicyError>>>::empty());
    }

    /// Whether the history holds every state: the number of calls to `step` minus those to
    /// `undo` is the number of modifiers plus one (since the initial state will also be part of
    /// the history).
    fn is_finished(&self) -> (r: bool)
        ensures
            r == self.finished(),
    {
        match self.num_mods {
            Some(m) => self.history.len() > 0 && m == self.history.len() - 1,
            None => false,
        }
    }

    /// Computes the condition using Linear Temporal Logic, and returns if the expression holds. The
    /// finish flag will be determined automatically if the number of calls to `step` subtracted by
    /// the number of calls to `undo` (i.e., the length of the history) is equal to the number of
    /// modifiers plus one (since the initial state will also be part of the history.) Finish will
    /// be set to `false` if the number of modifiers was not set yet.
    pub fn check(&self) -> (r: bool)
        requires
            self.expression().fits(self.hist()),
        ensures
            r == (if self.finished() {
                self.expression().holds(self.hist())
            } else {
                self.expression().eval(self.hist()) != LTLResult::F
            }),
    {
        let finish = self.is_finished();
        self.check_overwrite_finish(finish)
    }

    /// Computes the condition using Linear Temporal Logic, and returns if the expression holds. The
    /// provided `finish` flag will be used to determine the method (`check` vs `partial`).
    pub fn check_overwrite_finish(&self, finish: bool) -> (r: bool)
        requires
            self.expression().fits(self.hist()),
        ensures
            r == (if finish {
                self.expression().holds(self.hist())
            } else {
                self.expression().eval(self.hist()) != LTLResult::F
            }),
    {
        if finish {
            self.expr.check(self.history.as_slice())
        } else {
            !self.expr.partial(self.history.as_slice()).is_false()
        }
    }

    /// Compute the set of propositional variables that need to be watched in order to change the
    /// outcome of the current state of the checker. This function should only be used when the
    /// result is either false or undefined.
    pub fn get_watch(&self) -> (r: Vec<usize>)
        requires
            self.expression().fits(self.hist()),
        ensures
            strictly_increasing(r@),
            forall|x: usize| #[trigger] r@.contains(x) <==> self.in_watch(x),
    {
        let finish = self.is_finished();
        self.get_watch_overwrite_finish(finish)
    }

    /// Compute the set of propositional variables that need to be watched in order to change the
    /// outcome of the current state of the checker. This function should only be used when the
    /// result is either false or undefined. The `finish` flagg will be used to determine the method
    /// (`watch` or `watch_partial`).
    pub fn get_watch_overwrite_finish(&self, finish: bool) -> (r: Vec<usize>)
        requires
            self.expression().fits(self.hist()),
        ensures
            strictly_increasing(r@),
            forall|x: usize| #[trigger] r@.contains(x) <==> (if finish {
                self.expression().watches(self.hist(), x)
            } else {
                self.expression().pwatches(self.hist(), x)
            }),
    {
        let watch = if finish {
            self.expr.watch(self.history.as_slice())
        } else {
            self.expr.watch_partial(self.history.as_slice())
        };
        sorted_unique(&watch)
    }
}

/// The values and errors of the conditions in one state, before they are pushed to the history.
#[derive(Debug)]
pub struct StepResults {
    /// Whether each condition is satisfied
    pub state: Vec<bool>,
    /// The error of each condition that is violated
    pub errors: Vec<Option<PolicyError>>,
}

/// The outcome of the condition `j`: `Ok` where it is satisfied, else its error.
pub open spec fn outcome_of(state: Seq<bool>, errors: Seq<Option<PolicyError>>, j: int) -> Result<(), PolicyError> {
    if state[j] {
        Ok(())
    } else {
        Err(errors[j]->Some_0)
    }
}

impl StepResults {
    /// There is a value and an error entry for each of the `n` conditions, the error being present
    /// exactly where the condition is violated.
    pub open spec fn consistent(&self, n: nat) -> bool {
        &&& self.state@.len() == n
        &&& self.errors@.len() == n
        &&& forall|j: int| 0 <= j < n ==> (#[trigger] self.state@[j] <==> self.errors@[j] is None)
    }

    /// The outcome of the condition `j`.
    pub open spec fn outcome(&self, j: int) -> Result<(), PolicyError> {
        outcome_of(self.state@, self.errors@, j)
    }
}

/// Whether the reliability condition `c` holds on the outcome `route`: it reaches the prefix, on
/// a path that satisfies the path condition, if there is one.
pub open spec fn reliable_ok(c: Condition, route: Result<Vec<RouterId>, NetworkError>) -> bool {
    match (c, route) {
        (Condition::Reliable(_, _, None), Ok(_)) => true,
        (Condition::Reliable(_, _, Some(pc)), Ok(path)) => pc.sat(path@),
        (Condition::Reliable(_, _, _), Err(_)) => false,
        _ => true,
    }
}

/// Whether the transient outcomes mark the condition `j` as violated.
pub open spec fn transient_violated(outcomes: Seq<(usize, bool)>, j: int) -> bool {
    exists|k: int| 0 <= k < outcomes.len() && (#[trigger] outcomes[k]).0 == j && !outcomes[k].1
}

/// Whether the errors of `a` and `b` are the same, one by one.
pub open spec fn same_errors(a: Seq<PolicyError>, b: Seq<PolicyError>) -> bool {
    a.len() == b.len() && forall|k: int| 0 <= k < a.len() ==> (#[trigger] a[k]).same_as(b[k])
}

/// Whether the optional errors of `a` and `b` are the same, one by one.
pub open spec fn same_optional_errors(a: Seq<Option<PolicyError>>, b: Seq<Option<PolicyError>>) -> bool {
    &&& a.len() == b.len()
    &&& forall|k: int| 0 <= k < a.len() ==> same_optional_error(#[trigger] a[k], b[k])
}

/// Some error of `s` is the same as `e`.
pub open spec fn has_same(s: Seq<PolicyError>, e: PolicyError) -> bool {
    exists|k: int| 0 <= k < s.len() && (#[trigger] s[k]).same_as(e)
}

/// The errors of `s`, each where it first occurs: an error that is the same as an earlier one
/// is dropped.
pub open spec fn distinct_errors(s: Seq<PolicyError>) -> Seq<PolicyError>
    decreases s.len(),
{
    if s.len() == 0 {
        Seq::empty()
    } else {
        let rest = distinct_errors(s.drop_last());
        if has_same(rest, s.last()) {
            rest
        } else {
            rest.push(s.last())
        }
    }
}

/// The errors that are present in the row, in order.
pub open spec fn present_errors(row: Seq<Option<PolicyError>>) -> Seq<PolicyError> {
    row.filter_map(|o: Option<PolicyError>| o)
}

impl HardPolicy {
    /// Checks every condition on the outcome of following the forwarding state from its router
    /// towards its prefix: `routes` holds one outcome per condition.
    pub fn check_conditions(&self, routes: Vec<Result<Vec<RouterId>, NetworkError>>) -> (r: StepResults)
        requires
            routes@.len() == self.conditions().len(),
            forall|i: int|
                0 <= i < routes@.len() && (self.conditions()[i] is Reachable
                    || self.conditions()[i] is NotReachable) ==> judged_route(#[trigger] routes@[i]),
        ensures
            r.consistent(self.conditions().len()),
            forall|i: int|
                0 <= i < routes@.len() ==> #[trigger] self.conditions()[i].checked(routes@[i], r.outcome(i)),
    {
        let ghost rs = routes@;
        let n = self.prop_vars.len();
        let mut routes = routes;
        let mut state: Vec<bool> = Vec::new();
        let mut errors: Vec<Option<PolicyError>> = Vec::new();
        let mut i: usize = 0;
        while i < n
            invariant
                n == self.conditions().len(),
                rs.len() == n,
                i <= n,
                routes@ == rs.skip(i as int),
                forall|k: int|
                    0 <= k < n && (self.conditions()[k] is Reachable
                        || self.conditions()[k] is NotReachable) ==> judged_route(#[trigger] rs[k]),
                state@.len() == i,
                errors@.len() == i,
                forall|k: int| 0 <= k < i ==> (#[trigger] state@[k] <==> errors@[k] is None),
                forall|k: int|
                    0 <= k < i ==> #[trigger] self.conditions()[k].checked(
                        rs[k],
                        outcome_of(state@, errors@, k),
                    ),
            decreases n - i,
        {
            let route = routes.remove(0);
            proof {
                assert(route == rs[i as int]);
                assert(routes@ =~= rs.skip(i + 1));
            }
            let ghost st = state@;
            let ghost er = errors@;
            let res = self.prop_vars[i].check(route);
            let ghost gres = res;
            match res {
                Ok(_) => {
                    state.push(true);
                    errors.push(None);
                    assert(state@[i as int]);
                    assert(gres is Ok);
                    assert(gres->Ok_0 == ());
                    assert(gres == Ok::<(), PolicyError>(()));
                    assert(outcome_of(state@, errors@, i as int) == gres);
                },
                Err(e) => {
                    let ghost ge = e;
                    state.push(false);
                    errors.push(Some(e));
                    assert(!state@[i as int] && errors@[i as int] == Some(ge));
                    assert(gres == Err::<(), PolicyError>(ge));
                    assert(outcome_of(state@, errors@, i as int) == gres);
                },
            }
            proof {
                assert(outcome_of(state@, errors@, i as int) == gres);
                assert forall|k: int| 0 <= k < i + 1 implies #[trigger] self.conditions()[k].checked(
                    rs[k],
                    outcome_of(state@, errors@, k),
                ) by {
                    if k < i {
                        assert(state@[k] == st[k]);
                        assert(errors@[k] == er[k]);
                        assert(outcome_of(state@, errors@, k) == outcome_of(st, er, k));
                        assert(self.conditions()[k].checked(rs[k], outcome_of(st, er, k)));
                    }
                }
                assert forall|k: int| 0 <= k < i + 1 implies (#[trigger] state@[k] <==> errors@[k] is None) by {
                    if k < i {
                        assert(state@[k] == st[k]);
                        assert(errors@[k] == er[k]);
                    }
                }
            }
            i += 1;
        }
        StepResults { state, errors }
    }

    /// Checks the reliability conditions once the link between `link_a` and `link_b` has failed:
    /// `routes` holds, for each reliability condition in the order of their positions, the
    /// outcome of following the forwarding state from its router towards its prefix. A violated
    /// condition is marked in `results`, with its error.
    pub fn check_link_failure(
        &self,
        results: &mut StepResults,
        link_a: RouterId,
        link_b: RouterId,
        routes: Vec<Result<Vec<RouterId>, NetworkError>>,
    )
        requires
            self.wf(),
            old(results).consistent(self.conditions().len()),
            routes@.len() == self.reliable_vars().len(),
            forall|k: int| 0 <= k < routes@.len() ==> reaches_or_fails(#[trigger] routes@[k]),
        ensures
            final(results).consistent(self.conditions().len()),
            forall|j: int|
                0 <= j < self.conditions().len() && !self.reliable_vars().contains(j as usize) ==> (
                #[trigger] final(results).state@[j]) == old(results).state@[j] && final(results).errors@[j]
                    == old(results).errors@[j],
            forall|k: int|
                0 <= k < self.reliable_vars().len() ==> {
                    let j = #[trigger] self.reliable_vars()[k] as int;
                    let c = self.conditions()[j];
                    &&& final(results).state@[j] == (old(results).state@[j] && reliable_ok(c, routes@[k]))
                    &&& reliable_ok(c, routes@[k]) ==> final(results).errors@[j] == old(results).errors@[j]
                    &&& !reliable_ok(c, routes@[k]) ==> c.reliable_checked(
                        routes@[k],
                        link_a,
                        link_b,
                        final(results).outcome(j),
                    )
                },
    {
        let ghost rs = routes@;
        let ghost n = self.conditions().len();
        let ghost rel = self.reliable_vars();
        let ghost st0 = results.state@;
        let ghost er0 = results.errors@;
        let mut routes = routes;
        let mut k: usize = 0;
        while k < self.reliability.len()
            invariant
                self.wf(),
                n == self.conditions().len(),
                rel == self.reliable_vars(),
                rs.len() == rel.len(),
                k <= rel.len(),
                routes@ == rs.skip(k as int),
                forall|m: int| 0 <= m < rs.len() ==> reaches_or_fails(#[trigger] rs[m]),
                results.consistent(n),
                forall|j: int|
                    0 <= j < n && !rel.take(k as int).contains(j as usize) ==> (#[trigger] results.state@[j])
                        == st0[j] && results.errors@[j] == er0[j],
                forall|m: int|
                    0 <= m < k ==> {
                        let j = #[trigger] rel[m] as int;
                        let c = self.conditions()[j];
                        &&& results.state@[j] == (st0[j] && reliable_ok(c, rs[m]))
                        &&& reliable_ok(c, rs[m]) ==> results.errors@[j] == er0[j]
                        &&& !reliable_ok(c, rs[m]) ==> c.reliable_checked(rs[m], link_a, link_b, results.outcome(j))
                    },
            decreases rel.len() - k,
        {
            let route = routes.remove(0);
            proof {
                assert(route == rs[k as int]);
                assert(routes@ =~= rs.skip(k + 1));
                assert(rel.take(k + 1) =~= rel.take(k as int).push(rel[k as int]));
            }
            let c_id = self.reliability[k];
            let ghost c = self.conditions()[c_id as int];
            let res = self.prop_vars[c_id].check_reliable(route, link_a, link_b);
            proof {
                assert(c is Reliable);
                match (c, rs[k as int]) {
                    (Condition::Reliable(_, _, Some(pc)), Ok(path)) => {
                        assert(res is Ok <==> pc.sat(path@));
                    },
                    _ => {},
                }
                assert(res is Ok <==> reliable_ok(c, rs[k as int]));
            }
            let ghost st_before = results.state@;
            let ghost er_before = results.errors@;
            match res {
                Ok(()) => {},
                Err(e) => {
                    results.state.set(c_id, false);
                    results.errors.set(c_id, Some(e));
                },
            }
            proof {
                assert forall|m: int| 0 <= m < k + 1 implies {
                    let j = #[trigger] rel[m] as int;
                    let c = self.conditions()[j];
                    &&& results.state@[j] == (st0[j] && reliable_ok(c, rs[m]))
                    &&& reliable_ok(c, rs[m]) ==> results.errors@[j] == er0[j]
                    &&& !reliable_ok(c, rs[m]) ==> c.reliable_checked(rs[m], link_a, link_b, results.outcome(j))
                } by {
                    if m < k {
                        assert(rel[m] != rel[k as int]);
                    } else {
                        assert(!rel.take(k as int).contains(c_id)) by {
                            if rel.take(k as int).contains(c_id) {
                                let w = choose|w: int| 0 <= w < k && rel.take(k as int)[w] == c_id;
                                assert(rel[w] < rel[k as int]);
                            }
                        }
                    }
                }
                assert forall|j: int|
                    0 <= j < n && !rel.take(k + 1).contains(j as usize) implies (#[trigger] results.state@[j])
                        == st0[j] && results.errors@[j] == er0[j] by {
                    assert(rel.take(k + 1)[k as int] == c_id);
                    if j == c_id {
                        assert(rel.take(k + 1).contains(c_id));
                    }
                    assert(results.state@[j] == st_before[j]);
                    assert(results.errors@[j] == er_before[j]);
                    assert(!rel.take(k as int).contains(j as usize)) by {
                        if rel.take(k as int).contains(j as usize) {
                            let w = choose|w: int| 0 <= w < k && rel.take(k as int)[w] == j as usize;
                            assert(rel.take(k + 1)[w] == j as usize);
                        }
                    }
                }
            }
            k += 1;
        }
        proof {
            assert(rel.take(rel.len() as int) =~= rel);
            assert forall|j: int|
                0 <= j < n && !rel.contains(j as usize) implies (#[trigger] results.state@[j]) == st0[j]
                    && results.errors@[j] == er0[j] by {
                assert(!rel.take(rel.len() as int).contains(j as usize));
            }
        }
    }

    /// Marks the transient path conditions that may be violated during the convergence: each
    /// entry of `outcomes` is the position of such a condition and whether it holds.
    pub fn check_transient(&self, results: &mut StepResults, outcomes: &Vec<(usize, bool)>)
        requires
            old(results).consistent(self.conditions().len()),
            forall|k: int|
                0 <= k < outcomes@.len() ==> (#[trigger] outcomes@[k]).0 < self.conditions().len()
                    && self.conditions()[outcomes@[k].0 as int] is TransientPath,
        ensures
            final(results).consistent(self.conditions().len()),
            forall|j: int|
                0 <= j < self.conditions().len() ==> (#[trigger] final(results).state@[j]) == (old(
                    results,
                ).state@[j] && !transient_violated(outcomes@, j)),
            forall|j: int|
                0 <= j < self.conditions().len() && !transient_violated(outcomes@, j) ==> (
                #[trigger] final(results).errors@[j]) == old(results).errors@[j],
            forall|j: int|
                0 <= j < self.conditions().len() && transient_violated(outcomes@, j) ==> match (
                    self.conditions()[j],
                    #[trigger] final(results).errors@[j],
                ) {
                    (
                        Condition::TransientPath(rid, pfx, c),
                        Some(PolicyError::TransientBehavior { router, prefix, condition }),
                    ) => router == rid && prefix == pfx && c.same_as(condition),
                    _ => false,
                },
    {
        let ghost n = self.conditions().len();
        let ghost st0 = results.state@;
        let ghost er0 = results.errors@;
        let mut k: usize = 0;
        while k < outcomes.len()
            invariant
                n == self.conditions().len(),
                k <= outcomes@.len(),
                forall|m: int|
                    0 <= m < outcomes@.len() ==> (#[trigger] outcomes@[m]).0 < n
                        && self.conditions()[outcomes@[m].0 as int] is TransientPath,
                results.consistent(n),
                forall|j: int|
                    0 <= j < n ==> (#[trigger] results.state@[j]) == (st0[j] && !transient_violated(
                        outcomes@.take(k as int),
                        j,
                    )),
                forall|j: int|
                    0 <= j < n && !transient_violated(outcomes@.take(k as int), j) ==> (
                    #[trigger] results.errors@[j]) == er0[j],
                forall|j: int|
                    0 <= j < n && transient_violated(outcomes@.take(k as int), j) ==> match (
                        self.conditions()[j],
                        #[trigger] results.errors@[j],
                    ) {
                        (
                            Condition::TransientPath(rid, pfx, c),
                            Some(PolicyError::TransientBehavior { router, prefix, condition }),
                        ) => router == rid && prefix == pfx && c.same_as(condition),
                        _ => false,
                    },
            decreases outcomes@.len() - k,
        {
            let (c_id, ok) = outcomes[k];
            let ghost before = outcomes@.take(k as int);
            let ghost after = outcomes@.take(k + 1);
            proof {
                assert(after =~= before.push(outcomes@[k as int]));
                assert forall|j: int| 0 <= j < n && j != c_id implies transient_violated(after, j)
                    == transient_violated(before, j) by {
                    if transient_violated(after, j) {
                        let w = choose|w: int| 0 <= w < after.len() && (#[trigger] after[w]).0 == j && !after[w].1;
                        assert(before[w] == after[w]);
                    }
                    if transient_violated(before, j) {
                        let w = choose|w: int| 0 <= w < before.len() && (#[trigger] before[w]).0 == j && !before[w].1;
                        assert(after[w] == before[w]);
                    }
                }
                if !ok {
                    assert(after[k as int].0 == c_id && !after[k as int].1);
                    assert(transient_violated(after, c_id as int));
                } else {
                    assert(transient_violated(after, c_id as int) == transient_violated(before, c_id as int)) by {
                        if transient_violated(after, c_id as int) {
                            let w = choose|w: int| 0 <= w < after.len() && (#[trigger] after[w]).0 == c_id && !after[w].1;
                            assert(w != k);
                            assert(before[w] == after[w]);
                        }
                        if transient_violated(before, c_id as int) {
                            let w = choose|w: int| 0 <= w < before.len() && (#[trigger] before[w]).0 == c_id && !before[w].1;
                            assert(after[w] == before[w]);
                        }
                    }
                }
            }
            if !ok {
                match &self.prop_vars[c_id] {
                    Condition::TransientPath(r, p, c) => {
                        let e = PolicyError::TransientBehavior { router: *r, prefix: *p, condition: c.deep_clone() };
                        results.state.set(c_id, false);
                        results.errors.set(c_id, Some(e));
                    },
                    _ => {},
                }
            }
            k += 1;
        }
        proof {
            assert(outcomes@.take(outcomes@.len() as int) =~= outcomes@);
        }
    }

    /// Gives the analyzer of the transient path conditions, if there are any, the forwarding
    /// supergraph of each of its prefixes in the new state, and returns its verdicts: for each
    /// transient path condition, its position and whether every path that packets may take
    /// during the convergence satisfies it.
    pub fn transient_step(&mut self, graphs: Vec<ForwardingSupergraph>) -> (r: Vec<(usize, bool)>)
        requires
            old(self).wf(),
            old(self).analyzer() matches Some(a) ==> graphs@.len() == a.num_prefixes() && forall|i: int|
                0 <= i < graphs@.len() ==> a.accepts(i, #[trigger] graphs@[i]),
        ensures
            final(self).wf(),
            final(self).same_setup(old(self)),
            final(self).hist() == old(self).hist(),
            final(self).errors() == old(self).errors(),
            old(self).analyzer() is None ==> r@.len() == 0 && final(self).analyzer() is None,
            final(self).analyzer() matches Some(a) ==> r@ == a.verdicts(),
            forall|k: int|
                0 <= k < r@.len() ==> (#[trigger] r@[k]).0 < final(self).conditions().len()
                    && final(self).conditions()[r@[k].0 as int] is TransientPath,
    {
        let mut tsa = self.tsa.take();
        let r = match &mut tsa {
            Some(a) => {
                a.step(graphs);
                let r = a.check();
                proof {
                    a.lemma_verdicts_transient(self.prop_vars@);
                }
                r
            },
            None => Vec::new(),
        };
        self.tsa = tsa;
        r
    }

    /// Applies a next step to the LTL model: pushes the values and the errors of the conditions
    /// in the new state to the history.
    pub fn step(&mut self, results: StepResults)
        requires
            old(self).wf(),
            results.consistent(old(self).conditions().len()),
        ensures
            final(self).wf(),
            final(self).same_setup(old(self)),
            final(self).hist() == old(self).hist().push(results.state@),
            final(self).errors() == old(self).errors().push(results.errors@),
    {
        let ghost st = results.state@;
        let ghost er = results.errors@;
        self.history.push(results.state);
        self.error_history.push(results.errors);
        proof {
            assert(self.hist() =~= old(self).hist().push(st));
            assert(self.errors() =~= old(self).errors().push(er));
        }
    }

    /// Returns the set of all errors of all propositional variables in the last state: each error
    /// once, where it first occurs. It might be the case that these errors don't necessarily
    /// contribute to the result of the last call to check.
    pub fn last_errors(&self) -> (r: Vec<PolicyError>)
        ensures
            self.errors().len() == 0 ==> r@.len() == 0,
            self.errors().len() > 0 ==> same_errors(distinct_errors(present_errors(self.errors().last())), r@),
    {
        let mut r: Vec<PolicyError> = Vec::new();
        if self.error_history.len() == 0 {
            return r;
        }
        let last = &self.error_history[self.error_history.len() - 1];
        let ghost row = last@;
        assert(row == self.errors().last());
        let mut i: usize = 0;
        proof {
            assert(row.take(0) =~= Seq::<Option<PolicyError>>::empty());
            assert(present_errors(row.take(0)) =~= Seq::<PolicyError>::empty());
        }
        while i < last.len()
            invariant
                row == last@,
                i <= row.len(),
                same_errors(distinct_errors(present_errors(row.take(i as int))), r@),
            decreases row.len() - i,
        {
            proof {
                assert(row.take(i + 1).drop_last() =~= row.take(i as int));
                assert(row.take(i + 1).last() == row[i as int]);
            }
            match &last[i] {
                Some(e) => {
                    let ghost d = distinct_errors(present_errors(row.take(i as int)));
                    proof {
                        assert(present_errors(row.take(i + 1)) =~= present_errors(row.take(i as int)).push(*e));
                        assert(present_errors(row.take(i + 1)).drop_last() =~= present_errors(row.take(i as int)));
                    }
                    let mut found = false;
                    let mut j: usize = 0;
                    while j < r.len()
                        invariant
                            j <= r@.len(),
                            same_errors(d, r@),
                            found == (exists|k: int| 0 <= k < j && (#[trigger] r@[k]).same_as(*e)),
                        decreases r@.len() - j,
                    {
                        if r[j].equals(e) {
                            found = true;
                        }
                        j += 1;
                    }
                    proof {
                        if has_same(d, *e) {
                            let k = choose|k: int| 0 <= k < d.len() && (#[trigger] d[k]).same_as(*e);
                            lemma_same_error_symmetric(d[k], r@[k]);
                            lemma_same_error_transitive(r@[k], d[k], *e);
                        }
                        if found {
                            let k = choose|k: int| 0 <= k < r@.len() && (#[trigger] r@[k]).same_as(*e);
                            lemma_same_error_transitive(d[k], r@[k], *e);
                            assert(has_same(d, *e));
                        }
                    }
                    if !found {
                        r.push(e.clone());
                    }
                },
                None => {
                    proof {
                        assert(present_errors(row.take(i + 1)) =~= present_errors(row.take(i as int)));
                    }
                },
            }
            i += 1;
        }
        proof {
            assert(row.take(row.len() as int) =~= row);
        }
        r
    }

    /// Get the error associated with the watch provided to this method. The watch is an array
    /// containing the indices of all propositional variables which need to be considered. The
    /// resulting vector contains the error of the propositional variable, in the same order as
    /// provided. If a propositional variable is true, the error corresponding to this variable
    /// is None.
    pub fn last_errors_of_watch(&self, watch: &[usize]) -> (r: Vec<Option<PolicyError>>)
        requires
            self.errors().len() > 0 ==> forall|k: int| 0 <= k < watch@.len() ==> (#[trigger] watch@[k])
                < self.errors().last().len(),
        ensures
            self.errors().len() == 0 ==> r@.len() == 0,
            self.errors().len() > 0 ==> same_optional_errors(
                Seq::new(watch@.len(), |k: int| self.errors().last()[watch@[k] as int]),
                r@,
            ),
    {
        let mut r: Vec<Option<PolicyError>> = Vec::new();
        if self.error_history.len() == 0 {
            return r;
        }
        let last = &self.error_history[self.error_history.len() - 1];
        let ghost row = last@;
        assert(row == self.errors().last());
        let ghost want = Seq::new(watch@.len(), |k: int| row[watch@[k] as int]);
        let mut k: usize = 0;
        while k < watch.len()
            invariant
                row == last@,
                k <= watch@.len(),
                want == Seq::new(watch@.len(), |k: int| row[watch@[k] as int]),
                forall|m: int| 0 <= m < watch@.len() ==> (#[trigger] watch@[m]) < row.len(),
                same_optional_errors(want.take(k as int), r@),
            decreases watch@.len() - k,
        {
            let e = match &last[watch[k]] {
                Some(e) => Some(e.clone()),
                None => None,
            };
            r.push(e);
            proof {
                assert(want.take(k + 1) =~= want.take(k as int).push(want[k as int]));
            }
            k += 1;
        }
        proof {
            assert(want.take(watch@.len() as int) =~= want);
        }
        r
    }

    /// Compute the watch and get the last errors of the respective watch. This is a helpful utility
    /// for getting the errors, and comparing it later.
    pub fn get_watch_errors(&self) -> (r: WatchErrors)
        requires
            self.wf(),
            self.expression().fits(self.hist()),
            forall|x: usize| #[trigger] self.in_watch(x) ==> x < self.conditions().len(),
        ensures
            strictly_increasing(r.0@),
            forall|x: usize| #[trigger] r.0@.contains(x) <==> self.in_watch(x),
            self.errors().len() == 0 ==> r.1@.len() == 0,
            self.errors().len() > 0 ==> same_optional_errors(
                Seq::new(r.0@.len(), |k: int| self.errors().last()[r.0@[k] as int]),
                r.1@,
            ),
    {
        let watch = self.get_watch();
        proof {
            if self.errors().len() > 0 {
                assert(self.hist()[self.hist().len() - 1].len() == self.conditions().len());
                assert(self.errors().last().len() == self.conditions().len());
                assert forall|k: int| 0 <= k < watch@.len() implies (#[trigger] watch@[k])
                    < self.errors().last().len() by {
                    assert(watch@.contains(watch@[k]));
                }
            }
        }
        let errors = self.last_errors_of_watch(watch.as_slice());
        (watch, errors)
    }

    /// This method compares the current state of the checker with a previous state, which was
    /// extracted using the method `get_watch_errors`. This funciton returns `true` if the errors
    /// are the same, and `false` if the errors are different. Only the errors from the watch are
    /// compared.
    pub fn compare_watch_errors(&self, watch_errors: &WatchErrors) -> (r: bool)
        requires
            self.errors().len() > 0 ==> forall|k: int| 0 <= k < watch_errors.0@.len() ==> (
            #[trigger] watch_errors.0@[k]) < self.errors().last().len(),
        ensures
            self.errors().len() == 0 ==> r == (watch_errors.1@.len() == 0),
            self.errors().len() > 0 ==> r == same_optional_errors(
                watch_errors.1@,
                Seq::new(watch_errors.0@.len(), |k: int| self.errors().last()[watch_errors.0@[k] as int]),
            ),
    {
        let new_errors = self.last_errors_of_watch(watch_errors.0.as_slice());
        let ghost want = Seq::new(watch_errors.0@.len(), |k: int| self.errors().last()[watch_errors.0@[k] as int]);
        let old_errors = &watch_errors.1;
        if old_errors.len() != new_errors.len() {
            return false;
        }
        let mut k: usize = 0;
        while k < old_errors.len()
            invariant
                old_errors@.len() == new_errors@.len(),
                old_errors@ == watch_errors.1@,
                want == Seq::new(watch_errors.0@.len(), |k: int| self.errors().last()[watch_errors.0@[k] as int]),
                self.errors().len() == 0 ==> new_errors@.len() == 0,
                k <= old_errors@.len(),
                self.errors().len() > 0 ==> same_optional_errors(want, new_errors@),
                forall|m: int| 0 <= m < k ==> same_optional_error(#[trigger] old_errors@[m], new_errors@[m]),
            decreases old_errors@.len() - k,
        {
            let same = match (&old_errors[k], &new_errors[k]) {
                (None, None) => true,
                (Some(x), Some(y)) => x.equals(y),
                _ => false,
            };
            if !same {
                proof {
                    if self.errors().len() > 0 {
                        lemma_same_optional_errors_differ(old_errors@, new_errors@, want, k as int);
                    }
                }
                return false;
            }
            k += 1;
        }
        proof {
            if self.errors().len() > 0 {
                lemma_same_optional_errors_trans(old_errors@, new_errors@, want);
            }
        }
        true
    }
}

/// Whether the optional errors `a` and `b` are the same.
pub open spec fn same_optional_error(a: Option<PolicyError>, b: Option<PolicyError>) -> bool {
    match (a, b) {
        (None, None) => true,
        (Some(x), Some(y)) => x.same_as(y),
        _ => false,
    }
}

/// If the errors of `old` and `new` differ at one position, while `want` has the same errors as
/// `new`, then `old` and `want` differ too.
proof fn lemma_same_optional_errors_differ(
    old: Seq<Option<PolicyError>>,
    new: Seq<Option<PolicyError>>,
    want: Seq<Option<PolicyError>>,
    k: int,
)
    requires
        same_optional_errors(want, new),
        old.len() == new.len(),
        0 <= k < old.len(),
        !same_optional_error(old[k], new[k]),
    ensures
        !same_optional_errors(old, want),
{
    if same_optional_errors(old, want) {
        assert(same_optional_error(old[k], want[k]));
        assert(same_optional_error(want[k], new[k]));
        if let (Some(x), Some(y), Some(z)) = (old[k], want[k], new[k]) {
            lemma_same_error_transitive(x, y, z);
        }
    }
}

/// If every error of `old` is the same as that of `new`, and `want` has the same errors as
/// `new`, then `old` has the same errors as `want`.
proof fn lemma_same_optional_errors_trans(
    old: Seq<Option<PolicyError>>,
    new: Seq<Option<PolicyError>>,
    want: Seq<Option<PolicyError>>,
)
    requires
        same_optional_errors(want, new),
        old.len() == new.len(),
        forall|m: int| 0 <= m < old.len() ==> same_optional_error(#[trigger] old[m], new[m]),
    ensures
        same_optional_errors(old, want),
{
    assert forall|m: int| 0 <= m < old.len() implies same_optional_error(#[trigger] old[m], want[m]) by {
        assert(same_optional_error(want[m], new[m]));
        assert(same_optional_error(old[m], new[m]));
        if let (Some(x), Some(y), Some(z)) = (old[m], want[m], new[m]) {
            lemma_same_error_symmetric(y, z);
            lemma_same_error_transitive(x, z, y);
        }
    }
}

/// Whether the numbers of `s` are strictly increasing: sorted, and each one only once.
pub open spec fn strictly_increasing(s: Seq<usize>) -> bool {
    forall|a: int, b: int| 0 <= a < b < s.len() ==> s[a] < s[b]
}

/// The numbers of `v`, sorted, and each one only once.
pub fn sorted_unique(v: &Vec<usize>) -> (r: Vec<usize>)
    ensures
        strictly_increasing(r@),
        forall|x: usize| #[trigger] r@.contains(x) <==> v@.contains(x),
{
    let mut r: Vec<usize> = Vec::new();
    let mut i: usize = 0;
    while i < v.len()
        invariant
            i <= v@.len(),
            strictly_increasing(r@),
            forall|x: usize| #[trigger] r@.contains(x) <==> v@.take(i as int).contains(x),
        decreases v@.len() - i,
    {
        let x = v[i];
        let ghost before = r@;
        let mut k: usize = 0;
        while k < r.len() && r[k] < x
            invariant
                k <= r@.len(),
                r@ == before,
                forall|m: int| 0 <= m < k ==> r@[m] < x,
            decreases r@.len() - k,
        {
            k += 1;
        }
        if k < r.len() && r[k] == x {
        } else {
            r.insert(k, x);
            proof {
                assert forall|a: int, b: int| 0 <= a < b < r@.len() implies r@[a] < r@[b] by {
                    if b < k {
                    } else if b == k {
                    } else if a < k {
                        assert(r@[b] == before[b - 1]);
                    } else if a == k {
                        assert(r@[b] == before[b - 1]);
                        assert(before[k as int] > x || true);
                        if k < before.len() {
                            assert(before[k as int] >= x);
                            assert(before[k as int] != x);
                            if b - 1 > k {
                                assert(before[k as int] < before[b - 1]);
                            }
                        }
                    } else {
                        assert(r@[a] == before[a - 1]);
                        assert(r@[b] == before[b - 1]);
                    }
                }
            }
        }
        proof {
            assert(v@.take(i + 1) =~= v@.take(i as int).push(x));
            assert forall|y: usize| #[trigger] r@.contains(y) implies v@.take(i + 1).contains(y) by {
                let m = choose|m: int| 0 <= m < r@.len() && r@[m] == y;
                if y != x {
                    if r@.len() > before.len() && m > k {
                        assert(before[m - 1] == y);
                    } else {
                        assert(before[m] == y);
                    }
                    assert(before.contains(y));
                    assert(v@.take(i as int).contains(y));
                    let vt = v@.take(i as int);
                    let w = choose|w: int| 0 <= w < vt.len() && vt[w] == y;
                    assert(v@.take(i + 1)[w] == y);
                } else {
                    assert(v@.take(i + 1)[i as int] == y);
                }
            }
            assert forall|y: usize| v@.take(i + 1).contains(y) implies #[trigger] r@.contains(y) by {
                if y == x {
                    assert(r@[k as int] == x);
                } else {
                    let vt = v@.take(i + 1);
                    let w = choose|w: int| 0 <= w < vt.len() && vt[w] == y;
                    assert(w < i);
                    assert(v@.take(i as int)[w] == y);
                    assert(v@.take(i as int).contains(y));
                    assert(before.contains(y));
                    let m = choose|m: int| 0 <= m < before.len() && before[m] == y;
                    if r@.len() > before.len() {
                        if m < k {
                            assert(r@[m] == y);
                        } else {
                            assert(r@[m + 1] == y);
                        }
                    } else {
                        assert(r@[m] == y);
                    }
                }
            }
        }
        i += 1;
    }
    assert(v@.take(v@.len() as int) =~= v@);
    r
}

/// The first position of a row, up to `j`, that is false.
proof fn first_false(row: Seq<bool>, j: int) -> (m: int)
    requires
        0 <= j < row.len(),
        !row[j],
    ensures
        0 <= m <= j,
        !row[m],
        forall|k: int| 0 <= k < m ==> row[k],
    decreases j,
{
    if exists|k: int| 0 <= k < j && !row[k] {
        let k = choose|k: int| 0 <= k < j && !row[k];
        first_false(row, k)
    } else {
        j
    }
}

/// The conjunction of the first `n` variables holds on a history, and evaluates to true, where
/// the first state satisfies them, and is false otherwise.
proof fn lemma_conjunction_first(e: LTLExpr, n: nat, s: Seq<Seq<bool>>)
    requires
        conjunction_of(e, first_indices(n)),
        n <= usize::MAX,
        s.len() > 0,
    ensures
        e.holds(s) == (forall|j: int| 0 <= j < n ==> #[trigger] s[0][j]),
        e.eval(s) == (if forall|j: int| 0 <= j < n ==> #[trigger] s[0][j] {
            LTLResult::T
        } else {
            LTLResult::F
        }),
{
    let b = e->Boolean_0;
    let v = b->And_0@;
    assert forall|k: int| 0 <= k < n implies (#[trigger] v[k]).holds(s) == s[0][k] && v[k].eval(s)
        == res_of(s[0][k]) by {
        assert(first_indices(n)[k] == k as usize);
        assert(*v[k] == LTLExpr::Var(k as usize));
    }
    if forall|j: int| 0 <= j < n ==> #[trigger] s[0][j] {
        assert forall|j: int| 0 <= j < v.len() implies (#[trigger] v[j]).eval(s) == LTLResult::T by {
            assert(s[0][j]);
        }
    } else {
        let j = choose|j: int| 0 <= j < n && !s[0][j];
        let row = Seq::new(n, |k: int| s[0][k]);
        let m = first_false(row, j);
        assert(v[m].eval(s) == LTLResult::F);
        assert forall|k: int| 0 <= k < m implies (#[trigger] v[k]).eval(s) == LTLResult::T by {
            assert(row[k]);
        }
        assert(!v[m].holds(s));
    }
}

/// The requirement that the first `n` conditions hold in every state holds on a finished
/// history exactly when every state satisfies them; on a history that may still be extended,
/// it is false as soon as one state violates one of them, and undecided otherwise.
pub proof fn lemma_globally_all(e: LTLModal, n: nat, s: Seq<Seq<bool>>)
    requires
        globally_all(e, n),
        n <= usize::MAX,
    ensures
        e.holds(s) == all_satisfied(s, n),
        e.eval(s) == (if all_satisfied(s, n) { LTLResult::U } else { LTLResult::F }),
    decreases s.len(),
{
    if s.len() > 0 {
        let phi = *e->Globally_0;
        lemma_conjunction_first(phi, n, s);
        lemma_globally_all(e, n, s.skip(1));
        let first = forall|j: int| 0 <= j < n ==> #[trigger] s[0][j];
        if all_satisfied(s, n) {
            assert forall|i: int, j: int| 0 <= i < s.skip(1).len() && 0 <= j < n implies #[trigger] s.skip(
                1,
            )[i][j] by {
                assert(s.skip(1)[i] == s[i + 1]);
                assert(s[i + 1][j]);
            }
            assert forall|j: int| 0 <= j < n implies #[trigger] s[0][j] by {
                assert(s[0][j]);
            }
        }
        if first && all_satisfied(s.skip(1), n) {
            assert forall|i: int, j: int| 0 <= i < s.len() && 0 <= j < n implies #[trigger] s[i][j] by {
                if i > 0 {
                    assert(s[i] == s.skip(1)[i - 1]);
                    assert(s.skip(1)[i - 1][j]);
                }
            }
        }
        if !first {
            let j = choose|j: int| 0 <= j < n && !s[0][j];
            assert(!all_satisfied(s, n));
        }
        if !all_satisfied(s.skip(1), n) {
            let (i, j) = choose|i: int, j: int| 0 <= i < s.skip(1).len() && 0 <= j < n && !#[trigger] s.skip(1)[i][j];
            assert(s.skip(1)[i] == s[i + 1]);
            assert(!s[i + 1][j]);
            assert(!all_satisfied(s, n));
        }
    }
}

/// The verdict of a policy that requires every condition in every state is, whether the
/// history is finished or not, that every state seen so far satisfies every condition.
pub proof fn lemma_globally_verdict(p: HardPolicy, finish: bool)
    requires
        globally_all(p.expression(), p.conditions().len()),
        p.conditions().len() <= usize::MAX,
    ensures
        (if finish {
            p.expression().holds(p.hist())
        } else {
            p.expression().eval(p.hist()) != LTLResult::F
        }) == all_satisfied(p.hist(), p.conditions().len()),
{
    lemma_globally_all(p.expression(), p.conditions().len(), p.hist());
}

/// Undoing a step gives back the history and the errors from before the step.
pub proof fn lemma_undo_undoes_step(
    before: HardPolicy,
    stepped: HardPolicy,
    undone: HardPolicy,
    results: StepResults,
)
    requires
        stepped.hist() == before.hist().push(results.state@),
        stepped.errors() == before.errors().push(results.errors@),
        undone.hist() == (if stepped.hist().len() > 0 {
            stepped.hist().drop_last()
        } else {
            stepped.hist()
        }),
        undone.errors() == (if stepped.errors().len() > 0 {
            stepped.errors().drop_last()
        } else {
            stepped.errors()
        }),
    ensures
        undone.hist() == before.hist(),
        undone.errors() == before.errors(),
{
    assert(before.hist().push(results.state@).drop_last() =~= before.hist());
    assert(before.errors().push(results.errors@).drop_last() =~= before.errors());
}

/// The errors that `last_errors` returns after a step and its undoing are the same as those it
/// returned before the step: `e0` is what it returned on `before`, `e1` what it returned on
/// `undone`, whose errors are those of `before` again (see `lemma_undo_undoes_step`). Each error
/// is a clone, so the two agree error by error.
pub proof fn lemma_undo_restores_last_errors(
    before: HardPolicy,
    undone: HardPolicy,
    e0: Seq<PolicyError>,
    e1: Seq<PolicyError>,
)
    requires
        undone.errors() == before.errors(),
        before.errors().len() == 0 ==> e0.len() == 0,
        before.errors().len() > 0 ==> same_errors(distinct_errors(present_errors(before.errors().last())), e0),
        undone.errors().len() == 0 ==> e1.len() == 0,
        undone.errors().len() > 0 ==> same_errors(distinct_errors(present_errors(undone.errors().last())), e1),
    ensures
        same_errors(e0, e1),
{
    if before.errors().len() > 0 {
        let d = distinct_errors(present_errors(before.errors().last()));
        assert forall|k: int| 0 <= k < e0.len() implies (#[trigger] e0[k]).same_as(e1[k]) by {
            lemma_same_error_symmetric(d[k], e0[k]);
            lemma_same_error_transitive(e0[k], d[k], e1[k]);
        }
    }
}

/// Two strictly increasing sequences with the same elements are equal.
pub proof fn lemma_increasing_same_elements(a: Seq<usize>, b: Seq<usize>)
    requires
        strictly_increasing(a),
        strictly_increasing(b),
        forall|x: usize| #[trigger] a.contains(x) <==> b.contains(x),
    ensures
        a == b,
    decreases a.len(),
{
    if a.len() == 0 {
        if b.len() > 0 {
            assert(b.contains(b[0]));
            assert(a.contains(b[0]));
            assert(false);
        }
        assert(a =~= b);
    } else {
        assert(a.contains(a[0]));
        assert(b.len() > 0);
        assert(b.contains(b[0]));
        let j = choose|j: int| 0 <= j < b.len() && b[j] == a[0];
        assert(a.contains(b[0]));
        let k = choose|k: int| 0 <= k < a.len() && a[k] == b[0];
        if j > 0 {
            assert(b[0] < b[j]);
        }
        if k > 0 {
            assert(a[0] < a[k]);
        }
        assert(a[0] == b[0]);
        let ra = a.drop_first();
        let rb = b.drop_first();
        assert forall|x: usize| #[trigger] ra.contains(x) <==> rb.contains(x) by {
            if ra.contains(x) {
                let i = choose|i: int| 0 <= i < ra.len() && ra[i] == x;
                assert(a[i + 1] == x && a.contains(x));
                assert(a[0] < a[i + 1]);
                assert(b.contains(x));
                let m = choose|m: int| 0 <= m < b.len() && b[m] == x;
                assert(m != 0);
                assert(rb[m - 1] == x);
            }
            if rb.contains(x) {
                let i = choose|i: int| 0 <= i < rb.len() && rb[i] == x;
                assert(b[i + 1] == x && b.contains(x));
                assert(b[0] < b[i + 1]);
                assert(a.contains(x));
                let m = choose|m: int| 0 <= m < a.len() && a[m] == x;
                assert(m != 0);
                assert(ra[m - 1] == x);
            }
        }
        lemma_increasing_same_elements(ra, rb);
        assert(a =~= seq![a[0]] + ra);
        assert(b =~= seq![b[0]] + rb);
    }
}

/// A step followed by its undoing gives back what `check`, `get_watch` and `last_errors` return:
/// `before` is the policy before the step, `stepped` after it and `undone` after the undoing;
/// `b0`, `w0`, `e0` are what `check`, `get_watch` and `last_errors` returned on `before`, and
/// `b1`, `w1`, `e1` what they return on `undone`. The errors are clones, and agree error by
/// error.
pub proof fn lemma_step_undo_round_trip(
    before: HardPolicy,
    stepped: HardPolicy,
    undone: HardPolicy,
    results: StepResults,
    b0: bool,
    b1: bool,
    w0: Seq<usize>,
    w1: Seq<usize>,
    e0: Seq<PolicyError>,
    e1: Seq<PolicyError>,
)
    requires
        stepped.same_setup(&before),
        stepped.hist() == before.hist().push(results.state@),
        stepped.errors() == before.errors().push(results.errors@),
        undone.same_setup(&stepped),
        undone.hist() == (if stepped.hist().len() > 0 {
            stepped.hist().drop_last()
        } else {
            stepped.hist()
        }),
        undone.errors() == (if stepped.errors().len() > 0 {
            stepped.errors().drop_last()
        } else {
            stepped.errors()
        }),
        b0 == (if before.finished() {
            before.expression().holds(before.hist())
        } else {
            before.expression().eval(before.hist()) != LTLResult::F
        }),
        b1 == (if undone.finished() {
            undone.expression().holds(undone.hist())
        } else {
            undone.expression().eval(undone.hist()) != LTLResult::F
        }),
        strictly_increasing(w0),
        forall|x: usize| #[trigger] w0.contains(x) <==> before.in_watch(x),
        strictly_increasing(w1),
        forall|x: usize| #[trigger] w1.contains(x) <==> undone.in_watch(x),
        before.errors().len() == 0 ==> e0.len() == 0,
        before.errors().len() > 0 ==> same_errors(distinct_errors(present_errors(before.errors().last())), e0),
        undone.errors().len() == 0 ==> e1.len() == 0,
        undone.errors().len() > 0 ==> same_errors(distinct_errors(present_errors(undone.errors().last())), e1),
    ensures
        b1 == b0,
        w1 == w0,
        same_errors(e0, e1),
{
    lemma_undo_undoes_step(before, stepped, undone, results);
    assert(undone.finished() == before.finished());
    assert forall|x: usize| #[trigger] w0.contains(x) <==> w1.contains(x) by {
        assert(before.in_watch(x) == undone.in_watch(x));
    }
    lemma_increasing_same_elements(w0, w1);
    lemma_undo_restores_last_errors(before, undone, e0, e1);
}

impl HardPolicy {
    /// Every router that the conditions and the transient state analyzer name is below `n`.
    pub open spec fn named(&self, n: nat) -> bool {
        &&& forall|i: int|
            0 <= i < self.conditions().len() ==> (#[trigger] self.conditions()[i]).named(
                Some(Seq::new(n, |k: int| Seq::<char>::empty())),
            )
        &&& self.analyzer() matches Some(a) ==> a.named(n)
    }

    /// Whether every router that the conditions and the transient state analyzer name is below
    /// `n`: whether `n` names are enough to write the policy.
    pub fn has_names(&self, n: usize) -> (r: bool)
        ensures
            r == self.named(n as nat),
    {
        let mut i: usize = 0;
        while i < self.prop_vars.len()
            invariant
                i <= self.conditions().len(),
                self.conditions() == self.prop_vars@,
                forall|j: int|
                    0 <= j < i ==> (#[trigger] self.conditions()[j]).named(
                        Some(Seq::new(n as nat, |k: int| Seq::<char>::empty())),
                    ),
            decreases self.conditions().len() - i,
        {
            if !self.prop_vars[i].has_names(n) {
                return false;
            }
            i += 1;
        }
        match &self.tsa {
            Some(a) => a.has_names(n),
            None => true,
        }
    }

    /// The line of condition `i`: the name of its variable, then how the condition is written.
    pub open spec fn var_line(&self, i: int, names: Seq<Seq<char>>) -> Seq<char> {
        var_name(i as nat) + ": "@ + self.conditions()[i].written(Some(names))
    }

    /// The history of condition `i`: the name of its variable, then `T` or `F` for each state.
    pub open spec fn history_line(&self, i: int) -> Seq<char> {
        var_name(i as nat) + ": "@ + items_joined(
            Seq::new(self.hist().len(), |t: int| if self.hist()[t][i] { "T"@ } else { "F"@ }),
            " "@,
            self.hist().len(),
        )
    }

    /// How the policy is written: the expression, the conditions, the history of each condition
    /// and the transient state analyzer, or `----` where there is none.
    pub open spec fn written(&self, names: Seq<Seq<char>>) -> Seq<char> {
        let n = self.conditions().len();
        "LTL: "@ + self.expression().repr_spec() + "\nVars:\n    "@ + items_joined(
            Seq::new(n, |i: int| self.var_line(i, names)),
            "\n    "@,
            n,
        ) + "\nHistory:\n    "@ + items_joined(Seq::new(n, |i: int| self.history_line(i)), "\n    "@, n)
            + "\ntransient state:\n"@ + match self.analyzer() {
            Some(a) => a.written(names),
            None => "----"@,
        }
    }

    /// Represent the LTL condition by a multiline string, with the router names inserted. The
    /// names are indexed by router.
    pub fn repr_with_name(&self, names: &Vec<String>) -> (s: String)
        requires
            self.wf(),
            self.named(names@.len()),
        ensures
            s@ == self.written(names@.map_values(|y: String| y@)),
    {
        let ghost nv = names@.map_values(|y: String| y@);
        let ghost blank = Seq::new(names@.len(), |k: int| Seq::<char>::empty());
        assert(names_view(Some(names)) == Some(nv));
        let n = self.prop_vars.len();
        let mut s = String::from_str("LTL: ");
        let e = self.expr.repr();
        s.append(e.as_str());
        s.append("\nVars:\n    ");
        let mut vars: Vec<String> = Vec::new();
        let mut i: usize = 0;
        while i < n
            invariant
                n == self.conditions().len(),
                self.conditions() == self.prop_vars@,
                self.named(names@.len()),
                blank == Seq::new(names@.len(), |k: int| Seq::<char>::empty()),
                nv == names@.map_values(|y: String| y@),
                names_view(Some(names)) == Some(nv),
                i <= n,
                vars@.len() == i,
                forall|x: int| 0 <= x < i ==> (#[trigger] vars@[x])@ == self.var_line(x, nv),
            decreases n - i,
        {
            assert(self.conditions()[i as int].named(Some(blank)));
            assert(self.conditions()[i as int].named(Some(nv)));
            let mut line = var_repr(i);
            line.append(": ");
            let c = self.prop_vars[i].repr_with_name(names);
            line.append(c.as_str());
            vars.push(line);
            i += 1;
        }
        assert(vars@.map_values(|y: String| y@) =~= Seq::new(n as nat, |i: int| self.var_line(i, nv)));
        let v = join_strings(&vars, "\n    ");
        s.append(v.as_str());
        s.append("\nHistory:\n    ");
        let mut rows: Vec<String> = Vec::new();
        let mut i: usize = 0;
        while i < n
            invariant
                n == self.conditions().len(),
                self.wf(),
                i <= n,
                rows@.len() == i,
                forall|x: int| 0 <= x < i ==> (#[trigger] rows@[x])@ == self.history_line(x),
            decreases n - i,
        {
            let ghost marks = Seq::new(self.hist().len(), |t: int| if self.hist()[t][i as int] { "T"@ } else { "F"@ });
            let mut states: Vec<String> = Vec::new();
            let mut t: usize = 0;
            while t < self.history.len()
                invariant
                    n == self.conditions().len(),
                    self.wf(),
                    i < n,
                    t <= self.hist().len(),
                    marks == Seq::new(self.hist().len(), |t: int| if self.hist()[t][i as int] { "T"@ } else { "F"@ }),
                    states@.len() == t,
                    forall|x: int| 0 <= x < t ==> (#[trigger] states@[x])@ == marks[x],
                decreases self.hist().len() - t,
            {
                assert(self.hist()[t as int].len() == self.conditions().len());
                assert(self.hist()[t as int] == self.history@[t as int]@);
                if self.history[t][i] {
                    states.push(String::from_str("T"));
                } else {
                    states.push(String::from_str("F"));
                }
                t += 1;
            }
            assert(states@.map_values(|y: String| y@) =~= marks);
            let mut line = var_repr(i);
            line.append(": ");
            let h = join_strings(&states, " ");
            line.append(h.as_str());
            rows.push(line);
            i += 1;
        }
        assert(rows@.map_values(|y: String| y@) =~= Seq::new(n as nat, |i: int| self.history_line(i)));
        let h = join_strings(&rows, "\n    ");
        s.append(h.as_str());
        s.append("\ntransient state:\n");
        match &self.tsa {
            Some(a) => {
                let t = a.repr_with_name(names);
                s.append(t.as_str());
            },
            None => {
                s.append("----");
            },
        }
        assert(s@ =~= self.written(nv));
        s
    }
}

} // verus!
