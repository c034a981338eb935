//! # Partial results are final
//!
//! The result of an expression on a history that may still be extended is decided only if it
//! stays the same however the history is extended: a true partial result means that the
//! expression holds on every finished history that starts with the states seen so far, a false
//! one that it holds on none. This is the case as long as every release operator releases on an
//! operand that the current state decides.
use vstd::prelude::*;
use crate::hard_policies::ltl::{LTLBoolean, LTLExpr, LTLModal, LTLResult};

verus! {

impl LTLExpr {
    /// Whether the expression only reads the first state of a history: it holds no temporal
    /// operator but `Now`.
    pub open spec fn is_state_formula(self) -> bool
        decreases self, 0nat,
    {
        match self {
            LTLExpr::Bool(_) => true,
            LTLExpr::Var(_) => true,
            LTLExpr::Boolean(b) => b.is_state_formula(),
            LTLExpr::Modal(m) => m.is_state_formula(),
        }
    }

    /// Whether every release operator of the expression (`Release` and `StrongRelease`)
    /// releases on an operand that only reads the first state.
    pub open spec fn releases_on_states(self) -> bool
        decreases self, 0nat,
    {
        match self {
            LTLExpr::Bool(_) => true,
            LTLExpr::Var(_) => true,
            LTLExpr::Boolean(b) => b.releases_on_states(),
            LTLExpr::Modal(m) => m.releases_on_states(),
        }
    }
}

impl LTLBoolean {
    /// See [`LTLExpr::is_state_formula`].
    pub open spec fn is_state_formula(self) -> bool
        decreases self, 0nat,
    {
        match self {
            LTLBoolean::Not(a) => a.is_state_formula(),
            LTLBoolean::Or(v) => forall|j: int| 0 <= j < v.len() ==> (#[trigger] v[j]).is_state_formula(),
            LTLBoolean::And(v) => forall|j: int| 0 <= j < v.len() ==> (#[trigger] v[j]).is_state_formula(),
            LTLBoolean::Xor(a, b) => a.is_state_formula() && b.is_state_formula(),
            LTLBoolean::Implies(a, b) => a.is_state_formula() && b.is_state_formula(),
            LTLBoolean::Iff(a, b) => a.is_state_formula() && b.is_state_formula(),
        }
    }

    /// See [`LTLExpr::releases_on_states`].
    pub open spec fn releases_on_states(self) -> bool
        decreases self, 0nat,
    {
        match self {
            LTLBoolean::Not(a) => a.releases_on_states(),
            LTLBoolean::Or(v) => forall|j: int| 0 <= j < v.len() ==> (#[trigger] v[j]).releases_on_states(),
            LTLBoolean::And(v) => forall|j: int| 0 <= j < v.len() ==> (#[trigger] v[j]).releases_on_states(),
            LTLBoolean::Xor(a, b) => a.releases_on_states() && b.releases_on_states(),
            LTLBoolean::Implies(a, b) => a.releases_on_states() && b.releases_on_states(),
            LTLBoolean::Iff(a, b) => a.releases_on_states() && b.releases_on_states(),
        }
    }
}

impl LTLModal {
    /// See [`LTLExpr::is_state_formula`].
    pub open spec fn is_state_formula(self) -> bool
        decreases self, 0nat,
    {
        match self {
            LTLModal::Now(a) => a.is_state_formula(),
            _ => false,
        }
    }

    /// See [`LTLExpr::releases_on_states`].
    pub open spec fn releases_on_states(self) -> bool
        decreases self, 0nat,
    {
        match self {
            LTLModal::Now(a) => a.releases_on_states(),
            LTLModal::Next(a) => a.releases_on_states(),
            LTLModal::Finally(a) => a.releases_on_states(),
            LTLModal::Globally(a) => a.releases_on_states(),
            LTLModal::Until(a, b) => a.releases_on_states() && b.releases_on_states(),
            LTLModal::WeakUntil(a, b) => a.releases_on_states() && b.releases_on_states(),
            LTLModal::Release(a, b) => a.is_state_formula() && a.releases_on_states()
                && b.releases_on_states(),
            LTLModal::StrongRelease(a, b) => a.is_state_formula() && a.releases_on_states()
                && b.releases_on_states(),
        }
    }
}

/// Extending a history keeps its states after the first.
proof fn lemma_skip_concat(s: Seq<Seq<bool>>, t: Seq<Seq<bool>>)
    requires
        s.len() > 0,
    ensures
        (s + t).skip(1) == s.skip(1) + t,
        (s + t)[0] == s[0],
{
    assert((s + t).skip(1) =~= s.skip(1) + t);
}

/// An expression that only reads the first state is decided on every history that is not empty.
pub proof fn lemma_state_formula_decided(x: LTLExpr, s: Seq<Seq<bool>>)
    requires
        x.is_state_formula(),
        s.len() > 0,
    ensures
        x.eval(s) != LTLResult::U,
    decreases x, 0nat,
{
    match x {
        LTLExpr::Boolean(b) => lemma_state_boolean_decided(b, s),
        LTLExpr::Modal(m) => {
            lemma_state_formula_decided(*m->Now_0, s);
        },
        _ => {},
    }
}

/// See [`lemma_state_formula_decided`].
pub proof fn lemma_state_boolean_decided(b: LTLBoolean, s: Seq<Seq<bool>>)
    requires
        b.is_state_formula(),
        s.len() > 0,
    ensures
        b.eval(s) != LTLResult::U,
    decreases b, 0nat,
{
    match b {
        LTLBoolean::Not(a) => lemma_state_formula_decided(*a, s),
        LTLBoolean::Or(v) => {
            assert forall|j: int| 0 <= j < v.len() implies (#[trigger] v[j]).eval(s) != LTLResult::U by {
                lemma_state_formula_decided(*v[j], s);
            }
        },
        LTLBoolean::And(v) => {
            assert forall|j: int| 0 <= j < v.len() implies (#[trigger] v[j]).eval(s) != LTLResult::U by {
                lemma_state_formula_decided(*v[j], s);
            }
            if !(forall|j: int| 0 <= j < v.len() ==> (#[trigger] v[j]).eval(s) == LTLResult::T) {
                let j = choose|j: int| 0 <= j < v.len() && (#[trigger] v[j]).eval(s) != LTLResult::T;
                let m = first_not_true(v@, s, j);
                assert(v[m].eval(s) == LTLResult::F);
            }
        },
        LTLBoolean::Xor(a, c) => {
            lemma_state_formula_decided(*a, s);
            lemma_state_formula_decided(*c, s);
        },
        LTLBoolean::Implies(a, c) => {
            lemma_state_formula_decided(*a, s);
            lemma_state_formula_decided(*c, s);
        },
        LTLBoolean::Iff(a, c) => {
            lemma_state_formula_decided(*a, s);
            lemma_state_formula_decided(*c, s);
        },
    }
}

/// The first operand, up to `j`, that is not true.
proof fn first_not_true(v: Seq<Box<LTLExpr>>, s: Seq<Seq<bool>>, j: int) -> (m: int)
    requires
        0 <= j < v.len(),
        v[j].eval(s) != LTLResult::T,
    ensures
        0 <= m <= j,
        v[m].eval(s) != LTLResult::T,
        forall|k: int| 0 <= k < m ==> (#[trigger] v[k]).eval(s) == LTLResult::T,
    decreases j,
{
    if exists|k: int| 0 <= k < j && (#[trigger] v[k]).eval(s) != LTLResult::T {
        let k = choose|k: int| 0 <= k < j && (#[trigger] v[k]).eval(s) != LTLResult::T;
        first_not_true(v, s, k)
    } else {
        j
    }
}

/// Whether something holds eventually is never false before the history is finished.
proof fn lemma_eventually_not_false(m: LTLModal, s: Seq<Seq<bool>>)
    requires
        m is Finally,
    ensures
        m.eval(s) != LTLResult::F,
    decreases s.len(),
{
    if s.len() > 0 {
        lemma_eventually_not_false(m, s.skip(1));
    }
}

/// Whether something holds globally is never true before the history is finished.
proof fn lemma_globally_not_true(m: LTLModal, s: Seq<Seq<bool>>)
    requires
        m is Globally,
    ensures
        m.eval(s) != LTLResult::T,
    decreases s.len(),
{
    if s.len() > 0 {
        lemma_globally_not_true(m, s.skip(1));
    }
}

/// A decided partial result of an expression is its result on every finished history that
/// starts with the states seen so far: true means that the expression holds there, false that
/// it does not. This holds where every release operator releases on an operand that only reads
/// the first state, and the history is not empty if the expression reads a state directly.
pub proof fn lemma_partial_is_final(x: LTLExpr, s: Seq<Seq<bool>>, t: Seq<Seq<bool>>)
    requires
        x.releases_on_states(),
        s.len() > 0 || !x.reads_now(),
    ensures
        x.eval(s) == LTLResult::T ==> x.holds(s + t),
        x.eval(s) == LTLResult::F ==> !x.holds(s + t),
    decreases x, s.len(),
{
    match x {
        LTLExpr::Bool(_) => {},
        LTLExpr::Var(_) => {
            lemma_skip_concat(s, t);
        },
        LTLExpr::Boolean(b) => lemma_boolean_partial_is_final(b, s, t),
        LTLExpr::Modal(m) => lemma_modal_partial_is_final(m, s, t),
    }
}

/// See [`lemma_partial_is_final`].
pub proof fn lemma_boolean_partial_is_final(b: LTLBoolean, s: Seq<Seq<bool>>, t: Seq<Seq<bool>>)
    requires
        b.releases_on_states(),
        s.len() > 0 || !b.reads_now(),
    ensures
        b.eval(s) == LTLResult::T ==> b.holds(s + t),
        b.eval(s) == LTLResult::F ==> !b.holds(s + t),
    decreases b, s.len(),
{
    match b {
        LTLBoolean::Not(a) => lemma_partial_is_final(*a, s, t),
        LTLBoolean::Or(v) => {
            assert forall|j: int| 0 <= j < v.len() implies ((#[trigger] v[j]).eval(s) == LTLResult::T
                ==> v[j].holds(s + t)) && (v[j].eval(s) == LTLResult::F ==> !v[j].holds(s + t)) by {
                lemma_partial_is_final(*v[j], s, t);
            }
            if b.eval(s) == LTLResult::T {
                let j = choose|j: int| 0 <= j < v.len() && (#[trigger] v[j]).eval(s) == LTLResult::T;
                assert(v[j].holds(s + t));
            }
            if b.eval(s) == LTLResult::F {
                assert forall|j: int| 0 <= j < v.len() implies !(#[trigger] v[j]).holds(s + t) by {
                    assert(v[j].eval(s) != LTLResult::T);
                    assert(v[j].eval(s) != LTLResult::U);
                }
            }
        },
        LTLBoolean::And(v) => {
            assert forall|j: int| 0 <= j < v.len() implies ((#[trigger] v[j]).eval(s) == LTLResult::T
                ==> v[j].holds(s + t)) && (v[j].eval(s) == LTLResult::F ==> !v[j].holds(s + t)) by {
                lemma_partial_is_final(*v[j], s, t);
            }
            if b.eval(s) == LTLResult::F {
                let j = choose|j: int|
                    0 <= j < v.len() && (#[trigger] v[j]).eval(s) == LTLResult::F && forall|k: int|
                        0 <= k < j ==> (#[trigger] v[k]).eval(s) == LTLResult::T;
                assert(!v[j].holds(s + t));
            }
        },
        LTLBoolean::Xor(a, c) => {
            lemma_partial_is_final(*a, s, t);
            lemma_partial_is_final(*c, s, t);
        },
        LTLBoolean::Implies(a, c) => {
            lemma_partial_is_final(*a, s, t);
            lemma_partial_is_final(*c, s, t);
        },
        LTLBoolean::Iff(a, c) => {
            lemma_partial_is_final(*a, s, t);
            lemma_partial_is_final(*c, s, t);
        },
    }
}

/// See [`lemma_partial_is_final`].
pub proof fn lemma_modal_partial_is_final(m: LTLModal, s: Seq<Seq<bool>>, t: Seq<Seq<bool>>)
    requires
        m.releases_on_states(),
        s.len() > 0 || !m.reads_now(),
    ensures
        m.eval(s) == LTLResult::T ==> m.holds(s + t),
        m.eval(s) == LTLResult::F ==> !m.holds(s + t),
    decreases m, s.len(),
{
    if s.len() == 0 {
        match m {
            LTLModal::Now(a) => lemma_partial_is_final(*a, s, t),
            _ => {},
        }
    } else {
        lemma_skip_concat(s, t);
        let rest = s.skip(1);
        match m {
            LTLModal::Now(a) => lemma_partial_is_final(*a, s, t),
            LTLModal::Next(a) => {
                if s.len() >= 2 {
                    lemma_partial_is_final(*a, rest, t);
                }
            },
            LTLModal::Finally(a) => {
                lemma_partial_is_final(*a, s, t);
                lemma_modal_partial_is_final(m, rest, t);
                lemma_eventually_not_false(m, s);
            },
            LTLModal::Globally(a) => {
                lemma_partial_is_final(*a, s, t);
                lemma_modal_partial_is_final(m, rest, t);
                lemma_globally_not_true(m, s);
            },
            LTLModal::Until(psi, phi) => {
                lemma_partial_is_final(*psi, s, t);
                lemma_partial_is_final(*phi, s, t);
                lemma_modal_partial_is_final(m, rest, t);
            },
            LTLModal::WeakUntil(psi, phi) => {
                lemma_partial_is_final(*psi, s, t);
                lemma_partial_is_final(*phi, s, t);
                lemma_modal_partial_is_final(m, rest, t);
            },
            LTLModal::Release(psi, phi) => {
                lemma_partial_is_final(*psi, s, t);
                lemma_partial_is_final(*phi, s, t);
                lemma_state_formula_decided(*psi, s);
                lemma_modal_partial_is_final(m, rest, t);
            },
            LTLModal::StrongRelease(psi, phi) => {
                lemma_partial_is_final(*psi, s, t);
                lemma_partial_is_final(*phi, s, t);
                lemma_state_formula_decided(*psi, s);
                lemma_modal_partial_is_final(m, rest, t);
            },
        }
    }
}

} // verus!
