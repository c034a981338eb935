//! # Linear Temporal Logic
//!
//! Expressions of linear temporal logic over a finite sequence of states. Every state is a vector
//! of booleans, one for each propositional variable. An expression can be checked on a finished
//! sequence (`check`), or evaluated on a sequence that may still be extended (`partial`).
use vstd::prelude::*;
pub use crate::hard_policies::ltl_result::{LTLResult, res_of, res_and, res_or, res_xor, res_not};

verus! {

/// The abstract view of a history: one sequence of booleans per state.
pub open spec fn hist_of(h: Seq<Vec<bool>>) -> Seq<Seq<bool>> {
    h.map_values(|r: Vec<bool>| r@)
}

/// # Operators of LTL
///
/// An operator may either be a constant, a propositional variable (given by its index into each
/// state of the history), a boolean operator or a temporal modal operator.
#[derive(Debug)]
pub enum LTLExpr {
    /// Constant truth value
    Bool(bool),
    /// Propositional variable
    Var(usize),
    /// Boolean operator
    Boolean(LTLBoolean),
    /// Temporal modal operator
    Modal(LTLModal),
}

/// # Boolean operator of LTL
#[derive(Debug)]
pub enum LTLBoolean {
    /// Not: $\neg \phi$
    Not(Box<LTLExpr>),
    /// Or: $\phi \lor \psi$
    Or(Vec<Box<LTLExpr>>),
    /// And: $\phi \land \psi$
    And(Vec<Box<LTLExpr>>),
    /// Xor: $\phi \oplus \psi$
    Xor(Box<LTLExpr>, Box<LTLExpr>),
    /// Implies: $\phi \rightarrow \psi = \neg \phi \lor \psi$
    Implies(Box<LTLExpr>, Box<LTLExpr>),
    /// Iff: $\phi \iff \psi = \neg (\phi \oplus \psi)$
    Iff(Box<LTLExpr>, Box<LTLExpr>),
}

/// Temporal modal operators of LTL. In the last state of a finished history, nothing changes
/// anymore: every propositional variable keeps its value forever.
#[derive(Debug)]
pub enum LTLModal {
    /// $\phi$: $\phi$ holds at the current state.
    Now(Box<LTLExpr>),
    /// $\mathbf{X}\ \phi$: $\phi$ holds at the next state (at the current one, if it is the last).
    Next(Box<LTLExpr>),
    /// $\mathbf{F}\ \phi$: $\phi$ needs to hold eventually (once)
    Finally(Box<LTLExpr>),
    /// $\mathbf{G}\ \phi$: $\phi$ needs to hold in the current and every future state
    Globally(Box<LTLExpr>),
    /// $\psi\ \mathbf{U}\ \phi$: $\psi$ holds until $\phi$ holds, which must happen eventually.
    Until(Box<LTLExpr>, Box<LTLExpr>),
    /// $\psi\ \mathbf{R}\ \phi$: $\phi$ holds until and including the point where $\psi$ first
    /// holds. If $\psi$ never holds, then $\phi$ must hold forever.
    Release(Box<LTLExpr>, Box<LTLExpr>),
    /// $\psi\ \mathbf{W}\ \phi$: $\psi$ holds until $\phi$ holds. If $\phi$ never holds, $\psi$
    /// must hold forever.
    WeakUntil(Box<LTLExpr>, Box<LTLExpr>),
    /// $\psi\ \mathbf{M}\ \phi$: $\phi$ holds until and including the point where $\psi$ first
    /// holds, and $\psi$ must hold eventually.
    StrongRelease(Box<LTLExpr>, Box<LTLExpr>),
}

impl LTLExpr {
    /// Whether every propositional variable of the expression is an index below `w`.
    pub open spec fn vars_below(self, w: nat) -> bool
        decreases self, 0nat,
    {
        match self {
            LTLExpr::Bool(_) => true,
            LTLExpr::Var(i) => i < w,
            LTLExpr::Boolean(b) => b.vars_below(w),
            LTLExpr::Modal(m) => m.vars_below(w),
        }
    }

    /// Whether evaluating the expression reads the first state of the history directly, without
    /// first passing through a temporal operator that iterates over the states.
    pub open spec fn reads_now(self) -> bool
        decreases self, 0nat,
    {
        match self {
            LTLExpr::Bool(_) => false,
            LTLExpr::Var(_) => true,
            LTLExpr::Boolean(b) => b.reads_now(),
            LTLExpr::Modal(m) => m.reads_now(),
        }
    }

    /// Every state of the history has an entry for each variable of the expression.
    pub open spec fn rows_fit(self, s: Seq<Seq<bool>>) -> bool {
        forall|i: int| 0 <= i < s.len() ==> self.vars_below(#[trigger] s[i].len())
    }

    /// The expression can be evaluated on the history: every state has an entry for each of its
    /// variables, and an empty history is only given to expressions that do not read a state.
    pub open spec fn fits(self, s: Seq<Seq<bool>>) -> bool {
        &&& self.rows_fit(s)
        &&& (s.len() == 0 ==> !self.reads_now())
    }

    /// Whether the expression holds on the finished history `s`.
    pub open spec fn holds(self, s: Seq<Seq<bool>>) -> bool
        decreases self, s.len(),
    {
        match self {
            LTLExpr::Bool(b) => b,
            LTLExpr::Var(i) => s[0][i as int],
            LTLExpr::Boolean(b) => b.holds(s),
            LTLExpr::Modal(m) => m.holds(s),
        }
    }

    /// The result of the expression on the history `s`, which may still be extended.
    pub open spec fn eval(self, s: Seq<Seq<bool>>) -> LTLResult
        decreases self, s.len(),
    {
        match self {
            LTLExpr::Bool(b) => res_of(b),
            LTLExpr::Var(i) => res_of(s[0][i as int]),
            LTLExpr::Boolean(b) => b.eval(s),
            LTLExpr::Modal(m) => m.eval(s),
        }
    }

    /// Whether the variable `x` belongs to the watch of the expression on the finished history
    /// `s`: the variables whose change may change the result of `holds`.
    pub open spec fn watches(self, s: Seq<Seq<bool>>, x: usize) -> bool
        decreases self, s.len(),
    {
        match self {
            LTLExpr::Bool(_) => false,
            LTLExpr::Var(i) => x == i,
            LTLExpr::Boolean(b) => b.watches(s, x),
            LTLExpr::Modal(m) => m.watches(s, x),
        }
    }
}

impl LTLBoolean {
    /// Whether every propositional variable of the expression is an index below `w`.
    pub open spec fn vars_below(self, w: nat) -> bool
        decreases self, 0nat,
    {
        match self {
            LTLBoolean::Not(a) => a.vars_below(w),
            LTLBoolean::Or(v) => forall|j: int| 0 <= j < v.len() ==> (#[trigger] v[j]).vars_below(w),
            LTLBoolean::And(v) => forall|j: int| 0 <= j < v.len() ==> (#[trigger] v[j]).vars_below(w),
            LTLBoolean::Xor(a, b) => a.vars_below(w) && b.vars_below(w),
            LTLBoolean::Implies(a, b) => a.vars_below(w) && b.vars_below(w),
            LTLBoolean::Iff(a, b) => a.vars_below(w) && b.vars_below(w),
        }
    }

    /// See [`LTLExpr::rows_fit`].
    pub open spec fn rows_fit(self, s: Seq<Seq<bool>>) -> bool {
        forall|i: int| 0 <= i < s.len() ==> self.vars_below(#[trigger] s[i].len())
    }

    /// See [`LTLExpr::fits`].
    pub open spec fn fits(self, s: Seq<Seq<bool>>) -> bool {
        &&& self.rows_fit(s)
        &&& (s.len() == 0 ==> !self.reads_now())
    }

    /// See [`LTLExpr::reads_now`].
    pub open spec fn reads_now(self) -> bool
        decreases self, 0nat,
    {
        match self {
            LTLBoolean::Not(a) => a.reads_now(),
            LTLBoolean::Or(v) => exists|j: int| 0 <= j < v.len() && (#[trigger] v[j]).reads_now(),
            LTLBoolean::And(v) => exists|j: int| 0 <= j < v.len() && (#[trigger] v[j]).reads_now(),
            LTLBoolean::Xor(a, b) => a.reads_now() || b.reads_now(),
            LTLBoolean::Implies(a, b) => a.reads_now() || b.reads_now(),
            LTLBoolean::Iff(a, b) => a.reads_now() || b.reads_now(),
        }
    }

    /// Whether the expression holds on the finished history `s`.
    pub open spec fn holds(self, s: Seq<Seq<bool>>) -> bool
        decreases self, s.len(),
    {
        match self {
            LTLBoolean::Not(a) => !a.holds(s),
            LTLBoolean::Or(v) => exists|j: int| 0 <= j < v.len() && (#[trigger] v[j]).holds(s),
            LTLBoolean::And(v) => forall|j: int| 0 <= j < v.len() ==> (#[trigger] v[j]).holds(s),
            LTLBoolean::Xor(a, b) => a.holds(s) != b.holds(s),
            LTLBoolean::Implies(a, b) => !a.holds(s) || b.holds(s),
            LTLBoolean::Iff(a, b) => a.holds(s) == b.holds(s),
        }
    }

    /// The result of the expression on the history `s`, which may still be extended. A
    /// disjunction is true as soon as one operand is, a conjunction takes the result of its first
    /// operand that is not true.
    pub open spec fn eval(self, s: Seq<Seq<bool>>) -> LTLResult
        decreases self, s.len(),
    {
        match self {
            LTLBoolean::Not(a) => res_not(a.eval(s)),
            LTLBoolean::Or(v) => if exists|j: int|
                0 <= j < v.len() && (#[trigger] v[j]).eval(s) == LTLResult::T {
                LTLResult::T
            } else if exists|j: int| 0 <= j < v.len() && (#[trigger] v[j]).eval(s) == LTLResult::U {
                LTLResult::U
            } else {
                LTLResult::F
            },
            LTLBoolean::And(v) => if forall|j: int|
                0 <= j < v.len() ==> (#[trigger] v[j]).eval(s) == LTLResult::T {
                LTLResult::T
            } else if exists|j: int|
                0 <= j < v.len() && (#[trigger] v[j]).eval(s) == LTLResult::F && forall|k: int|
                    0 <= k < j ==> (#[trigger] v[k]).eval(s) == LTLResult::T {
                LTLResult::F
            } else {
                LTLResult::U
            },
            LTLBoolean::Xor(a, b) => res_xor(a.eval(s), b.eval(s)),
            LTLBoolean::Implies(a, b) => res_or(res_not(a.eval(s)), b.eval(s)),
            LTLBoolean::Iff(a, b) => res_not(res_xor(a.eval(s), b.eval(s))),
        }
    }

    /// Whether the variable `x` belongs to the watch of the expression on the finished history
    /// `s`. A true disjunction watches its true operands, a false one all operands; a true
    /// conjunction watches all operands, a false one its false operands. An implication is
    /// watched as the disjunction of the negated premise and the conclusion.
    pub open spec fn watches(self, s: Seq<Seq<bool>>, x: usize) -> bool
        decreases self, s.len(),
    {
        match self {
            LTLBoolean::Not(a) => a.watches(s, x),
            LTLBoolean::Or(v) => if self.holds(s) {
                exists|j: int| 0 <= j < v.len() && v[j].holds(s) && (#[trigger] v[j]).watches(s, x)
            } else {
                exists|j: int| 0 <= j < v.len() && (#[trigger] v[j]).watches(s, x)
            },
            LTLBoolean::And(v) => if self.holds(s) {
                exists|j: int| 0 <= j < v.len() && (#[trigger] v[j]).watches(s, x)
            } else {
                exists|j: int| 0 <= j < v.len() && !v[j].holds(s) && (#[trigger] v[j]).watches(s, x)
            },
            LTLBoolean::Xor(a, b) => a.watches(s, x) || b.watches(s, x),
            LTLBoolean::Implies(a, b) => if !a.holds(s) || b.holds(s) {
                (!a.holds(s) && a.watches(s, x)) || (b.holds(s) && b.watches(s, x))
            } else {
                a.watches(s, x) || b.watches(s, x)
            },
            LTLBoolean::Iff(a, b) => a.watches(s, x) || b.watches(s, x),
        }
    }
}

impl LTLModal {
    /// The two operands `(psi, phi)` of a binary temporal operator.
    pub open spec fn operands(self) -> (LTLExpr, LTLExpr)
        recommends
            !(self is Now || self is Next || self is Finally || self is Globally),
    {
        match self {
            LTLModal::Until(psi, phi) => (*psi, *phi),
            LTLModal::Release(psi, phi) => (*psi, *phi),
            LTLModal::WeakUntil(psi, phi) => (*psi, *phi),
            LTLModal::StrongRelease(psi, phi) => (*psi, *phi),
            LTLModal::Now(phi) => (*phi, *phi),
            LTLModal::Next(phi) => (*phi, *phi),
            LTLModal::Finally(phi) => (*phi, *phi),
            LTLModal::Globally(phi) => (*phi, *phi),
        }
    }

    /// Whether every propositional variable of the expression is an index below `w`.
    pub open spec fn vars_below(self, w: nat) -> bool
        decreases self, 0nat,
    {
        match self {
            LTLModal::Now(a) => a.vars_below(w),
            LTLModal::Next(a) => a.vars_below(w),
            LTLModal::Finally(a) => a.vars_below(w),
            LTLModal::Globally(a) => a.vars_below(w),
            LTLModal::Until(a, b) => a.vars_below(w) && b.vars_below(w),
            LTLModal::Release(a, b) => a.vars_below(w) && b.vars_below(w),
            LTLModal::WeakUntil(a, b) => a.vars_below(w) && b.vars_below(w),
            LTLModal::StrongRelease(a, b) => a.vars_below(w) && b.vars_below(w),
        }
    }

    /// See [`LTLExpr::rows_fit`].
    pub open spec fn rows_fit(self, s: Seq<Seq<bool>>) -> bool {
        forall|i: int| 0 <= i < s.len() ==> self.vars_below(#[trigger] s[i].len())
    }

    /// See [`LTLExpr::fits`].
    pub open spec fn fits(self, s: Seq<Seq<bool>>) -> bool {
        &&& self.rows_fit(s)
        &&& (s.len() == 0 ==> !self.reads_now())
    }

    /// See [`LTLExpr::reads_now`].
    pub open spec fn reads_now(self) -> bool
        decreases self, 0nat,
    {
        match self {
            LTLModal::Now(a) => a.reads_now(),
            LTLModal::Next(a) => a.reads_now(),
            _ => false,
        }
    }

    /// Whether the expression holds on the finished history `s`. The temporal operators are
    /// given by their expansion laws over the first state and the rest of the history.
    pub open spec fn holds(self, s: Seq<Seq<bool>>) -> bool
        decreases self, s.len(),
    {
        match self {
            LTLModal::Now(phi) => phi.holds(s),
            LTLModal::Next(phi) => if s.len() >= 2 {
                phi.holds(s.skip(1))
            } else {
                phi.holds(s)
            },
            LTLModal::Finally(phi) => s.len() > 0 && (phi.holds(s) || self.holds(s.skip(1))),
            LTLModal::Globally(phi) => s.len() == 0 || (phi.holds(s) && self.holds(s.skip(1))),
            LTLModal::Until(psi, phi) => s.len() > 0 && (phi.holds(s) || (psi.holds(s)
                && self.holds(s.skip(1)))),
            LTLModal::WeakUntil(psi, phi) => s.len() == 0 || phi.holds(s) || (psi.holds(s)
                && self.holds(s.skip(1))),
            LTLModal::Release(psi, phi) => s.len() == 0 || (phi.holds(s) && (psi.holds(s)
                || self.holds(s.skip(1)))),
            LTLModal::StrongRelease(psi, phi) => s.len() > 0 && phi.holds(s) && (psi.holds(s)
                || self.holds(s.skip(1))),
        }
    }

    /// The result of the expression on the history `s`, which may still be extended: a
    /// temporal operator is only decided once a state decides it.
    pub open spec fn eval(self, s: Seq<Seq<bool>>) -> LTLResult
        decreases self, s.len(),
    {
        match self {
            LTLModal::Now(phi) => phi.eval(s),
            LTLModal::Next(phi) => if s.len() >= 2 {
                phi.eval(s.skip(1))
            } else {
                LTLResult::U
            },
            LTLModal::Finally(phi) => if s.len() == 0 {
                LTLResult::U
            } else if phi.eval(s) == LTLResult::T {
                LTLResult::T
            } else {
                self.eval(s.skip(1))
            },
            LTLModal::Globally(phi) => if s.len() == 0 {
                LTLResult::U
            } else if phi.eval(s) == LTLResult::F {
                LTLResult::F
            } else {
                self.eval(s.skip(1))
            },
            LTLModal::Until(psi, phi) | LTLModal::WeakUntil(psi, phi) => if s.len() == 0 {
                LTLResult::U
            } else {
                match phi.eval(s) {
                    LTLResult::T => LTLResult::T,
                    LTLResult::U => LTLResult::U,
                    LTLResult::F => match psi.eval(s) {
                        LTLResult::F => LTLResult::F,
                        LTLResult::U => LTLResult::U,
                        LTLResult::T => self.eval(s.skip(1)),
                    },
                }
            },
            LTLModal::Release(psi, phi) | LTLModal::StrongRelease(psi, phi) => if s.len() == 0 {
                LTLResult::U
            } else {
                match phi.eval(s) {
                    LTLResult::U => LTLResult::U,
                    LTLResult::F => LTLResult::F,
                    LTLResult::T => if psi.eval(s) == LTLResult::T {
                        LTLResult::T
                    } else {
                        self.eval(s.skip(1))
                    },
                }
            },
        }
    }

    /// Whether the variable `x` belongs to the watch of the expression on the finished history
    /// `s`. A true operator watches the states that make it true, a false one the states that
    /// make it false:
    ///
    /// - `Finally` is watched like a disjunction, `Globally` like a conjunction over all states.
    /// - A true `Until` (or `WeakUntil`) watches `psi` at every state before `phi` first holds,
    ///   and `phi` at every state where it holds, up to and including the first state where `psi`
    ///   fails.
    /// - A true `Release` (or `StrongRelease`) watches `phi` at every state up to and including
    ///   the first state where `psi` holds, and `psi` at every state where it holds, before the
    ///   first state where `phi` fails.
    /// - A false binary operator watches both operands at every state where they fail.
    pub open spec fn watches(self, s: Seq<Seq<bool>>, x: usize) -> bool
        decreases self, s.len(),
    {
        match self {
            LTLModal::Now(phi) => phi.watches(s, x),
            LTLModal::Next(phi) => if s.len() >= 2 {
                phi.watches(s.skip(1), x)
            } else {
                phi.watches(s, x)
            },
            LTLModal::Finally(phi) => if self.holds(s) {
                exists|i: int| #![trigger s.skip(i)] 0 <= i < s.len() && phi.holds(s.skip(i)) && phi.watches(s.skip(i), x)
            } else {
                exists|i: int| #![trigger s.skip(i)] 0 <= i < s.len() && phi.watches(s.skip(i), x)
            },
            LTLModal::Globally(phi) => if self.holds(s) {
                exists|i: int| #![trigger s.skip(i)] 0 <= i < s.len() && phi.watches(s.skip(i), x)
            } else {
                exists|i: int| #![trigger s.skip(i)] 0 <= i < s.len() && !phi.holds(s.skip(i)) && phi.watches(s.skip(i), x)
            },
            LTLModal::Until(psi, phi) | LTLModal::WeakUntil(psi, phi) => if self.holds(s) {
                (exists|i: int| #![trigger s.skip(i)]
                    0 <= i < s.len() && (forall|k: int| 0 <= k <= i ==> !phi.holds(#[trigger] s.skip(k)))
                        && psi.watches(s.skip(i), x)) || (exists|i: int| #![trigger s.skip(i)]
                    0 <= i < s.len() && (forall|k: int| 0 <= k < i ==> psi.holds(#[trigger] s.skip(k)))
                        && phi.holds(s.skip(i)) && phi.watches(s.skip(i), x))
            } else {
                (exists|i: int| #![trigger s.skip(i)] 0 <= i < s.len() && !psi.holds(s.skip(i)) && psi.watches(s.skip(i), x))
                    || (exists|i: int| #![trigger s.skip(i)] 0 <= i < s.len() && !phi.holds(s.skip(i)) && phi.watches(s.skip(i), x))
            },
            LTLModal::Release(psi, phi) | LTLModal::StrongRelease(psi, phi) => if self.holds(s) {
                (exists|i: int| #![trigger s.skip(i)]
                    0 <= i < s.len() && (forall|k: int| 0 <= k < i ==> !psi.holds(#[trigger] s.skip(k)))
                        && phi.watches(s.skip(i), x)) || (exists|i: int| #![trigger s.skip(i)]
                    0 <= i < s.len() && (forall|k: int| 0 <= k <= i ==> phi.holds(#[trigger] s.skip(k)))
                        && psi.holds(s.skip(i)) && psi.watches(s.skip(i), x))
            } else {
                (exists|i: int| #![trigger s.skip(i)] 0 <= i < s.len() && !psi.holds(s.skip(i)) && psi.watches(s.skip(i), x))
                    || (exists|i: int| #![trigger s.skip(i)] 0 <= i < s.len() && !phi.holds(s.skip(i)) && phi.watches(s.skip(i), x))
            },
        }
    }
}

broadcast use vstd::std_specs::vec::axiom_vec_index_decreases;

/// `Finally(phi)` holds on a finished history exactly where `phi` holds on some suffix of it.
pub proof fn lemma_finally_exists(phi: LTLExpr, s: Seq<Seq<bool>>)
    ensures
        LTLModal::Finally(Box::new(phi)).holds(s) <==> exists|j: int|
            #![trigger s.skip(j)]
            0 <= j < s.len() && phi.holds(s.skip(j)),
    decreases s.len(),
{
    let f = LTLModal::Finally(Box::new(phi));
    if s.len() > 0 {
        lemma_finally_exists(phi, s.skip(1));
        assert(s.skip(0) =~= s);
        if f.holds(s) && !phi.holds(s) {
            let j = choose|j: int| #![trigger s.skip(1).skip(j)] 0 <= j < s.skip(1).len() && phi.holds(s.skip(1).skip(j));
            assert(s.skip(1).skip(j) =~= s.skip(j + 1));
        }
        if exists|j: int| #![trigger s.skip(j)] 0 <= j < s.len() && phi.holds(s.skip(j)) {
            let j = choose|j: int| #![trigger s.skip(j)] 0 <= j < s.len() && phi.holds(s.skip(j));
            if j > 0 {
                assert(s.skip(1).skip(j - 1) =~= s.skip(j));
            }
        }
    }
}

/// `Globally(phi)` holds on a finished history exactly where `phi` holds on every suffix of it.
pub proof fn lemma_globally_forall(phi: LTLExpr, s: Seq<Seq<bool>>)
    ensures
        LTLModal::Globally(Box::new(phi)).holds(s) <==> forall|i: int|
            0 <= i < s.len() ==> phi.holds(#[trigger] s.skip(i)),
    decreases s.len(),
{
    let g = LTLModal::Globally(Box::new(phi));
    if s.len() > 0 {
        lemma_globally_forall(phi, s.skip(1));
        assert(s.skip(0) =~= s);
        if g.holds(s) {
            assert forall|i: int| 0 <= i < s.len() implies phi.holds(#[trigger] s.skip(i)) by {
                if i > 0 {
                    assert(s.skip(1).skip(i - 1) =~= s.skip(i));
                }
            }
        }
        if forall|i: int| 0 <= i < s.len() ==> phi.holds(#[trigger] s.skip(i)) {
            assert forall|i: int| 0 <= i < s.skip(1).len() implies phi.holds(#[trigger] s.skip(1).skip(i)) by {
                assert(s.skip(1).skip(i) =~= s.skip(i + 1));
            }
        }
    }
}

/// `Until(psi, phi)` holds on a finished history exactly where `phi` holds on some suffix of it
/// and `psi` on every longer suffix.
pub proof fn lemma_until_exists(psi: LTLExpr, phi: LTLExpr, s: Seq<Seq<bool>>)
    ensures
        LTLModal::Until(Box::new(psi), Box::new(phi)).holds(s) <==> exists|j: int|
            #![trigger s.skip(j)]
            0 <= j < s.len() && phi.holds(s.skip(j)) && forall|i: int| 0 <= i < j ==> psi.holds(#[trigger] s.skip(i)),
    decreases s.len(),
{
    let u = LTLModal::Until(Box::new(psi), Box::new(phi));
    if s.len() > 0 {
        lemma_until_exists(psi, phi, s.skip(1));
        assert(s.skip(0) =~= s);
        if u.holds(s) && !phi.holds(s) {
            let t = s.skip(1);
            let j = choose|j: int|
                #![trigger t.skip(j)]
                0 <= j < t.len() && phi.holds(t.skip(j)) && forall|i: int| 0 <= i < j ==> psi.holds(#[trigger] t.skip(i));
            assert(t.skip(j) =~= s.skip(j + 1));
            assert forall|i: int| 0 <= i < j + 1 implies psi.holds(#[trigger] s.skip(i)) by {
                if i > 0 {
                    assert(t.skip(i - 1) =~= s.skip(i));
                }
            }
        }
        if exists|j: int|
            #![trigger s.skip(j)]
            0 <= j < s.len() && phi.holds(s.skip(j)) && forall|i: int| 0 <= i < j ==> psi.holds(#[trigger] s.skip(i)) {
            let j = choose|j: int|
                #![trigger s.skip(j)]
                0 <= j < s.len() && phi.holds(s.skip(j)) && forall|i: int| 0 <= i < j ==> psi.holds(#[trigger] s.skip(i));
            if j > 0 {
                let t = s.skip(1);
                assert(psi.holds(s.skip(0)));
                assert(t.skip(j - 1) =~= s.skip(j));
                assert forall|i: int| 0 <= i < j - 1 implies psi.holds(#[trigger] t.skip(i)) by {
                    assert(t.skip(i) =~= s.skip(i + 1));
                }
            }
        }
    }
}

/// `WeakUntil(psi, phi)` holds on a finished history exactly where `Until(psi, phi)` holds or
/// `psi` holds on every suffix of it.
pub proof fn lemma_weak_until(psi: LTLExpr, phi: LTLExpr, s: Seq<Seq<bool>>)
    ensures
        LTLModal::WeakUntil(Box::new(psi), Box::new(phi)).holds(s) <==> (LTLModal::Until(
            Box::new(psi),
            Box::new(phi),
        ).holds(s) || forall|i: int| 0 <= i < s.len() ==> psi.holds(#[trigger] s.skip(i))),
    decreases s.len(),
{
    let w = LTLModal::WeakUntil(Box::new(psi), Box::new(phi));
    let u = LTLModal::Until(Box::new(psi), Box::new(phi));
    if s.len() > 0 {
        lemma_weak_until(psi, phi, s.skip(1));
        assert(s.skip(0) =~= s);
        let t = s.skip(1);
        assert forall|i: int| 0 <= i < t.len() implies #[trigger] t.skip(i) == s.skip(i + 1) by {
            assert(t.skip(i) =~= s.skip(i + 1));
        }
        if forall|i: int| 0 <= i < s.len() ==> psi.holds(#[trigger] s.skip(i)) {
            assert forall|i: int| 0 <= i < t.len() implies psi.holds(#[trigger] t.skip(i)) by {
                assert(t.skip(i) == s.skip(i + 1));
            }
        }
        if psi.holds(s) && forall|i: int| 0 <= i < t.len() ==> psi.holds(#[trigger] t.skip(i)) {
            assert forall|i: int| 0 <= i < s.len() implies psi.holds(#[trigger] s.skip(i)) by {
                if i > 0 {
                    assert(t.skip(i - 1) == s.skip(i));
                }
            }
        }
    }
}


/// Dropping one more state after the first `i` is dropping `i + 1` states, and the history
/// without its first `i` states starts with state `i`.
pub proof fn lemma_skip_skip(s: Seq<Seq<bool>>, i: int)
    requires
        0 <= i < s.len(),
    ensures
        s.skip(i).skip(1) =~= s.skip(i + 1),
        s.skip(i)[0] == s[i],
{
}

impl LTLExpr {
    /// Checks if the operator holds for the given history. For this, it is assumed that the
    /// sequence is finished.
    pub fn check(&self, history: &[Vec<bool>]) -> (r: bool)
        requires
            self.fits(hist_of(history@)),
        ensures
            r == self.holds(hist_of(history@)),
    {
        proof {
            assert(hist_of(history@).skip(0) =~= hist_of(history@));
        }
        self.check_from(history, 0)
    }

    /// Checks the operator on the history without its first `start` states.
    pub fn check_from(&self, history: &[Vec<bool>], start: usize) -> (r: bool)
        requires
            start <= history@.len(),
            self.fits(hist_of(history@).skip(start as int)),
        ensures
            r == self.holds(hist_of(history@).skip(start as int)),
        decreases self,
    {
        let ghost s = hist_of(history@).skip(start as int);
        match self {
            LTLExpr::Bool(b) => *b,
            LTLExpr::Var(i) => {
                assert(s[0] == history@[start as int]@);
                history[start][*i]
            },
            LTLExpr::Boolean(b) => b.check_from(history, start),
            LTLExpr::Modal(m) => m.check_from(history, start),
        }
    }
}

impl LTLBoolean {
    /// Checks if the operator holds for the given history. For this, it is assumed that the
    /// sequence is finished.
    pub fn check(&self, history: &[Vec<bool>]) -> (r: bool)
        requires
            self.fits(hist_of(history@)),
        ensures
            r == self.holds(hist_of(history@)),
    {
        proof {
            assert(hist_of(history@).skip(0) =~= hist_of(history@));
        }
        self.check_from(history, 0)
    }

    /// Checks the operator on the history without its first `start` states.
    pub fn check_from(&self, history: &[Vec<bool>], start: usize) -> (r: bool)
        requires
            start <= history@.len(),
            self.fits(hist_of(history@).skip(start as int)),
        ensures
            r == self.holds(hist_of(history@).skip(start as int)),
        decreases self,
    {
        let ghost s = hist_of(history@).skip(start as int);
        match self {
            LTLBoolean::Not(a) => !a.check_from(history, start),
            LTLBoolean::Or(v) => {
                let mut j: usize = 0;
                while j < v.len()
                    invariant
                        j <= v.len(),
                        start <= history@.len(),
                        s == hist_of(history@).skip(start as int),
                        self.fits(s),
                        *self == LTLBoolean::Or(*v),
                        forall|k: int| 0 <= k < j ==> !(#[trigger] v[k]).holds(s),
                    decreases v.len() - j,
                {
                    assert forall|k: int| 0 <= k < s.len() implies v[j as int].vars_below(
                        #[trigger] s[k].len(),
                    ) by {
                        reveal_with_fuel(LTLBoolean::vars_below, 2);
                        assert(self.vars_below(s[k].len()));
                        assert(self->Or_0[j as int].vars_below(s[k].len()));
                    }
                    proof {
                        reveal_with_fuel(LTLBoolean::vars_below, 2);
                        assert(decreases_to!(self => self->Or_0));
                        assert(decreases_to!(self->Or_0 => self->Or_0[j as int]));
                    }
                    if v[j].check_from(history, start) {
                        return true;
                    }
                    j += 1;
                }
                false
            },
            LTLBoolean::And(v) => {
                let mut j: usize = 0;
                while j < v.len()
                    invariant
                        j <= v.len(),
                        start <= history@.len(),
                        s == hist_of(history@).skip(start as int),
                        self.fits(s),
                        *self == LTLBoolean::And(*v),
                        forall|k: int| 0 <= k < j ==> (#[trigger] v[k]).holds(s),
                    decreases v.len() - j,
                {
                    assert forall|k: int| 0 <= k < s.len() implies v[j as int].vars_below(
                        #[trigger] s[k].len(),
                    ) by {
                        reveal_with_fuel(LTLBoolean::vars_below, 2);
                        assert(self.vars_below(s[k].len()));
                        assert(self->And_0[j as int].vars_below(s[k].len()));
                    }
                    proof {
                        reveal_with_fuel(LTLBoolean::vars_below, 2);
                        assert(decreases_to!(self => self->And_0));
                        assert(decreases_to!(self->And_0 => self->And_0[j as int]));
                    }
                    if !v[j].check_from(history, start) {
                        return false;
                    }
                    j += 1;
                }
                true
            },
            LTLBoolean::Xor(a, b) => a.check_from(history, start) != b.check_from(history, start),
            LTLBoolean::Implies(a, b) => !a.check_from(history, start) || b.check_from(
                history,
                start,
            ),
            LTLBoolean::Iff(a, b) => a.check_from(history, start) == b.check_from(history, start),
        }
    }
}

impl LTLModal {
    /// Checks if the operator holds for the given history. For this, it is assumed that the
    /// sequence is finished.
    pub fn check(&self, history: &[Vec<bool>]) -> (r: bool)
        requires
            self.fits(hist_of(history@)),
        ensures
            r == self.holds(hist_of(history@)),
    {
        proof {
            assert(hist_of(history@).skip(0) =~= hist_of(history@));
        }
        self.check_from(history, 0)
    }

    /// Checks the operator on the history without its first `start` states.
    pub fn check_from(&self, history: &[Vec<bool>], start: usize) -> (r: bool)
        requires
            start <= history@.len(),
            self.fits(hist_of(history@).skip(start as int)),
        ensures
            r == self.holds(hist_of(history@).skip(start as int)),
        decreases self,
    {
        let ghost full = hist_of(history@);
        let ghost s = full.skip(start as int);
        let n = history.len();
        match self {
            LTLModal::Now(phi) => phi.check_from(history, start),
            LTLModal::Next(phi) => {
                if n - start >= 2 {
                    proof {
                        lemma_skip_skip(full, start as int);
                    }
                    phi.check_from(history, start + 1)
                } else {
                    phi.check_from(history, start)
                }
            },
            LTLModal::Finally(phi) => {
                let mut i = start;
                while i < n
                    invariant
                        start <= i <= n,
                        n == history@.len(),
                        full == hist_of(history@),
                        self.rows_fit(s),
                        s == full.skip(start as int),
                        *self == LTLModal::Finally(*phi),
                        self.holds(full.skip(start as int)) == self.holds(full.skip(i as int)),
                    decreases n - i,
                {
                    proof {
                        lemma_skip_skip(full, i as int);
                        assert forall|k: int| 0 <= k < full.skip(i as int).len() implies
                            self.vars_below(#[trigger] full.skip(i as int)[k].len()) by {
                            assert(full.skip(i as int)[k] == s[k + i - start]);
                        }
                    }
                    if phi.check_from(history, i) {
                        return true;
                    }
                    i += 1;
                }
                false
            },
            LTLModal::Globally(phi) => {
                let mut i = start;
                while i < n
                    invariant
                        start <= i <= n,
                        n == history@.len(),
                        full == hist_of(history@),
                        self.rows_fit(s),
                        s == full.skip(start as int),
                        *self == LTLModal::Globally(*phi),
                        self.holds(full.skip(start as int)) == self.holds(full.skip(i as int)),
                    decreases n - i,
                {
                    proof {
                        lemma_skip_skip(full, i as int);
                        assert forall|k: int| 0 <= k < full.skip(i as int).len() implies
                            self.vars_below(#[trigger] full.skip(i as int)[k].len()) by {
                            assert(full.skip(i as int)[k] == s[k + i - start]);
                        }
                    }
                    if !phi.check_from(history, i) {
                        return false;
                    }
                    i += 1;
                }
                true
            },
            LTLModal::Until(psi, phi) => {
                let mut i = start;
                while i < n
                    invariant
                        start <= i <= n,
                        n == history@.len(),
                        full == hist_of(history@),
                        self.rows_fit(s),
                        s == full.skip(start as int),
                        *self == LTLModal::Until(*psi, *phi),
                        self.holds(full.skip(start as int)) == self.holds(full.skip(i as int)),
                    decreases n - i,
                {
                    proof {
                        lemma_skip_skip(full, i as int);
                        assert forall|k: int| 0 <= k < full.skip(i as int).len() implies
                            self.vars_below(#[trigger] full.skip(i as int)[k].len()) by {
                            assert(full.skip(i as int)[k] == s[k + i - start]);
                        }
                    }
                    if phi.check_from(history, i) {
                        return true;
                    } else if !psi.check_from(history, i) {
                        return false;
                    }
                    i += 1;
                }
                false
            },
            LTLModal::Release(psi, phi) => {
                let mut i = start;
                while i < n
                    invariant
                        start <= i <= n,
                        n == history@.len(),
                        full == hist_of(history@),
                        self.rows_fit(s),
                        s == full.skip(start as int),
                        *self == LTLModal::Release(*psi, *phi),
                        self.holds(full.skip(start as int)) == self.holds(full.skip(i as int)),
                    decreases n - i,
                {
                    proof {
                        lemma_skip_skip(full, i as int);
                        assert forall|k: int| 0 <= k < full.skip(i as int).len() implies
                            self.vars_below(#[trigger] full.skip(i as int)[k].len()) by {
                            assert(full.skip(i as int)[k] == s[k + i - start]);
                        }
                    }
                    if phi.check_from(history, i) {
                        if psi.check_from(history, i) {
                            return true;
                        }
                    } else {
                        return false;
                    }
                    i += 1;
                }
                true
            },
            LTLModal::WeakUntil(psi, phi) => {
                let mut i = start;
                while i < n
                    invariant
                        start <= i <= n,
                        n == history@.len(),
                        full == hist_of(history@),
                        self.rows_fit(s),
                        s == full.skip(start as int),
                        *self == LTLModal::WeakUntil(*psi, *phi),
                        self.holds(full.skip(start as int)) == self.holds(full.skip(i as int)),
                    decreases n - i,
                {
                    proof {
                        lemma_skip_skip(full, i as int);
                        assert forall|k: int| 0 <= k < full.skip(i as int).len() implies
                            self.vars_below(#[trigger] full.skip(i as int)[k].len()) by {
                            assert(full.skip(i as int)[k] == s[k + i - start]);
                        }
                    }
                    if phi.check_from(history, i) {
                        return true;
                    } else if !psi.check_from(history, i) {
                        return false;
                    }
                    i += 1;
                }
                true
            },
            LTLModal::StrongRelease(psi, phi) => {
                let mut i = start;
                while i < n
                    invariant
                        start <= i <= n,
                        n == history@.len(),
                        full == hist_of(history@),
                        self.rows_fit(s),
                        s == full.skip(start as int),
                        *self == LTLModal::StrongRelease(*psi, *phi),
                        self.holds(full.skip(start as int)) == self.holds(full.skip(i as int)),
                    decreases n - i,
                {
                    proof {
                        lemma_skip_skip(full, i as int);
                        assert forall|k: int| 0 <= k < full.skip(i as int).len() implies
                            self.vars_below(#[trigger] full.skip(i as int)[k].len()) by {
                            assert(full.skip(i as int)[k] == s[k + i - start]);
                        }
                    }
                    if phi.check_from(history, i) {
                        if psi.check_from(history, i) {
                            return true;
                        }
                    } else {
                        return false;
                    }
                    i += 1;
                }
                false
            },
        }
    }
}

/// Disjunction of the partial results of all operands: true as soon as one operand is true;
/// otherwise undefined if one operand is undefined; otherwise false.
fn partial_any(v: &Vec<Box<LTLExpr>>, history: &[Vec<bool>], start: usize) -> (r: LTLResult)
    requires
        start <= history@.len(),
        forall|j: int| 0 <= j < v.len() ==> (#[trigger] v[j]).fits(hist_of(history@).skip(start as int)),
    ensures
        r == (if exists|j: int|
            0 <= j < v.len() && (#[trigger] v[j]).eval(hist_of(history@).skip(start as int))
                == LTLResult::T {
            LTLResult::T
        } else if exists|j: int|
            0 <= j < v.len() && (#[trigger] v[j]).eval(hist_of(history@).skip(start as int))
                == LTLResult::U {
            LTLResult::U
        } else {
            LTLResult::F
        }),
    decreases v,
{
    let ghost s = hist_of(history@).skip(start as int);
    let mut partial = LTLResult::F;
    let mut j: usize = 0;
    while j < v.len()
        invariant
            j <= v.len(),
            start <= history@.len(),
            s == hist_of(history@).skip(start as int),
            forall|k: int| 0 <= k < v.len() ==> (#[trigger] v[k]).fits(s),
            forall|k: int| 0 <= k < j ==> (#[trigger] v[k]).eval(s) != LTLResult::T,
            partial == LTLResult::U <==> exists|k: int|
                0 <= k < j && (#[trigger] v[k]).eval(s) == LTLResult::U,
            partial == LTLResult::U || partial == LTLResult::F,
        decreases v.len() - j,
    {
        let r = v[j].partial_from(history, start);
        if r == LTLResult::T {
            return LTLResult::T;
        } else if r == LTLResult::U {
            partial = LTLResult::U;
        }
        j += 1;
    }
    partial
}

/// A conjunction whose first operand that is not true is undefined has no operand that is false
/// after only true ones.
proof fn lemma_first_undefined(v: Seq<Box<LTLExpr>>, s: Seq<Seq<bool>>, j: int)
    requires
        0 <= j < v.len(),
        forall|k: int| 0 <= k < j ==> (#[trigger] v[k]).eval(s) == LTLResult::T,
        v[j].eval(s) == LTLResult::U,
    ensures
        !(exists|jj: int|
            0 <= jj < v.len() && (#[trigger] v[jj]).eval(s) == LTLResult::F && forall|k: int|
                0 <= k < jj ==> (#[trigger] v[k]).eval(s) == LTLResult::T),
{
    if exists|jj: int|
        0 <= jj < v.len() && (#[trigger] v[jj]).eval(s) == LTLResult::F && forall|k: int|
            0 <= k < jj ==> (#[trigger] v[k]).eval(s) == LTLResult::T {
        let jj = choose|jj: int|
            0 <= jj < v.len() && (#[trigger] v[jj]).eval(s) == LTLResult::F && forall|k: int|
                0 <= k < jj ==> (#[trigger] v[k]).eval(s) == LTLResult::T;
        if jj > j {
            assert(v[j].eval(s) == LTLResult::T);
        }
    }
}

/// Conjunction of the partial results of all operands: the result of the first operand that is
/// not true, or true if every operand is.
fn partial_all(v: &Vec<Box<LTLExpr>>, history: &[Vec<bool>], start: usize) -> (r: LTLResult)
    requires
        start <= history@.len(),
        forall|j: int| 0 <= j < v.len() ==> (#[trigger] v[j]).fits(hist_of(history@).skip(start as int)),
    ensures
        r == (if forall|j: int|
            0 <= j < v.len() ==> (#[trigger] v[j]).eval(hist_of(history@).skip(start as int))
                == LTLResult::T {
            LTLResult::T
        } else if exists|j: int|
            0 <= j < v.len() && (#[trigger] v[j]).eval(hist_of(history@).skip(start as int))
                == LTLResult::F && forall|k: int|
                0 <= k < j ==> (#[trigger] v[k]).eval(hist_of(history@).skip(start as int))
                    == LTLResult::T {
            LTLResult::F
        } else {
            LTLResult::U
        }),
    decreases v,
{
    let ghost s = hist_of(history@).skip(start as int);
    let mut j: usize = 0;
    while j < v.len()
        invariant
            j <= v.len(),
            start <= history@.len(),
            s == hist_of(history@).skip(start as int),
            forall|k: int| 0 <= k < v.len() ==> (#[trigger] v[k]).fits(s),
            forall|k: int| 0 <= k < j ==> (#[trigger] v[k]).eval(s) == LTLResult::T,
        decreases v.len() - j,
    {
        let r = v[j].partial_from(history, start);
        if r == LTLResult::F {
            return LTLResult::F;
        } else if r == LTLResult::U {
            proof {
                lemma_first_undefined(v@, s, j as int);
            }
            return LTLResult::U;
        }
        j += 1;
    }
    LTLResult::T
}

impl LTLExpr {
    /// Checks if the operator holds for the given history, assuming that we have only a partial
    /// sequence.
    pub fn partial(&self, history: &[Vec<bool>]) -> (r: LTLResult)
        requires
            self.fits(hist_of(history@)),
        ensures
            r == self.eval(hist_of(history@)),
    {
        proof {
            assert(hist_of(history@).skip(0) =~= hist_of(history@));
        }
        self.partial_from(history, 0)
    }

    /// Evaluates the operator on the history without its first `start` states.
    pub fn partial_from(&self, history: &[Vec<bool>], start: usize) -> (r: LTLResult)
        requires
            start <= history@.len(),
            self.fits(hist_of(history@).skip(start as int)),
        ensures
            r == self.eval(hist_of(history@).skip(start as int)),
        decreases self,
    {
        let ghost s = hist_of(history@).skip(start as int);
        match self {
            LTLExpr::Bool(b) => LTLResult::from(*b),
            LTLExpr::Var(i) => {
                assert(s[0] == history@[start as int]@);
                LTLResult::from(history[start][*i])
            },
            LTLExpr::Boolean(b) => b.partial_from(history, start),
            LTLExpr::Modal(m) => m.partial_from(history, start),
        }
    }
}

impl LTLBoolean {
    /// Checks if the operator holds for the given history, assuming that we have only a partial
    /// sequence.
    pub fn partial(&self, history: &[Vec<bool>]) -> (r: LTLResult)
        requires
            self.fits(hist_of(history@)),
        ensures
            r == self.eval(hist_of(history@)),
    {
        proof {
            assert(hist_of(history@).skip(0) =~= hist_of(history@));
        }
        self.partial_from(history, 0)
    }

    /// Evaluates the operator on the history without its first `start` states.
    pub fn partial_from(&self, history: &[Vec<bool>], start: usize) -> (r: LTLResult)
        requires
            start <= history@.len(),
            self.fits(hist_of(history@).skip(start as int)),
        ensures
            r == self.eval(hist_of(history@).skip(start as int)),
        decreases self,
    {
        let ghost s = hist_of(history@).skip(start as int);
        match self {
            LTLBoolean::Not(a) => core::ops::Not::not(a.partial_from(history, start)),
            LTLBoolean::Or(v) => {
                proof {
                    reveal_with_fuel(LTLBoolean::vars_below, 2);
                    assert forall|j: int| 0 <= j < v.len() implies (#[trigger] v[j]).fits(s) by {
                        assert forall|k: int| 0 <= k < s.len() implies v[j].vars_below(
                            #[trigger] s[k].len(),
                        ) by {
                            assert(self.vars_below(s[k].len()));
                            assert(self->Or_0[j].vars_below(s[k].len()));
                        }
                    }
                    assert(decreases_to!(self => self->Or_0));
                }
                partial_any(v, history, start)
            },
            LTLBoolean::And(v) => {
                proof {
                    reveal_with_fuel(LTLBoolean::vars_below, 2);
                    assert forall|j: int| 0 <= j < v.len() implies (#[trigger] v[j]).fits(s) by {
                        assert forall|k: int| 0 <= k < s.len() implies v[j].vars_below(
                            #[trigger] s[k].len(),
                        ) by {
                            assert(self.vars_below(s[k].len()));
                            assert(self->And_0[j].vars_below(s[k].len()));
                        }
                    }
                    assert(decreases_to!(self => self->And_0));
                }
                partial_all(v, history, start)
            },
            LTLBoolean::Xor(a, b) => {
                let x = a.partial_from(history, start);
                let y = b.partial_from(history, start);
                core::ops::BitXor::bitxor(x, y)
            },
            LTLBoolean::Implies(a, b) => {
                let x = a.partial_from(history, start);
                let y = b.partial_from(history, start);
                core::ops::BitOr::bitor(core::ops::Not::not(x), y)
            },
            LTLBoolean::Iff(a, b) => {
                let x = a.partial_from(history, start);
                let y = b.partial_from(history, start);
                core::ops::Not::not(core::ops::BitXor::bitxor(x, y))
            },
        }
    }
}

impl LTLModal {
    /// Checks if the operator holds for the given history, assuming that we have only a partial
    /// sequence.
    pub fn partial(&self, history: &[Vec<bool>]) -> (r: LTLResult)
        requires
            self.fits(hist_of(history@)),
        ensures
            r == self.eval(hist_of(history@)),
    {
        proof {
            assert(hist_of(history@).skip(0) =~= hist_of(history@));
        }
        self.partial_from(history, 0)
    }

    /// Evaluates the operator on the history without its first `start` states.
    pub fn partial_from(&self, history: &[Vec<bool>], start: usize) -> (r: LTLResult)
        requires
            start <= history@.len(),
            self.fits(hist_of(history@).skip(start as int)),
        ensures
            r == self.eval(hist_of(history@).skip(start as int)),
        decreases self,
    {
        let ghost full = hist_of(history@);
        let ghost s = full.skip(start as int);
        let n = history.len();
        match self {
            LTLModal::Now(phi) => phi.partial_from(history, start),
            LTLModal::Next(phi) => {
                if n - start >= 2 {
                    proof {
                        lemma_skip_skip(full, start as int);
                    }
                    phi.partial_from(history, start + 1)
                } else {
                    LTLResult::U
                }
            },
            LTLModal::Finally(phi) => {
                let mut i = start;
                while i < n
                    invariant
                        start <= i <= n,
                        n == history@.len(),
                        full == hist_of(history@),
                        self.rows_fit(s),
                        s == full.skip(start as int),
                        *self == LTLModal::Finally(*phi),
                        self.eval(full.skip(start as int)) == self.eval(full.skip(i as int)),
                    decreases n - i,
                {
                    proof {
                        lemma_skip_skip(full, i as int);
                        assert forall|k: int| 0 <= k < full.skip(i as int).len() implies
                            self.vars_below(#[trigger] full.skip(i as int)[k].len()) by {
                            assert(full.skip(i as int)[k] == s[k + i - start]);
                        }
                    }
                    if phi.partial_from(history, i) == LTLResult::T {
                        return LTLResult::T;
                    }
                    i += 1;
                }
                proof {
                    assert(full.skip(n as int).len() == 0);
                }
                LTLResult::U
            },
            LTLModal::Globally(phi) => {
                let mut i = start;
                while i < n
                    invariant
                        start <= i <= n,
                        n == history@.len(),
                        full == hist_of(history@),
                        self.rows_fit(s),
                        s == full.skip(start as int),
                        *self == LTLModal::Globally(*phi),
                        self.eval(full.skip(start as int)) == self.eval(full.skip(i as int)),
                    decreases n - i,
                {
                    proof {
                        lemma_skip_skip(full, i as int);
                        assert forall|k: int| 0 <= k < full.skip(i as int).len() implies
                            self.vars_below(#[trigger] full.skip(i as int)[k].len()) by {
                            assert(full.skip(i as int)[k] == s[k + i - start]);
                        }
                    }
                    if phi.partial_from(history, i) == LTLResult::F {
                        return LTLResult::F;
                    }
                    i += 1;
                }
                proof {
                    assert(full.skip(n as int).len() == 0);
                }
                LTLResult::U
            },
            LTLModal::Until(psi, phi) => {
                let mut i = start;
                while i < n
                    invariant
                        start <= i <= n,
                        n == history@.len(),
                        full == hist_of(history@),
                        self.rows_fit(s),
                        s == full.skip(start as int),
                        *self == LTLModal::Until(*psi, *phi),
                        self.eval(full.skip(start as int)) == self.eval(full.skip(i as int)),
                    decreases n - i,
                {
                    proof {
                        lemma_skip_skip(full, i as int);
                        assert forall|k: int| 0 <= k < full.skip(i as int).len() implies
                            self.vars_below(#[trigger] full.skip(i as int)[k].len()) by {
                            assert(full.skip(i as int)[k] == s[k + i - start]);
                        }
                    }
                    match phi.partial_from(history, i) {
                        LTLResult::T => return LTLResult::T,
                        LTLResult::U => return LTLResult::U,
                        LTLResult::F => {},
                    }
                    match psi.partial_from(history, i) {
                        LTLResult::F => return LTLResult::F,
                        LTLResult::U => return LTLResult::U,
                        LTLResult::T => {},
                    }
                    i += 1;
                }
                proof {
                    assert(full.skip(n as int).len() == 0);
                }
                LTLResult::U
            },
            LTLModal::WeakUntil(psi, phi) => {
                let mut i = start;
                while i < n
                    invariant
                        start <= i <= n,
                        n == history@.len(),
                        full == hist_of(history@),
                        self.rows_fit(s),
                        s == full.skip(start as int),
                        *self == LTLModal::WeakUntil(*psi, *phi),
                        self.eval(full.skip(start as int)) == self.eval(full.skip(i as int)),
                    decreases n - i,
                {
                    proof {
                        lemma_skip_skip(full, i as int);
                        assert forall|k: int| 0 <= k < full.skip(i as int).len() implies
                            self.vars_below(#[trigger] full.skip(i as int)[k].len()) by {
                            assert(full.skip(i as int)[k] == s[k + i - start]);
                        }
                    }
                    match phi.partial_from(history, i) {
                        LTLResult::T => return LTLResult::T,
                        LTLResult::U => return LTLResult::U,
                        LTLResult::F => {},
                    }
                    match psi.partial_from(history, i) {
                        LTLResult::F => return LTLResult::F,
                        LTLResult::U => return LTLResult::U,
                        LTLResult::T => {},
                    }
                    i += 1;
                }
                proof {
                    assert(full.skip(n as int).len() == 0);
                }
                LTLResult::U
            },
            LTLModal::Release(psi, phi) => {
                let mut i = start;
                while i < n
                    invariant
                        start <= i <= n,
                        n == history@.len(),
                        full == hist_of(history@),
                        self.rows_fit(s),
                        s == full.skip(start as int),
                        *self == LTLModal::Release(*psi, *phi),
                        self.eval(full.skip(start as int)) == self.eval(full.skip(i as int)),
                    decreases n - i,
                {
                    proof {
                        lemma_skip_skip(full, i as int);
                        assert forall|k: int| 0 <= k < full.skip(i as int).len() implies
                            self.vars_below(#[trigger] full.skip(i as int)[k].len()) by {
                            assert(full.skip(i as int)[k] == s[k + i - start]);
                        }
                    }
                    match phi.partial_from(history, i) {
                        LTLResult::U => return LTLResult::U,
                        LTLResult::F => return LTLResult::F,
                        LTLResult::T => {
                            if psi.partial_from(history, i) == LTLResult::T {
                                return LTLResult::T;
                            }
                        },
                    }
                    i += 1;
                }
                proof {
                    assert(full.skip(n as int).len() == 0);
                }
                LTLResult::U
            },
            LTLModal::StrongRelease(psi, phi) => {
                let mut i = start;
                while i < n
                    invariant
                        start <= i <= n,
                        n == history@.len(),
                        full == hist_of(history@),
                        self.rows_fit(s),
                        s == full.skip(start as int),
                        *self == LTLModal::StrongRelease(*psi, *phi),
                        self.eval(full.skip(start as int)) == self.eval(full.skip(i as int)),
                    decreases n - i,
                {
                    proof {
                        lemma_skip_skip(full, i as int);
                        assert forall|k: int| 0 <= k < full.skip(i as int).len() implies
                            self.vars_below(#[trigger] full.skip(i as int)[k].len()) by {
                            assert(full.skip(i as int)[k] == s[k + i - start]);
                        }
                    }
                    match phi.partial_from(history, i) {
                        LTLResult::U => return LTLResult::U,
                        LTLResult::F => return LTLResult::F,
                        LTLResult::T => {
                            if psi.partial_from(history, i) == LTLResult::T {
                                return LTLResult::T;
                            }
                        },
                    }
                    i += 1;
                }
                proof {
                    assert(full.skip(n as int).len() == 0);
                }
                LTLResult::U
            },
        }
    }
}

impl From<bool> for LTLExpr {
    fn from(x: bool) -> (r: Self) {
        LTLExpr::Bool(x)
    }
}

impl vstd::std_specs::convert::FromSpecImpl<bool> for LTLExpr {
    open spec fn obeys_from_spec() -> bool {
        true
    }

    open spec fn from_spec(x: bool) -> Self {
        LTLExpr::Bool(x)
    }
}

impl From<usize> for LTLExpr {
    fn from(x: usize) -> (r: Self) {
        LTLExpr::Var(x)
    }
}

impl vstd::std_specs::convert::FromSpecImpl<usize> for LTLExpr {
    open spec fn obeys_from_spec() -> bool {
        true
    }

    open spec fn from_spec(x: usize) -> Self {
        LTLExpr::Var(x)
    }
}

impl From<LTLBoolean> for LTLExpr {
    fn from(x: LTLBoolean) -> (r: Self) {
        LTLExpr::Boolean(x)
    }
}

impl vstd::std_specs::convert::FromSpecImpl<LTLBoolean> for LTLExpr {
    open spec fn obeys_from_spec() -> bool {
        true
    }

    open spec fn from_spec(x: LTLBoolean) -> Self {
        LTLExpr::Boolean(x)
    }
}

impl From<LTLModal> for LTLExpr {
    fn from(x: LTLModal) -> (r: Self) {
        LTLExpr::Modal(x)
    }
}

impl vstd::std_specs::convert::FromSpecImpl<LTLModal> for LTLExpr {
    open spec fn obeys_from_spec() -> bool {
        true
    }

    open spec fn from_spec(x: LTLModal) -> Self {
        LTLExpr::Modal(x)
    }
}

/// Which states contribute to a watch.
pub enum StateFilter {
    /// Every state
    All,
    /// The states at which the operator holds
    Holds,
    /// The states at which the operator fails
    Fails,
}

impl StateFilter {
    /// Whether the filter admits the state at the start of `s` for the operator `op`.
    pub open spec fn admits(self, op: LTLExpr, s: Seq<Seq<bool>>) -> bool {
        match self {
            StateFilter::All => true,
            StateFilter::Holds => op.holds(s),
            StateFilter::Fails => !op.holds(s),
        }
    }
}

/// Whether `x` is watched by `op` at some state in `[lo, hi)` that the filter admits.
pub open spec fn collected(
    op: LTLExpr,
    full: Seq<Seq<bool>>,
    lo: int,
    hi: int,
    filter: StateFilter,
    x: usize,
) -> bool {
    exists|i: int| #![trigger full.skip(i)] lo <= i < hi && filter.admits(op, full.skip(i)) && op.watches(full.skip(i), x)
}

/// Dropping `a` and then `b` states is dropping `a + b` states.
pub proof fn lemma_skip_add(s: Seq<Seq<bool>>, a: int, b: int)
    requires
        0 <= a,
        0 <= b,
        a + b <= s.len(),
    ensures
        s.skip(a).skip(b) =~= s.skip(a + b),
{
}

/// The rows of the history from `lo` on fit the operator, so it can be evaluated at every state
/// from `lo` on.
pub proof fn lemma_fits_suffix(op: LTLExpr, full: Seq<Seq<bool>>, lo: int, i: int)
    requires
        0 <= lo <= i < full.len(),
        op.rows_fit(full.skip(lo)),
    ensures
        op.fits(full.skip(i)),
{
    assert forall|k: int| 0 <= k < full.skip(i).len() implies op.vars_below(
        #[trigger] full.skip(i)[k].len(),
    ) by {
        assert(full.skip(i)[k] == full.skip(lo)[k + i - lo]);
    }
}

/// The first state in `[lo, len)` at which `op` holds (if `target`) or fails (if not `target`),
/// or the length of the history if there is none.
fn first_state(op: &LTLExpr, history: &[Vec<bool>], lo: usize, target: bool) -> (r: usize)
    requires
        lo <= history@.len(),
        op.rows_fit(hist_of(history@).skip(lo as int)),
    ensures
        lo <= r <= history@.len(),
        forall|i: int| lo <= i < r ==> op.holds(#[trigger] hist_of(history@).skip(i)) != target,
        r < history@.len() ==> op.holds(hist_of(history@).skip(r as int)) == target,
        r == first_from(*op, hist_of(history@), lo as int, target),
{
    let ghost full = hist_of(history@);
    let n = history.len();
    let mut i = lo;
    while i < n
        invariant
            lo <= i <= n,
            n == history@.len(),
            full == hist_of(history@),
            op.rows_fit(full.skip(lo as int)),
            forall|k: int| lo <= k < i ==> op.holds(#[trigger] full.skip(k)) != target,
            first_from(*op, full, i as int, target) == first_from(*op, full, lo as int, target),
        decreases n - i,
    {
        proof {
            lemma_fits_suffix(*op, full, lo as int, i as int);
        }
        if op.check_from(history, i) == target {
            return i;
        }
        i += 1;
    }
    n
}


impl LTLExpr {
    /// The variables that the watch of the expression on the history `full` from state `start`
    /// returns, in their order: a variable is itself, a constant nothing.
    pub open spec fn watch_at(self, full: Seq<Seq<bool>>, start: int) -> Seq<usize>
        decreases self, 0nat, 0int,
    {
        match self {
            LTLExpr::Bool(_) => Seq::empty(),
            LTLExpr::Var(i) => seq![i],
            LTLExpr::Boolean(b) => b.watch_at(full, start),
            LTLExpr::Modal(m) => m.watch_at(full, start),
        }
    }
}

impl LTLBoolean {
    /// The variables that the watch of the operator on the history `full` from state `start`
    /// returns, in their order: the watches of the operands that it selects, one after the other.
    pub open spec fn watch_at(self, full: Seq<Seq<bool>>, start: int) -> Seq<usize>
        decreases self, 2nat, 0int,
    {
        let s = full.skip(start);
        match self {
            LTLBoolean::Not(a) => a.watch_at(full, start),
            LTLBoolean::Or(v) => operands_watch_at(self, v.len() as int, full, start, self.holds(s), true),
            LTLBoolean::And(v) => operands_watch_at(self, v.len() as int, full, start, !self.holds(s), false),
            LTLBoolean::Xor(a, b) => a.watch_at(full, start) + b.watch_at(full, start),
            LTLBoolean::Iff(a, b) => a.watch_at(full, start) + b.watch_at(full, start),
            LTLBoolean::Implies(a, b) => {
                let ah = a.holds(s);
                let bh = b.holds(s);
                (if !(!ah || bh) || !ah {
                    a.watch_at(full, start)
                } else {
                    Seq::empty()
                }) + (if !(!ah || bh) || bh {
                    b.watch_at(full, start)
                } else {
                    Seq::empty()
                })
            },
        }
    }
}

/// The watches of the first `j` operands of the disjunction or conjunction `b`, one after the
/// other; where `select` holds, only of the operands whose truth is `is_or`.
pub open spec fn operands_watch_at(
    b: LTLBoolean,
    j: int,
    full: Seq<Seq<bool>>,
    start: int,
    select: bool,
    is_or: bool,
) -> Seq<usize>
    decreases b, 1nat, j,
{
    match b {
        LTLBoolean::Or(v) | LTLBoolean::And(v) => if j <= 0 || j > v.len() {
            Seq::empty()
        } else {
            let rest = operands_watch_at(b, j - 1, full, start, select, is_or);
            if !select || v[j - 1].holds(full.skip(start)) == is_or {
                rest + v[j - 1].watch_at(full, start)
            } else {
                rest
            }
        },
        _ => Seq::empty(),
    }
}

impl LTLModal {
    /// The variables that the watch of the operator on the history `full` from state `start`
    /// returns, in their order: the watches of its operands at the states that `watches`
    /// describes, state after state, the first operand before the second.
    pub open spec fn watch_at(self, full: Seq<Seq<bool>>, start: int) -> Seq<usize>
        decreases self, 0nat, 0int,
    {
        let s = full.skip(start);
        let n = full.len() as int;
        match self {
            LTLModal::Now(phi) => phi.watch_at(full, start),
            LTLModal::Next(phi) => if n - start >= 2 {
                phi.watch_at(full, start + 1)
            } else {
                phi.watch_at(full, start)
            },
            LTLModal::Finally(phi) => collect_at(
                *phi,
                full,
                start,
                n,
                if self.holds(s) {
                    StateFilter::Holds
                } else {
                    StateFilter::All
                },
            ),
            LTLModal::Globally(phi) => collect_at(
                *phi,
                full,
                start,
                n,
                if self.holds(s) {
                    StateFilter::All
                } else {
                    StateFilter::Fails
                },
            ),
            LTLModal::Until(psi, phi) | LTLModal::WeakUntil(psi, phi) => if self.holds(s) {
                let g = first_from(*psi, full, start, false);
                collect_at(*psi, full, start, first_from(*phi, full, start, true), StateFilter::All) + collect_at(
                    *phi,
                    full,
                    start,
                    if g < n {
                        g + 1
                    } else {
                        n
                    },
                    StateFilter::Holds,
                )
            } else {
                collect_at(*psi, full, start, n, StateFilter::Fails) + collect_at(*phi, full, start, n, StateFilter::Fails)
            },
            LTLModal::Release(psi, phi) | LTLModal::StrongRelease(psi, phi) => if self.holds(s) {
                let g = first_from(*psi, full, start, true);
                collect_at(*psi, full, start, first_from(*phi, full, start, false), StateFilter::Holds) + collect_at(
                    *phi,
                    full,
                    start,
                    if g < n {
                        g + 1
                    } else {
                        n
                    },
                    StateFilter::All,
                )
            } else {
                collect_at(*psi, full, start, n, StateFilter::Fails) + collect_at(*phi, full, start, n, StateFilter::Fails)
            },
        }
    }
}

/// The watches of `op` at the states in `[lo, hi)` that the filter admits, state after state.
pub open spec fn collect_at(op: LTLExpr, full: Seq<Seq<bool>>, lo: int, hi: int, filter: StateFilter) -> Seq<usize>
    decreases op, 1nat, hi - lo,
{
    if hi <= lo {
        Seq::empty()
    } else {
        let rest = collect_at(op, full, lo, hi - 1, filter);
        if filter.admits(op, full.skip(hi - 1)) {
            rest + op.watch_at(full, hi - 1)
        } else {
            rest
        }
    }
}

/// The first state from `i` on at which the truth of `op` is `target`, or the length of the
/// history where there is none.
pub open spec fn first_from(op: LTLExpr, full: Seq<Seq<bool>>, i: int, target: bool) -> int
    decreases full.len() - i,
{
    if i >= full.len() {
        full.len() as int
    } else if op.holds(full.skip(i)) == target {
        i
    } else {
        first_from(op, full, i + 1, target)
    }
}

/// Collects the watch of `op` at every state in `[lo, hi)` that the filter admits.
fn collect_watch(
    op: &LTLExpr,
    history: &[Vec<bool>],
    lo: usize,
    hi: usize,
    filter: StateFilter,
) -> (r: Vec<usize>)
    requires
        lo <= hi <= history@.len(),
        op.rows_fit(hist_of(history@).skip(lo as int)),
    ensures
        forall|x: usize| #[trigger] r@.contains(x) <==> collected(*op, hist_of(history@), lo as int, hi as int, filter, x),
        r@ == collect_at(*op, hist_of(history@), lo as int, hi as int, filter),
    decreases op, 2nat,
{
    let ghost full = hist_of(history@);
    let mut acc: Vec<usize> = Vec::new();
    let mut i = lo;
    while i < hi
        invariant
            lo <= i <= hi <= history@.len(),
            full == hist_of(history@),
            op.rows_fit(full.skip(lo as int)),
            forall|x: usize| #[trigger] acc@.contains(x) <==> collected(*op, full, lo as int, i as int, filter, x),
            acc@ == collect_at(*op, full, lo as int, i as int, filter),
        decreases hi - i,
    {
        proof {
            lemma_fits_suffix(*op, full, lo as int, i as int);
        }
        let take = match filter {
            StateFilter::All => true,
            StateFilter::Holds => op.check_from(history, i),
            StateFilter::Fails => !op.check_from(history, i),
        };
        let ghost old_acc = acc@;
        if take {
            let mut w = op.watch_from(history, i);
            let ghost wv = w@;
            acc.append(&mut w);
            assert forall|x: usize| #[trigger] acc@.contains(x) <==> collected(*op, full, lo as int, i + 1, filter, x) by {
                if acc@.contains(x) {
                    if old_acc.contains(x) {
                        let k = choose|k: int| #![trigger full.skip(k)] lo <= k < i && filter.admits(*op, full.skip(k)) && op.watches(full.skip(k), x);
                        assert(lo <= k < i + 1);
                    } else {
                        let k = choose|k: int| 0 <= k < acc@.len() && acc@[k] == x;
                        assert(wv[k - old_acc.len()] == x);
                        assert(wv.contains(x));
                        assert(op.watches(full.skip(i as int), x));
                    }
                }
                if collected(*op, full, lo as int, i + 1, filter, x) {
                    let k = choose|k: int| #![trigger full.skip(k)] lo <= k < i + 1 && filter.admits(*op, full.skip(k)) && op.watches(full.skip(k), x);
                    if k < i {
                        assert(old_acc.contains(x));
                        let m = choose|m: int| 0 <= m < old_acc.len() && old_acc[m] == x;
                        assert(acc@[m] == x);
                    } else {
                        assert(wv.contains(x));
                        let m = choose|m: int| 0 <= m < wv.len() && wv[m] == x;
                        assert(acc@[old_acc.len() + m] == x);
                    }
                }
            }
        } else {
            assert forall|x: usize| #[trigger] acc@.contains(x) <==> collected(*op, full, lo as int, i + 1, filter, x) by {
                if collected(*op, full, lo as int, i + 1, filter, x) {
                    let k = choose|k: int| #![trigger full.skip(k)] lo <= k < i + 1 && filter.admits(*op, full.skip(k)) && op.watches(full.skip(k), x);
                    assert(k < i);
                }
            }
        }
        i += 1;
    }
    acc
}

impl LTLExpr {
    /// Extract the set of propositional variables, that need to change in order for the result of
    /// the operator to change, assuming that the history is finished.
    pub fn watch(&self, history: &[Vec<bool>]) -> (r: Vec<usize>)
        requires
            self.fits(hist_of(history@)),
        ensures
            forall|x: usize| #[trigger] r@.contains(x) <==> self.watches(hist_of(history@), x),
            r@ == self.watch_at(hist_of(history@), 0),
    {
        proof {
            assert(hist_of(history@).skip(0) =~= hist_of(history@));
        }
        self.watch_from(history, 0)
    }

    /// Computes the watch on the history without its first `start` states.
    pub fn watch_from(&self, history: &[Vec<bool>], start: usize) -> (r: Vec<usize>)
        requires
            start <= history@.len(),
            self.fits(hist_of(history@).skip(start as int)),
        ensures
            forall|x: usize| #[trigger] r@.contains(x) <==> self.watches(hist_of(history@).skip(start as int), x),
            r@ == self.watch_at(hist_of(history@), start as int),
        decreases self, 1nat,
    {
        match self {
            LTLExpr::Bool(_) => Vec::new(),
            LTLExpr::Var(i) => {
                let r = vec![*i];
                assert(r@ =~= seq![*i]);
                r
            },
            LTLExpr::Boolean(b) => b.watch_from(history, start),
            LTLExpr::Modal(m) => m.watch_from(history, start),
        }
    }
}

/// Membership in a concatenation.
pub proof fn lemma_concat_contains(a: Seq<usize>, b: Seq<usize>)
    ensures
        forall|x: usize| #[trigger] (a + b).contains(x) <==> a.contains(x) || b.contains(x),
{
    assert forall|x: usize| #[trigger] (a + b).contains(x) <==> a.contains(x) || b.contains(x) by {
        if (a + b).contains(x) {
            let k = choose|k: int| 0 <= k < (a + b).len() && (a + b)[k] == x;
            if k < a.len() {
                assert(a[k] == x);
            } else {
                assert(b[k - a.len()] == x);
            }
        }
        if a.contains(x) {
            let k = choose|k: int| 0 <= k < a.len() && a[k] == x;
            assert((a + b)[k] == x);
        }
        if b.contains(x) {
            let k = choose|k: int| 0 <= k < b.len() && b[k] == x;
            assert((a + b)[a.len() + k] == x);
        }
    }
}

/// A watch collected over absolute states `[start, len)` is the watch over the states of the
/// history without its first `start` states.
pub proof fn lemma_collected_shift(
    op: LTLExpr,
    full: Seq<Seq<bool>>,
    start: int,
    filter: StateFilter,
    x: usize,
)
    requires
        0 <= start <= full.len(),
    ensures
        collected(op, full, start, full.len() as int, filter, x) <==> exists|i: int|
            #![trigger full.skip(start).skip(i)]
            0 <= i < full.skip(start).len() && filter.admits(op, full.skip(start).skip(i))
                && op.watches(full.skip(start).skip(i), x),
{
    let s = full.skip(start);
    if collected(op, full, start, full.len() as int, filter, x) {
        let a = choose|a: int| #![trigger full.skip(a)] start <= a < full.len() && filter.admits(op, full.skip(a)) && op.watches(full.skip(a), x);
        lemma_skip_add(full, start, a - start);
        assert(op.watches(s.skip(a - start), x));
    }
    if exists|i: int| #![trigger s.skip(i)] 0 <= i < s.len() && filter.admits(op, s.skip(i)) && op.watches(s.skip(i), x) {
        let i = choose|i: int| #![trigger s.skip(i)] 0 <= i < s.len() && filter.admits(op, s.skip(i)) && op.watches(s.skip(i), x);
        lemma_skip_add(full, start, i);
        assert(op.watches(full.skip(start + i), x));
    }
}

impl LTLBoolean {
    /// Extract the set of propositional variables, that need to change in order for the result of
    /// the operator to change, assuming that the history is finished.
    pub fn watch(&self, history: &[Vec<bool>]) -> (r: Vec<usize>)
        requires
            self.fits(hist_of(history@)),
        ensures
            forall|x: usize| #[trigger] r@.contains(x) <==> self.watches(hist_of(history@), x),
            r@ == self.watch_at(hist_of(history@), 0),
    {
        proof {
            assert(hist_of(history@).skip(0) =~= hist_of(history@));
        }
        self.watch_from(history, 0)
    }

    /// Computes the watch on the history without its first `start` states.
    pub fn watch_from(&self, history: &[Vec<bool>], start: usize) -> (r: Vec<usize>)
        requires
            start <= history@.len(),
            self.fits(hist_of(history@).skip(start as int)),
        ensures
            forall|x: usize| #[trigger] r@.contains(x) <==> self.watches(hist_of(history@).skip(start as int), x),
            r@ == self.watch_at(hist_of(history@), start as int),
        decreases self, 1nat,
    {
        let ghost s = hist_of(history@).skip(start as int);
        match self {
            LTLBoolean::Not(a) => a.watch_from(history, start),
            LTLBoolean::Or(v) | LTLBoolean::And(v) => {
                let is_or = match self {
                    LTLBoolean::Or(_) => true,
                    _ => false,
                };
                let holds = self.check_from(history, start);
                // a true disjunction and a false conjunction only watch some operands
                let select = if is_or { holds } else { !holds };
                let mut acc: Vec<usize> = Vec::new();
                let mut j: usize = 0;
                while j < v.len()
                    invariant
                        j <= v.len(),
                        start <= history@.len(),
                        s == hist_of(history@).skip(start as int),
                        self.fits(s),
                        is_or ==> *self == LTLBoolean::Or(*v),
                        !is_or ==> *self == LTLBoolean::And(*v),
                        forall|x: usize| #[trigger] acc@.contains(x) <==> exists|k: int|
                            0 <= k < j && (select ==> v[k].holds(s) == is_or) && (#[trigger] v[k]).watches(s, x),
                        acc@ == operands_watch_at(*self, j as int, hist_of(history@), start as int, select, is_or),
                        select == (if is_or {
                            self.holds(s)
                        } else {
                            !self.holds(s)
                        }),
                    decreases v.len() - j,
                {
                    proof {
                        reveal_with_fuel(LTLBoolean::vars_below, 2);
                        assert forall|k: int| 0 <= k < s.len() implies v[j as int].vars_below(
                            #[trigger] s[k].len(),
                        ) by {
                            assert(self.vars_below(s[k].len()));
                            if is_or {
                                assert(self->Or_0[j as int].vars_below(s[k].len()));
                            } else {
                                assert(self->And_0[j as int].vars_below(s[k].len()));
                            }
                        }
                        if is_or {
                            assert(decreases_to!(self => self->Or_0));
                            assert(decreases_to!(self->Or_0 => self->Or_0[j as int]));
                        } else {
                            assert(decreases_to!(self => self->And_0));
                            assert(decreases_to!(self->And_0 => self->And_0[j as int]));
                        }
                    }
                    let ghost old_acc = acc@;
                    if !select || v[j].check_from(history, start) == is_or {
                        let mut w = v[j].watch_from(history, start);
                        let ghost wv = w@;
                        acc.append(&mut w);
                        proof {
                            lemma_concat_contains(old_acc, wv);
                            assert forall|x: usize| #[trigger] acc@.contains(x) <==> exists|k: int|
                                0 <= k < j + 1 && (select ==> v[k].holds(s) == is_or) && (#[trigger] v[k]).watches(s, x) by {
                                if exists|k: int| 0 <= k < j + 1 && (select ==> v[k].holds(s) == is_or) && (#[trigger] v[k]).watches(s, x) {
                                    let k = choose|k: int| 0 <= k < j + 1 && (select ==> v[k].holds(s) == is_or) && (#[trigger] v[k]).watches(s, x);
                                    if k < j {
                                        assert(old_acc.contains(x));
                                    }
                                }
                            }
                        }
                    } else {
                        proof {
                            assert forall|x: usize| #[trigger] acc@.contains(x) <==> exists|k: int|
                                0 <= k < j + 1 && (select ==> v[k].holds(s) == is_or) && (#[trigger] v[k]).watches(s, x) by {
                                if exists|k: int| 0 <= k < j + 1 && (select ==> v[k].holds(s) == is_or) && (#[trigger] v[k]).watches(s, x) {
                                    let k = choose|k: int| 0 <= k < j + 1 && (select ==> v[k].holds(s) == is_or) && (#[trigger] v[k]).watches(s, x);
                                    assert(k < j);
                                }
                            }
                        }
                    }
                    j += 1;
                }
                acc
            },
            LTLBoolean::Xor(a, b) | LTLBoolean::Iff(a, b) => {
                let mut a_watch = a.watch_from(history, start);
                let mut b_watch = b.watch_from(history, start);
                proof {
                    lemma_concat_contains(a_watch@, b_watch@);
                }
                a_watch.append(&mut b_watch);
                a_watch
            },
            LTLBoolean::Implies(a, b) => {
                let a_holds = a.check_from(history, start);
                let b_holds = b.check_from(history, start);
                let mut a_watch = if !(!a_holds || b_holds) || !a_holds {
                    a.watch_from(history, start)
                } else {
                    Vec::new()
                };
                let mut b_watch = if !(!a_holds || b_holds) || b_holds {
                    b.watch_from(history, start)
                } else {
                    Vec::new()
                };
                proof {
                    lemma_concat_contains(a_watch@, b_watch@);
                }
                a_watch.append(&mut b_watch);
                a_watch
            },
        }
    }
}

impl LTLModal {
    /// Extract the set of propositional variables, that need to change in order for the result of
    /// the operator to change, assuming that the history is finished.
    pub fn watch(&self, history: &[Vec<bool>]) -> (r: Vec<usize>)
        requires
            self.fits(hist_of(history@)),
        ensures
            forall|x: usize| #[trigger] r@.contains(x) <==> self.watches(hist_of(history@), x),
            r@ == self.watch_at(hist_of(history@), 0),
    {
        proof {
            assert(hist_of(history@).skip(0) =~= hist_of(history@));
        }
        self.watch_from(history, 0)
    }

    /// Computes the watch on the history without its first `start` states.
    pub fn watch_from(&self, history: &[Vec<bool>], start: usize) -> (r: Vec<usize>)
        requires
            start <= history@.len(),
            self.fits(hist_of(history@).skip(start as int)),
        ensures
            forall|x: usize| #[trigger] r@.contains(x) <==> self.watches(hist_of(history@).skip(start as int), x),
            r@ == self.watch_at(hist_of(history@), start as int),
        decreases self, 1nat,
    {
        let ghost full = hist_of(history@);
        let ghost s = full.skip(start as int);
        let n = history.len();
        match self {
            LTLModal::Now(phi) => phi.watch_from(history, start),
            LTLModal::Next(phi) => {
                if n - start >= 2 {
                    proof {
                        lemma_skip_skip(full, start as int);
                    }
                    phi.watch_from(history, start + 1)
                } else {
                    phi.watch_from(history, start)
                }
            },
            LTLModal::Finally(phi) | LTLModal::Globally(phi) => {
                let is_finally = match self {
                    LTLModal::Finally(_) => true,
                    _ => false,
                };
                let holds = self.check_from(history, start);
                // a true `Finally` watches the states where phi holds, a false `Globally` those
                // where it fails; otherwise every state is watched
                let filter = if is_finally {
                    if holds { StateFilter::Holds } else { StateFilter::All }
                } else {
                    if holds { StateFilter::All } else { StateFilter::Fails }
                };
                let ghost gfilter = filter;
                let r = collect_watch(phi, history, start, n, filter);
                proof {
                    assert forall|x: usize| #[trigger] r@.contains(x) <==> self.watches(s, x) by {
                        lemma_collected_shift(**phi, full, start as int, gfilter, x);
                    }
                }
                r
            },
            LTLModal::Until(psi, phi) | LTLModal::WeakUntil(psi, phi) => {
                if self.check_from(history, start) {
                    // psi at every state before phi first holds
                    let f = first_state(phi, history, start, true);
                    let mut psi_watch = collect_watch(psi, history, start, f, StateFilter::All);
                    // phi where it holds, up to and including the first state where psi fails
                    let g = first_state(psi, history, start, false);
                    let end = if g < n { g + 1 } else { n };
                    let mut phi_watch = collect_watch(phi, history, start, end, StateFilter::Holds);
                    let ghost pw = psi_watch@;
                    let ghost fw = phi_watch@;
                    psi_watch.append(&mut phi_watch);
                    proof {
                        lemma_concat_contains(pw, fw);
                        assert forall|x: usize| #[trigger] psi_watch@.contains(x) <==> self.watches(s, x) by {
                            unfold_until(*self, s, x);
                            collected_psi_before(**psi, **phi, full, start as int, f as int, x);
                            collected_phi_while(**psi, **phi, full, start as int, g as int, end as int, x);
                        }
                    }
                    psi_watch
                } else {
                    let mut psi_watch = collect_watch(psi, history, start, n, StateFilter::Fails);
                    let mut phi_watch = collect_watch(phi, history, start, n, StateFilter::Fails);
                    let ghost pw = psi_watch@;
                    let ghost fw = phi_watch@;
                    psi_watch.append(&mut phi_watch);
                    proof {
                        lemma_concat_contains(pw, fw);
                        assert forall|x: usize| #[trigger] psi_watch@.contains(x) <==> self.watches(s, x) by {
                            lemma_collected_shift(**psi, full, start as int, StateFilter::Fails, x);
                            lemma_collected_shift(**phi, full, start as int, StateFilter::Fails, x);
                        }
                    }
                    psi_watch
                }
            },
            LTLModal::Release(psi, phi) | LTLModal::StrongRelease(psi, phi) => {
                if self.check_from(history, start) {
                    // psi where it holds, before phi first fails
                    let f = first_state(phi, history, start, false);
                    let mut psi_watch = collect_watch(psi, history, start, f, StateFilter::Holds);
                    // phi at every state up to and including the first state where psi holds
                    let g = first_state(psi, history, start, true);
                    let end = if g < n { g + 1 } else { n };
                    let mut phi_watch = collect_watch(phi, history, start, end, StateFilter::All);
                    let ghost pw = psi_watch@;
                    let ghost fw = phi_watch@;
                    psi_watch.append(&mut phi_watch);
                    proof {
                        lemma_concat_contains(pw, fw);
                        assert forall|x: usize| #[trigger] psi_watch@.contains(x) <==> self.watches(s, x) by {
                            unfold_release(*self, s, x);
                            collected_psi_while(**psi, **phi, full, start as int, f as int, x);
                            collected_phi_until(**psi, **phi, full, start as int, g as int, end as int, x);
                        }
                    }
                    psi_watch
                } else {
                    let mut psi_watch = collect_watch(psi, history, start, n, StateFilter::Fails);
                    let mut phi_watch = collect_watch(phi, history, start, n, StateFilter::Fails);
                    let ghost pw = psi_watch@;
                    let ghost fw = phi_watch@;
                    psi_watch.append(&mut phi_watch);
                    proof {
                        lemma_concat_contains(pw, fw);
                        assert forall|x: usize| #[trigger] psi_watch@.contains(x) <==> self.watches(s, x) by {
                            lemma_collected_shift(**psi, full, start as int, StateFilter::Fails, x);
                            lemma_collected_shift(**phi, full, start as int, StateFilter::Fails, x);
                        }
                    }
                    psi_watch
                }
            },
        }
    }
}

/// A true `Until` watches `psi` at a state before `phi` first holds.
spec fn psi_before_phi(psi: LTLExpr, phi: LTLExpr, s: Seq<Seq<bool>>, x: usize) -> bool {
    exists|i: int| #![trigger s.skip(i)]
        0 <= i < s.len() && (forall|k: int| 0 <= k <= i ==> !phi.holds(#[trigger] s.skip(k)))
            && psi.watches(s.skip(i), x)
}

/// A true `Until` watches `phi` at a state where it holds, while `psi` held at every state
/// before.
spec fn phi_while_psi(psi: LTLExpr, phi: LTLExpr, s: Seq<Seq<bool>>, x: usize) -> bool {
    exists|i: int| #![trigger s.skip(i)]
        0 <= i < s.len() && (forall|k: int| 0 <= k < i ==> psi.holds(#[trigger] s.skip(k)))
            && phi.holds(s.skip(i)) && phi.watches(s.skip(i), x)
}

/// The watch of a true `Until` (or `WeakUntil`).
proof fn unfold_until(m: LTLModal, s: Seq<Seq<bool>>, x: usize)
    requires
        m is Until || m is WeakUntil,
        m.holds(s),
    ensures
        m.watches(s, x) == (psi_before_phi(m.operands().0, m.operands().1, s, x) || phi_while_psi(m.operands().0, m.operands().1, s, x)),
{
}

/// The watch of `psi` collected before the first state `f` where `phi` holds.
proof fn collected_psi_before(psi: LTLExpr, phi: LTLExpr, full: Seq<Seq<bool>>, start: int, f: int, x: usize)
    requires
        0 <= start <= f <= full.len(),
        forall|i: int| start <= i < f ==> !phi.holds(#[trigger] full.skip(i)),
        f < full.len() ==> phi.holds(full.skip(f)),
    ensures
        collected(psi, full, start, f, StateFilter::All, x) == psi_before_phi(psi, phi, full.skip(start), x),
{
    let s = full.skip(start);
    if collected(psi, full, start, f, StateFilter::All, x) {
        let a = choose|a: int| #![trigger full.skip(a)]
            start <= a < f && StateFilter::All.admits(psi, full.skip(a)) && psi.watches(full.skip(a), x);
        lemma_skip_add(full, start, a - start);
        assert forall|k: int| 0 <= k <= a - start implies !phi.holds(#[trigger] s.skip(k)) by {
            lemma_skip_add(full, start, k);
        }
    }
    if psi_before_phi(psi, phi, s, x) {
        let i = choose|i: int| #![trigger s.skip(i)]
            0 <= i < s.len() && (forall|k: int| 0 <= k <= i ==> !phi.holds(#[trigger] s.skip(k)))
                && psi.watches(s.skip(i), x);
        lemma_skip_add(full, start, i);
        if start + i >= f {
            lemma_skip_add(full, start, f - start);
            assert(!phi.holds(s.skip(f - start)));
        }
    }
}

/// The watch of `phi` collected up to and including the first state `g` where `psi` fails.
proof fn collected_phi_while(psi: LTLExpr, phi: LTLExpr, full: Seq<Seq<bool>>, start: int, g: int, end: int, x: usize)
    requires
        0 <= start <= g <= full.len(),
        start <= end <= full.len(),
        forall|k: int| start <= k < g ==> psi.holds(#[trigger] full.skip(k)),
        g < full.len() ==> !psi.holds(full.skip(g)) && end == g + 1,
        g == full.len() ==> end == full.len(),
    ensures
        collected(phi, full, start, end, StateFilter::Holds, x) == phi_while_psi(psi, phi, full.skip(start), x),
{
    let s = full.skip(start);
    if collected(phi, full, start, end, StateFilter::Holds, x) {
        let a = choose|a: int| #![trigger full.skip(a)]
            start <= a < end && StateFilter::Holds.admits(phi, full.skip(a)) && phi.watches(full.skip(a), x);
        lemma_skip_add(full, start, a - start);
        assert forall|k: int| 0 <= k < a - start implies psi.holds(#[trigger] s.skip(k)) by {
            lemma_skip_add(full, start, k);
        }
    }
    if phi_while_psi(psi, phi, s, x) {
        let i = choose|i: int| #![trigger s.skip(i)]
            0 <= i < s.len() && (forall|k: int| 0 <= k < i ==> psi.holds(#[trigger] s.skip(k)))
                && phi.holds(s.skip(i)) && phi.watches(s.skip(i), x);
        lemma_skip_add(full, start, i);
        if start + i >= end {
            lemma_skip_add(full, start, g - start);
            assert(psi.holds(s.skip(g - start)));
        }
    }
}


/// A true `Release` watches `phi` at a state up to and including the first one where `psi` holds.
spec fn phi_until_psi(psi: LTLExpr, phi: LTLExpr, s: Seq<Seq<bool>>, x: usize) -> bool {
    exists|i: int| #![trigger s.skip(i)]
        0 <= i < s.len() && (forall|k: int| 0 <= k < i ==> !psi.holds(#[trigger] s.skip(k)))
            && phi.watches(s.skip(i), x)
}

/// A true `Release` watches `psi` at a state where it holds, while `phi` holds at every state up
/// to it.
spec fn psi_while_phi(psi: LTLExpr, phi: LTLExpr, s: Seq<Seq<bool>>, x: usize) -> bool {
    exists|i: int| #![trigger s.skip(i)]
        0 <= i < s.len() && (forall|k: int| 0 <= k <= i ==> phi.holds(#[trigger] s.skip(k)))
            && psi.holds(s.skip(i)) && psi.watches(s.skip(i), x)
}

/// The watch of a true `Release` (or `StrongRelease`).
proof fn unfold_release(m: LTLModal, s: Seq<Seq<bool>>, x: usize)
    requires
        m is Release || m is StrongRelease,
        m.holds(s),
    ensures
        m.watches(s, x) == (phi_until_psi(m.operands().0, m.operands().1, s, x) || psi_while_phi(m.operands().0, m.operands().1, s, x)),
{
}

/// The watch of `phi` collected up to and including the first state `g` where `psi` holds.
proof fn collected_phi_until(psi: LTLExpr, phi: LTLExpr, full: Seq<Seq<bool>>, start: int, g: int, end: int, x: usize)
    requires
        0 <= start <= g <= full.len(),
        start <= end <= full.len(),
        forall|k: int| start <= k < g ==> !psi.holds(#[trigger] full.skip(k)),
        g < full.len() ==> psi.holds(full.skip(g)) && end == g + 1,
        g == full.len() ==> end == full.len(),
    ensures
        collected(phi, full, start, end, StateFilter::All, x) == phi_until_psi(psi, phi, full.skip(start), x),
{
    let s = full.skip(start);
    if collected(phi, full, start, end, StateFilter::All, x) {
        let a = choose|a: int| #![trigger full.skip(a)]
            start <= a < end && StateFilter::All.admits(phi, full.skip(a)) && phi.watches(full.skip(a), x);
        lemma_skip_add(full, start, a - start);
        assert forall|k: int| 0 <= k < a - start implies !psi.holds(#[trigger] s.skip(k)) by {
            lemma_skip_add(full, start, k);
        }
    }
    if phi_until_psi(psi, phi, s, x) {
        let i = choose|i: int| #![trigger s.skip(i)]
            0 <= i < s.len() && (forall|k: int| 0 <= k < i ==> !psi.holds(#[trigger] s.skip(k)))
                && phi.watches(s.skip(i), x);
        lemma_skip_add(full, start, i);
        if start + i >= end {
            lemma_skip_add(full, start, g - start);
            assert(!psi.holds(s.skip(g - start)));
        }
    }
}

/// The watch of `psi` collected before the first state `f` where `phi` fails.
proof fn collected_psi_while(psi: LTLExpr, phi: LTLExpr, full: Seq<Seq<bool>>, start: int, f: int, x: usize)
    requires
        0 <= start <= f <= full.len(),
        forall|i: int| start <= i < f ==> phi.holds(#[trigger] full.skip(i)),
        f < full.len() ==> !phi.holds(full.skip(f)),
    ensures
        collected(psi, full, start, f, StateFilter::Holds, x) == psi_while_phi(psi, phi, full.skip(start), x),
{
    let s = full.skip(start);
    if collected(psi, full, start, f, StateFilter::Holds, x) {
        let a = choose|a: int| #![trigger full.skip(a)]
            start <= a < f && StateFilter::Holds.admits(psi, full.skip(a)) && psi.watches(full.skip(a), x);
        lemma_skip_add(full, start, a - start);
        assert forall|k: int| 0 <= k <= a - start implies phi.holds(#[trigger] s.skip(k)) by {
            lemma_skip_add(full, start, k);
        }
    }
    if psi_while_phi(psi, phi, s, x) {
        let i = choose|i: int| #![trigger s.skip(i)]
            0 <= i < s.len() && (forall|k: int| 0 <= k <= i ==> phi.holds(#[trigger] s.skip(k)))
                && psi.holds(s.skip(i)) && psi.watches(s.skip(i), x);
        lemma_skip_add(full, start, i);
        if start + i >= f {
            lemma_skip_add(full, start, f - start);
            assert(phi.holds(s.skip(f - start)));
        }
    }
}

} // verus!
