//! # Operators of LTL
//!
//! Every kind of operator (a constant, a propositional variable, a boolean or a temporal modal
//! operator) is an [`LTLExpr`], and can be checked, evaluated and watched as that expression.
use vstd::prelude::*;
use crate::hard_policies::ltl::{hist_of, LTLBoolean, LTLExpr, LTLModal, LTLResult};
use crate::hard_policies::repr::var_repr;

verus! {

broadcast use vstd::std_specs::vec::axiom_vec_index_decreases;

/// # Operators of LTL
///
/// An operator may either be a simple propositional variable, a boolean or a temporal modal
/// operator.
pub trait LTLOperator {
    /// The expression of the operator.
    spec fn expr(&self) -> LTLExpr;

    /// Checks if the operator holds for the given history. For this, it is assumed that the
    /// sequence is finished!
    fn check(&self, history: &[Vec<bool>]) -> (r: bool)
        requires
            self.expr().fits(hist_of(history@)),
        ensures
            r == self.expr().holds(hist_of(history@)),
    ;

    /// Checks if the operator holds for the given history, assuming that we have only a partial
    /// sequence.
    fn partial(&self, history: &[Vec<bool>]) -> (r: LTLResult)
        requires
            self.expr().fits(hist_of(history@)),
        ensures
            r == self.expr().eval(hist_of(history@)),
    ;

    /// Extract the set of propositional variables, that need to change in order for the result of
    /// the operator to change. Not all variables in the returned set need to change, but only a
    /// subset.
    fn watch(&self, history: &[Vec<bool>]) -> (r: Vec<usize>)
        requires
            self.expr().fits(hist_of(history@)),
        ensures
            forall|x: usize| #[trigger] r@.contains(x) <==> self.expr().watches(hist_of(history@), x),
            r@ == self.expr().watch_at(hist_of(history@), 0),
    ;

    /// Extract the set of propositional variables, that need to change in order for the partial
    /// result of the operator to change. For this function, the history is not yet complete.
    fn watch_partial(&self, history: &[Vec<bool>]) -> (r: Vec<usize>)
        requires
            self.expr().fits(hist_of(history@)),
        ensures
            forall|x: usize| #[trigger] r@.contains(x) <==> self.expr().pwatches(hist_of(history@), x),
    ;

    /// represent the operator as a string
    fn repr(&self) -> (r: String)
        ensures
            r@ == self.expr().repr_spec(),
    ;
}

impl LTLOperator for LTLExpr {
    open spec fn expr(&self) -> LTLExpr {
        *self
    }

    fn check(&self, history: &[Vec<bool>]) -> (r: bool) {
        LTLExpr::check(self, history)
    }

    fn partial(&self, history: &[Vec<bool>]) -> (r: LTLResult) {
        LTLExpr::partial(self, history)
    }

    fn watch(&self, history: &[Vec<bool>]) -> (r: Vec<usize>) {
        LTLExpr::watch(self, history)
    }

    fn watch_partial(&self, history: &[Vec<bool>]) -> (r: Vec<usize>) {
        LTLExpr::watch_partial(self, history)
    }

    fn repr(&self) -> (r: String) {
        LTLExpr::repr(self)
    }
}

impl LTLOperator for LTLBoolean {
    open spec fn expr(&self) -> LTLExpr {
        LTLExpr::Boolean(*self)
    }

    fn check(&self, history: &[Vec<bool>]) -> (r: bool) {
        LTLBoolean::check(self, history)
    }

    fn partial(&self, history: &[Vec<bool>]) -> (r: LTLResult) {
        LTLBoolean::partial(self, history)
    }

    fn watch(&self, history: &[Vec<bool>]) -> (r: Vec<usize>) {
        LTLBoolean::watch(self, history)
    }

    fn watch_partial(&self, history: &[Vec<bool>]) -> (r: Vec<usize>) {
        LTLBoolean::watch_partial(self, history)
    }

    fn repr(&self) -> (r: String) {
        LTLBoolean::repr(self)
    }
}

impl LTLOperator for LTLModal {
    open spec fn expr(&self) -> LTLExpr {
        LTLExpr::Modal(*self)
    }

    fn check(&self, history: &[Vec<bool>]) -> (r: bool) {
        LTLModal::check(self, history)
    }

    fn partial(&self, history: &[Vec<bool>]) -> (r: LTLResult) {
        LTLModal::partial(self, history)
    }

    fn watch(&self, history: &[Vec<bool>]) -> (r: Vec<usize>) {
        LTLModal::watch(self, history)
    }

    fn watch_partial(&self, history: &[Vec<bool>]) -> (r: Vec<usize>) {
        LTLModal::watch_partial(self, history)
    }

    fn repr(&self) -> (r: String) {
        LTLModal::repr(self)
    }
}

impl LTLOperator for bool {
    open spec fn expr(&self) -> LTLExpr {
        LTLExpr::Bool(*self)
    }

    fn check(&self, history: &[Vec<bool>]) -> (r: bool) {
        *self
    }

    fn partial(&self, history: &[Vec<bool>]) -> (r: LTLResult) {
        LTLResult::from(*self)
    }

    fn watch(&self, history: &[Vec<bool>]) -> (r: Vec<usize>) {
        Vec::new()
    }

    fn watch_partial(&self, history: &[Vec<bool>]) -> (r: Vec<usize>) {
        Vec::new()
    }

    fn repr(&self) -> (r: String) {
        LTLExpr::Bool(*self).repr()
    }
}

impl LTLOperator for usize {
    open spec fn expr(&self) -> LTLExpr {
        LTLExpr::Var(*self)
    }

    fn check(&self, history: &[Vec<bool>]) -> (r: bool) {
        assert(hist_of(history@)[0] == history@[0]@);
        history[0][*self]
    }

    fn partial(&self, history: &[Vec<bool>]) -> (r: LTLResult) {
        assert(hist_of(history@)[0] == history@[0]@);
        LTLResult::from(history[0][*self])
    }

    fn watch(&self, history: &[Vec<bool>]) -> (r: Vec<usize>) {
        let r = vec![*self];
        assert(r@ =~= seq![*self]);
        r
    }

    fn watch_partial(&self, history: &[Vec<bool>]) -> (r: Vec<usize>) {
        let r = vec![*self];
        assert(r@ =~= seq![*self]);
        r
    }

    fn repr(&self) -> (r: String) {
        var_repr(*self)
    }
}

impl LTLExpr {
    /// Whether `self` and `other` are the same expression, operand by operand.
    pub open spec fn same_as(self, other: LTLExpr) -> bool
        decreases self, 0nat,
    {
        match (self, other) {
            (LTLExpr::Bool(a), LTLExpr::Bool(b)) => a == b,
            (LTLExpr::Var(a), LTLExpr::Var(b)) => a == b,
            (LTLExpr::Boolean(a), LTLExpr::Boolean(b)) => a.same_as(b),
            (LTLExpr::Modal(a), LTLExpr::Modal(b)) => a.same_as(b),
            _ => false,
        }
    }

    /// A copy of the expression, with every operand copied.
    pub fn deep_clone(&self) -> (r: LTLExpr)
        ensures
            self.same_as(r),
        decreases self,
    {
        match self {
            LTLExpr::Bool(b) => LTLExpr::Bool(*b),
            LTLExpr::Var(i) => LTLExpr::Var(*i),
            LTLExpr::Boolean(b) => LTLExpr::Boolean(b.deep_clone()),
            LTLExpr::Modal(m) => LTLExpr::Modal(m.deep_clone()),
        }
    }
}

/// Copies every operand of `v`.
fn clone_operands(v: &Vec<Box<LTLExpr>>) -> (r: Vec<Box<LTLExpr>>)
    ensures
        r@.len() == v@.len(),
        forall|j: int| 0 <= j < v@.len() ==> (#[trigger] v@[j]).same_as(*r@[j]),
    decreases v,
{
    let mut r: Vec<Box<LTLExpr>> = Vec::new();
    let mut j: usize = 0;
    while j < v.len()
        invariant
            j <= v@.len(),
            r@.len() == j,
            forall|k: int| 0 <= k < j ==> (#[trigger] v@[k]).same_as(*r@[k]),
        decreases v@.len() - j,
    {
        proof {
            assert(decreases_to!(v => v@[j as int]));
        }
        r.push(Box::new(v[j].deep_clone()));
        j += 1;
    }
    r
}

impl LTLBoolean {
    /// Whether `self` and `other` are the same expression, operand by operand.
    pub open spec fn same_as(self, other: LTLBoolean) -> bool
        decreases self, 0nat,
    {
        match (self, other) {
            (LTLBoolean::Not(a), LTLBoolean::Not(b)) => a.same_as(*b),
            (LTLBoolean::Or(v), LTLBoolean::Or(w)) => v.len() == w.len() && forall|j: int|
                0 <= j < v.len() ==> (#[trigger] v[j]).same_as(*w[j]),
            (LTLBoolean::And(v), LTLBoolean::And(w)) => v.len() == w.len() && forall|j: int|
                0 <= j < v.len() ==> (#[trigger] v[j]).same_as(*w[j]),
            (LTLBoolean::Xor(a, b), LTLBoolean::Xor(c, d)) => a.same_as(*c) && b.same_as(*d),
            (LTLBoolean::Implies(a, b), LTLBoolean::Implies(c, d)) => a.same_as(*c) && b.same_as(*d),
            (LTLBoolean::Iff(a, b), LTLBoolean::Iff(c, d)) => a.same_as(*c) && b.same_as(*d),
            _ => false,
        }
    }

    /// A copy of the expression, with every operand copied.
    pub fn deep_clone(&self) -> (r: LTLBoolean)
        ensures
            self.same_as(r),
        decreases self,
    {
        match self {
            LTLBoolean::Not(a) => LTLBoolean::Not(Box::new(a.deep_clone())),
            LTLBoolean::Or(v) => {
                proof {
                    assert(decreases_to!(self => self->Or_0));
                }
                LTLBoolean::Or(clone_operands(v))
            },
            LTLBoolean::And(v) => {
                proof {
                    assert(decreases_to!(self => self->And_0));
                }
                LTLBoolean::And(clone_operands(v))
            },
            LTLBoolean::Xor(a, b) => LTLBoolean::Xor(Box::new(a.deep_clone()), Box::new(b.deep_clone())),
            LTLBoolean::Implies(a, b) => LTLBoolean::Implies(
                Box::new(a.deep_clone()),
                Box::new(b.deep_clone()),
            ),
            LTLBoolean::Iff(a, b) => LTLBoolean::Iff(Box::new(a.deep_clone()), Box::new(b.deep_clone())),
        }
    }
}

impl LTLModal {
    /// Whether `self` and `other` are the same expression, operand by operand.
    pub open spec fn same_as(self, other: LTLModal) -> bool
        decreases self, 0nat,
    {
        match (self, other) {
            (LTLModal::Now(a), LTLModal::Now(b)) => a.same_as(*b),
            (LTLModal::Next(a), LTLModal::Next(b)) => a.same_as(*b),
            (LTLModal::Finally(a), LTLModal::Finally(b)) => a.same_as(*b),
            (LTLModal::Globally(a), LTLModal::Globally(b)) => a.same_as(*b),
            (LTLModal::Until(a, b), LTLModal::Until(c, d)) => a.same_as(*c) && b.same_as(*d),
            (LTLModal::Release(a, b), LTLModal::Release(c, d)) => a.same_as(*c) && b.same_as(*d),
            (LTLModal::WeakUntil(a, b), LTLModal::WeakUntil(c, d)) => a.same_as(*c) && b.same_as(*d),
            (LTLModal::StrongRelease(a, b), LTLModal::StrongRelease(c, d)) => a.same_as(*c) && b.same_as(
                *d,
            ),
            _ => false,
        }
    }

    /// A copy of the expression, with every operand copied.
    pub fn deep_clone(&self) -> (r: LTLModal)
        ensures
            self.same_as(r),
        decreases self,
    {
        match self {
            LTLModal::Now(a) => LTLModal::Now(Box::new(a.deep_clone())),
            LTLModal::Next(a) => LTLModal::Next(Box::new(a.deep_clone())),
            LTLModal::Finally(a) => LTLModal::Finally(Box::new(a.deep_clone())),
            LTLModal::Globally(a) => LTLModal::Globally(Box::new(a.deep_clone())),
            LTLModal::Until(a, b) => LTLModal::Until(Box::new(a.deep_clone()), Box::new(b.deep_clone())),
            LTLModal::Release(a, b) => LTLModal::Release(Box::new(a.deep_clone()), Box::new(b.deep_clone())),
            LTLModal::WeakUntil(a, b) => LTLModal::WeakUntil(
                Box::new(a.deep_clone()),
                Box::new(b.deep_clone()),
            ),
            LTLModal::StrongRelease(a, b) => LTLModal::StrongRelease(
                Box::new(a.deep_clone()),
                Box::new(b.deep_clone()),
            ),
        }
    }
}

/// Cloning an operator into a boxed expression.
pub trait LTLBoxClone {
    /// The expression that is cloned.
    spec fn cloned_expr(&self) -> LTLExpr;

    /// A boxed copy of the expression, with every operand copied.
    fn box_clone(&self) -> (r: Box<LTLExpr>)
        ensures
            self.cloned_expr().same_as(*r),
    ;
}

impl LTLBoxClone for LTLExpr {
    open spec fn cloned_expr(&self) -> LTLExpr {
        *self
    }

    fn box_clone(&self) -> (r: Box<LTLExpr>) {
        Box::new(self.deep_clone())
    }
}

impl LTLBoxClone for LTLBoolean {
    open spec fn cloned_expr(&self) -> LTLExpr {
        LTLExpr::Boolean(*self)
    }

    fn box_clone(&self) -> (r: Box<LTLExpr>) {
        Box::new(LTLExpr::Boolean(self.deep_clone()))
    }
}

impl LTLBoxClone for LTLModal {
    open spec fn cloned_expr(&self) -> LTLExpr {
        LTLExpr::Modal(*self)
    }

    fn box_clone(&self) -> (r: Box<LTLExpr>) {
        Box::new(LTLExpr::Modal(self.deep_clone()))
    }
}

impl Clone for LTLExpr {
    fn clone(&self) -> (r: Self)
        ensures
            self.same_as(r),
    {
        self.deep_clone()
    }
}

impl Clone for LTLBoolean {
    fn clone(&self) -> (r: Self)
        ensures
            self.same_as(r),
    {
        self.deep_clone()
    }
}

impl Clone for LTLModal {
    fn clone(&self) -> (r: Self)
        ensures
            self.same_as(r),
    {
        self.deep_clone()
    }
}

} // verus!
