//! The watch of an LTL expression on a history that may still be extended: the variables whose
//! change may change the partial result. An expression whose result is still undefined watches
//! nothing, since its result is decided only by states that are yet to come.
use vstd::prelude::*;
use crate::hard_policies::ltl::{
    hist_of, lemma_concat_contains, lemma_fits_suffix, lemma_skip_add, lemma_skip_skip, res_not,
    LTLBoolean, LTLModal, LTLExpr, LTLResult, StateFilter,
};

verus! {

broadcast use vstd::std_specs::vec::axiom_vec_index_decreases;

/// The partial result of `op` on `s`. It is opaque: reasoning about partial watches only needs
/// that it is the value that [`LTLExpr::partial`] returns, not how that value is computed.
#[verifier::opaque]
pub open spec fn partial_result(op: LTLExpr, s: Seq<Seq<bool>>) -> LTLResult {
    op.eval(s)
}

/// The history `s` without its first `i` states. It names the state at which a watch is taken
/// apart from the states before it, which a bound on all of them speaks of.
pub open spec fn suffix(s: Seq<Seq<bool>>, i: int) -> Seq<Seq<bool>> {
    s.skip(i)
}

impl LTLExpr {
    /// Whether the variable `x` belongs to the watch of the expression on the history `s`, which
    /// may still be extended.
    pub open spec fn pwatches(self, s: Seq<Seq<bool>>, x: usize) -> bool
        decreases self, s.len(),
    {
        match self {
            LTLExpr::Bool(_) => false,
            LTLExpr::Var(i) => x == i,
            LTLExpr::Boolean(b) => b.pwatches(s, x),
            LTLExpr::Modal(m) => m.pwatches(s, x),
        }
    }
}

impl LTLBoolean {
    /// Whether the variable `x` belongs to the watch of the expression on the history `s`, which
    /// may still be extended. It is the watch of [`LTLBoolean::watches`], with the partial result
    /// in place of the result; an undefined expression watches nothing, and an exclusive or (or
    /// equivalence) with an undefined operand neither.
    pub open spec fn pwatches(self, s: Seq<Seq<bool>>, x: usize) -> bool
        decreases self, s.len(),
    {
        match self {
            LTLBoolean::Not(a) => a.pwatches(s, x),
            LTLBoolean::Or(v) => match partial_result(LTLExpr::Boolean(self), s) {
                LTLResult::T => exists|j: int|
                    0 <= j < v.len() && partial_result(*v[j], s) == LTLResult::T && (#[trigger] v[j]).pwatches(s, x),
                LTLResult::F => exists|j: int| 0 <= j < v.len() && (#[trigger] v[j]).pwatches(s, x),
                LTLResult::U => false,
            },
            LTLBoolean::And(v) => match partial_result(LTLExpr::Boolean(self), s) {
                LTLResult::T => exists|j: int| 0 <= j < v.len() && (#[trigger] v[j]).pwatches(s, x),
                LTLResult::F => exists|j: int|
                    0 <= j < v.len() && partial_result(*v[j], s) == LTLResult::F && (#[trigger] v[j]).pwatches(s, x),
                LTLResult::U => false,
            },
            LTLBoolean::Xor(a, b) | LTLBoolean::Iff(a, b) => if partial_result(*a, s) == LTLResult::U
                || partial_result(*b, s) == LTLResult::U {
                false
            } else {
                a.pwatches(s, x) || b.pwatches(s, x)
            },
            LTLBoolean::Implies(a, b) => match partial_result(LTLExpr::Boolean(self), s) {
                LTLResult::T => (res_not(partial_result(*a, s)) == LTLResult::T && a.pwatches(s, x)) || (
                partial_result(*b, s) == LTLResult::T && b.pwatches(s, x)),
                LTLResult::F => a.pwatches(s, x) || b.pwatches(s, x),
                LTLResult::U => false,
            },
        }
    }
}

impl LTLModal {
    /// Whether the variable `x` belongs to the watch of the expression on the history `s`, which
    /// may still be extended. It is the watch of [`LTLModal::watches`], with the partial result
    /// in place of the result; an undefined expression watches nothing, and neither does `Next`
    /// when there is no next state yet.
    pub open spec fn pwatches(self, s: Seq<Seq<bool>>, x: usize) -> bool
        decreases self, s.len(),
    {
        match self {
            LTLModal::Now(phi) => phi.pwatches(s, x),
            LTLModal::Next(phi) => if s.len() >= 2 {
                phi.pwatches(s.skip(1), x)
            } else {
                false
            },
            LTLModal::Finally(phi) => match partial_result(LTLExpr::Modal(self), s) {
                LTLResult::T => exists|i: int| #![trigger s.skip(i)]
                    0 <= i < s.len() && partial_result(*phi, s.skip(i)) == LTLResult::T && phi.pwatches(s.skip(i), x),
                LTLResult::F => exists|i: int| #![trigger s.skip(i)] 0 <= i < s.len() && phi.pwatches(s.skip(i), x),
                LTLResult::U => false,
            },
            LTLModal::Globally(phi) => match partial_result(LTLExpr::Modal(self), s) {
                LTLResult::T => exists|i: int| #![trigger s.skip(i)] 0 <= i < s.len() && phi.pwatches(s.skip(i), x),
                LTLResult::F => exists|i: int| #![trigger s.skip(i)]
                    0 <= i < s.len() && partial_result(*phi, s.skip(i)) == LTLResult::F && phi.pwatches(s.skip(i), x),
                LTLResult::U => false,
            },
            LTLModal::Until(psi, phi) | LTLModal::WeakUntil(psi, phi) => match partial_result(LTLExpr::Modal(self), s) {
                LTLResult::T => (exists|i: int| #![trigger suffix(s, i)]
                    0 <= i < s.len() && (forall|k: int|
                        0 <= k <= i ==> partial_result(*phi, #[trigger] s.skip(k)) == LTLResult::F) && psi.pwatches(
                        suffix(s, i),
                        x,
                    )) || (exists|i: int| #![trigger suffix(s, i)]
                    0 <= i < s.len() && (forall|k: int|
                        0 <= k < i ==> partial_result(*psi, #[trigger] s.skip(k)) != LTLResult::F) && partial_result(*phi, suffix(s, i))
                        == LTLResult::T && phi.pwatches(suffix(s, i), x)),
                LTLResult::F => (exists|i: int| #![trigger s.skip(i)]
                    0 <= i < s.len() && partial_result(*psi, s.skip(i)) == LTLResult::F && psi.pwatches(s.skip(i), x))
                    || (exists|i: int| #![trigger s.skip(i)]
                    0 <= i < s.len() && partial_result(*phi, s.skip(i)) == LTLResult::F && phi.pwatches(s.skip(i), x)),
                LTLResult::U => false,
            },
            LTLModal::Release(psi, phi) | LTLModal::StrongRelease(psi, phi) => match partial_result(LTLExpr::Modal(self), s) {
                LTLResult::T => (exists|i: int| #![trigger suffix(s, i)]
                    0 <= i < s.len() && (forall|k: int|
                        0 <= k < i ==> partial_result(*psi, #[trigger] s.skip(k)) != LTLResult::T) && phi.pwatches(
                        suffix(s, i),
                        x,
                    )) || (exists|i: int| #![trigger suffix(s, i)]
                    0 <= i < s.len() && (forall|k: int|
                        0 <= k <= i ==> partial_result(*phi, #[trigger] s.skip(k)) != LTLResult::F) && partial_result(*psi, suffix(s, i))
                        == LTLResult::T && psi.pwatches(suffix(s, i), x)),
                LTLResult::F => (exists|i: int| #![trigger s.skip(i)]
                    0 <= i < s.len() && partial_result(*psi, s.skip(i)) == LTLResult::F && psi.pwatches(s.skip(i), x))
                    || (exists|i: int| #![trigger s.skip(i)]
                    0 <= i < s.len() && partial_result(*phi, s.skip(i)) == LTLResult::F && phi.pwatches(s.skip(i), x)),
                LTLResult::U => false,
            },
        }
    }
}

impl StateFilter {
    /// Whether the filter admits the state at the start of `s` for the operator `op`, judged by
    /// the partial result: `Holds` admits a true result and `Fails` a false one.
    pub open spec fn admits_partial(self, op: LTLExpr, s: Seq<Seq<bool>>) -> bool {
        match self {
            StateFilter::All => true,
            StateFilter::Holds => partial_result(op, s) == LTLResult::T,
            StateFilter::Fails => partial_result(op, s) == LTLResult::F,
        }
    }
}

/// Whether `x` is in the partial watch of `op` at some state in `[lo, hi)` that the filter admits.
pub open spec fn pcollected(
    op: LTLExpr,
    full: Seq<Seq<bool>>,
    lo: int,
    hi: int,
    filter: StateFilter,
    x: usize,
) -> bool {
    exists|i: int| #![trigger full.skip(i)]
        lo <= i < hi && filter.admits_partial(op, full.skip(i)) && op.pwatches(full.skip(i), x)
}

/// The first state in `[lo, len)` at which the partial result of `op` is `target` (if `want`),
/// or is not `target` (if not `want`); the length of the history if there is none.
fn first_result(op: &LTLExpr, history: &[Vec<bool>], lo: usize, target: LTLResult, want: bool) -> (r: usize)
    requires
        lo <= history@.len(),
        op.rows_fit(hist_of(history@).skip(lo as int)),
    ensures
        lo <= r <= history@.len(),
        forall|i: int| lo <= i < r ==> (partial_result(*op, #[trigger] hist_of(history@).skip(i)) == target) != want,
        r < history@.len() ==> (partial_result(*op, hist_of(history@).skip(r as int)) == target) == want,
{
    let ghost full = hist_of(history@);
    let n = history.len();
    let mut i = lo;
    while i < n
        invariant
            lo <= i <= n,
            n == history@.len(),
            full == hist_of(history@),
            op.rows_fit(full.skip(lo as int)),
            forall|k: int| lo <= k < i ==> (partial_result(*op, #[trigger] full.skip(k)) == target) != want,
        decreases n - i,
    {
        proof {
            lemma_fits_suffix(*op, full, lo as int, i as int);
        }
        let res = op.partial_from(history, i);
        assert(partial_result(*op, full.skip(i as int)) == res) by {
            reveal(partial_result);
        }
        if (res == target) == want {
            return i;
        }
        i += 1;
    }
    n
}

/// Collects the partial watch of `op` at every state in `[lo, hi)` that the filter admits.
fn collect_partial_watch(
    op: &LTLExpr,
    history: &[Vec<bool>],
    lo: usize,
    hi: usize,
    filter: StateFilter,
) -> (r: Vec<usize>)
    requires
        lo <= hi <= history@.len(),
        op.rows_fit(hist_of(history@).skip(lo as int)),
    ensures
        forall|x: usize| #[trigger] r@.contains(x) <==> pcollected(*op, hist_of(history@), lo as int, hi as int, filter, x),
    decreases op, 2nat,
{
    let ghost full = hist_of(history@);
    let mut acc: Vec<usize> = Vec::new();
    let mut i = lo;
    while i < hi
        invariant
            lo <= i <= hi <= history@.len(),
            full == hist_of(history@),
            op.rows_fit(full.skip(lo as int)),
            forall|x: usize| #[trigger] acc@.contains(x) <==> pcollected(*op, full, lo as int, i as int, filter, x),
        decreases hi - i,
    {
        proof {
            lemma_fits_suffix(*op, full, lo as int, i as int);
        }
        let take = match filter {
            StateFilter::All => true,
            StateFilter::Holds => {
                let res = op.partial_from(history, i);
                assert(partial_result(*op, full.skip(i as int)) == res) by {
                    reveal(partial_result);
                }
                res == LTLResult::T
            },
            StateFilter::Fails => {
                let res = op.partial_from(history, i);
                assert(partial_result(*op, full.skip(i as int)) == res) by {
                    reveal(partial_result);
                }
                res == LTLResult::F
            },
        };
        let ghost old_acc = acc@;
        if take {
            let mut w = op.watch_partial_from(history, i);
            let ghost wv = w@;
            acc.append(&mut w);
            proof {
                lemma_concat_contains(old_acc, wv);
                assert forall|x: usize| #[trigger] acc@.contains(x) <==> pcollected(*op, full, lo as int, i + 1, filter, x) by {
                    if pcollected(*op, full, lo as int, i + 1, filter, x) {
                        let k = choose|k: int| #![trigger full.skip(k)]
                            lo <= k < i + 1 && filter.admits_partial(*op, full.skip(k)) && op.pwatches(full.skip(k), x);
                        if k < i {
                            assert(old_acc.contains(x));
                        }
                    }
                }
            }
        } else {
            assert forall|x: usize| #[trigger] acc@.contains(x) <==> pcollected(*op, full, lo as int, i + 1, filter, x) by {
                if pcollected(*op, full, lo as int, i + 1, filter, x) {
                    let k = choose|k: int| #![trigger full.skip(k)]
                        lo <= k < i + 1 && filter.admits_partial(*op, full.skip(k)) && op.pwatches(full.skip(k), x);
                    assert(k < i);
                }
            }
        }
        i += 1;
    }
    acc
}

/// A partial watch collected over absolute states `[start, len)` is the partial watch over the
/// states of the history without its first `start` states.
pub proof fn lemma_pcollected_shift(
    op: LTLExpr,
    full: Seq<Seq<bool>>,
    start: int,
    filter: StateFilter,
    x: usize,
)
    requires
        0 <= start <= full.len(),
    ensures
        pcollected(op, full, start, full.len() as int, filter, x) <==> exists|i: int|
            #![trigger full.skip(start).skip(i)]
            0 <= i < full.skip(start).len() && filter.admits_partial(op, full.skip(start).skip(i))
                && op.pwatches(full.skip(start).skip(i), x),
{
    let s = full.skip(start);
    if pcollected(op, full, start, full.len() as int, filter, x) {
        let a = choose|a: int| #![trigger full.skip(a)]
            start <= a < full.len() && filter.admits_partial(op, full.skip(a)) && op.pwatches(full.skip(a), x);
        lemma_skip_add(full, start, a - start);
        assert(op.pwatches(s.skip(a - start), x));
    }
    if exists|i: int| #![trigger s.skip(i)] 0 <= i < s.len() && filter.admits_partial(op, s.skip(i)) && op.pwatches(s.skip(i), x) {
        let i = choose|i: int| #![trigger s.skip(i)]
            0 <= i < s.len() && filter.admits_partial(op, s.skip(i)) && op.pwatches(s.skip(i), x);
        lemma_skip_add(full, start, i);
        assert(op.pwatches(full.skip(start + i), x));
    }
}

impl LTLExpr {
    /// Extract the set of propositional variables, that need to change in order for the partial
    /// result of the operator to change. For this function, the history is not yet complete.
    pub fn watch_partial(&self, history: &[Vec<bool>]) -> (r: Vec<usize>)
        requires
            self.fits(hist_of(history@)),
        ensures
            forall|x: usize| #[trigger] r@.contains(x) <==> self.pwatches(hist_of(history@), x),
    {
        proof {
            assert(hist_of(history@).skip(0) =~= hist_of(history@));
        }
        self.watch_partial_from(history, 0)
    }

    /// Computes the partial watch on the history without its first `start` states.
    pub fn watch_partial_from(&self, history: &[Vec<bool>], start: usize) -> (r: Vec<usize>)
        requires
            start <= history@.len(),
            self.fits(hist_of(history@).skip(start as int)),
        ensures
            forall|x: usize| #[trigger] r@.contains(x) <==> self.pwatches(hist_of(history@).skip(start as int), x),
        decreases self, 1nat,
    {
        match self {
            LTLExpr::Bool(_) => Vec::new(),
            LTLExpr::Var(i) => {
                let r = vec![*i];
                assert(r@ =~= seq![*i]);
                r
            },
            LTLExpr::Boolean(b) => b.watch_partial_from(history, start),
            LTLExpr::Modal(m) => m.watch_partial_from(history, start),
        }
    }
}

impl LTLBoolean {
    /// Extract the set of propositional variables, that need to change in order for the partial
    /// result of the operator to change. For this function, the history is not yet complete.
    pub fn watch_partial(&self, history: &[Vec<bool>]) -> (r: Vec<usize>)
        requires
            self.fits(hist_of(history@)),
        ensures
            forall|x: usize| #[trigger] r@.contains(x) <==> self.pwatches(hist_of(history@), x),
    {
        proof {
            assert(hist_of(history@).skip(0) =~= hist_of(history@));
        }
        self.watch_partial_from(history, 0)
    }

    /// Computes the partial watch on the history without its first `start` states.
    pub fn watch_partial_from(&self, history: &[Vec<bool>], start: usize) -> (r: Vec<usize>)
        requires
            start <= history@.len(),
            self.fits(hist_of(history@).skip(start as int)),
        ensures
            forall|x: usize| #[trigger] r@.contains(x) <==> self.pwatches(hist_of(history@).skip(start as int), x),
        decreases self, 1nat,
    {
        let ghost s = hist_of(history@).skip(start as int);
        match self {
            LTLBoolean::Not(a) => a.watch_partial_from(history, start),
            LTLBoolean::Or(v) | LTLBoolean::And(v) => {
                let is_or = match self {
                    LTLBoolean::Or(_) => true,
                    _ => false,
                };
                let res = self.partial_from(history, start);
                assert(partial_result(LTLExpr::Boolean(*self), s) == res) by {
                    reveal(partial_result);
                }
                if res == LTLResult::U {
                    return Vec::new();
                }
                // a true disjunction watches its true operands, a false conjunction its false ones
                let select = is_or == (res == LTLResult::T);
                let mut acc: Vec<usize> = Vec::new();
                let mut j: usize = 0;
                while j < v.len()
                    invariant
                        j <= v.len(),
                        start <= history@.len(),
                        s == hist_of(history@).skip(start as int),
                        self.fits(s),
                        is_or ==> *self == LTLBoolean::Or(*v),
                        !is_or ==> *self == LTLBoolean::And(*v),
                        forall|x: usize| #[trigger] acc@.contains(x) <==> exists|k: int|
                            0 <= k < j && (select ==> partial_result(*v[k], s) == res) && (#[trigger] v[k]).pwatches(s, x),
                    decreases v.len() - j,
                {
                    proof {
                        reveal_with_fuel(LTLBoolean::vars_below, 2);
                        assert forall|k: int| 0 <= k < s.len() implies v[j as int].vars_below(
                            #[trigger] s[k].len(),
                        ) by {
                            assert(self.vars_below(s[k].len()));
                            if is_or {
                                assert(self->Or_0[j as int].vars_below(s[k].len()));
                            } else {
                                assert(self->And_0[j as int].vars_below(s[k].len()));
                            }
                        }
                        if is_or {
                            assert(decreases_to!(self => self->Or_0));
                            assert(decreases_to!(self->Or_0 => self->Or_0[j as int]));
                        } else {
                            assert(decreases_to!(self => self->And_0));
                            assert(decreases_to!(self->And_0 => self->And_0[j as int]));
                        }
                    }
                    let ghost old_acc = acc@;
                    let take = if select {
                        let r = v[j].partial_from(history, start);
                        assert(partial_result(*v[j as int], s) == r) by {
                            reveal(partial_result);
                        }
                        r == res
                    } else {
                        true
                    };
                    if take {
                        let mut w = v[j].watch_partial_from(history, start);
                        let ghost wv = w@;
                        acc.append(&mut w);
                        proof {
                            lemma_concat_contains(old_acc, wv);
                            assert forall|x: usize| #[trigger] acc@.contains(x) <==> exists|k: int|
                                0 <= k < j + 1 && (select ==> partial_result(*v[k], s) == res) && (#[trigger] v[k]).pwatches(s, x) by {
                                if exists|k: int| 0 <= k < j + 1 && (select ==> partial_result(*v[k], s) == res) && (#[trigger] v[k]).pwatches(s, x) {
                                    let k = choose|k: int| 0 <= k < j + 1 && (select ==> partial_result(*v[k], s) == res) && (#[trigger] v[k]).pwatches(s, x);
                                    if k < j {
                                        assert(old_acc.contains(x));
                                    }
                                }
                            }
                        }
                    } else {
                        proof {
                            assert forall|x: usize| #[trigger] acc@.contains(x) <==> exists|k: int|
                                0 <= k < j + 1 && (select ==> partial_result(*v[k], s) == res) && (#[trigger] v[k]).pwatches(s, x) by {
                                if exists|k: int| 0 <= k < j + 1 && (select ==> partial_result(*v[k], s) == res) && (#[trigger] v[k]).pwatches(s, x) {
                                    let k = choose|k: int| 0 <= k < j + 1 && (select ==> partial_result(*v[k], s) == res) && (#[trigger] v[k]).pwatches(s, x);
                                    assert(k < j);
                                }
                            }
                        }
                    }
                    j += 1;
                }
                acc
            },
            LTLBoolean::Xor(a, b) | LTLBoolean::Iff(a, b) => {
                let a_res = a.partial_from(history, start);
                let b_res = b.partial_from(history, start);
                assert(partial_result(**a, s) == a_res && partial_result(**b, s) == b_res) by {
                    reveal(partial_result);
                }
                if a_res == LTLResult::U || b_res == LTLResult::U {
                    return Vec::new();
                }
                let mut a_watch = a.watch_partial_from(history, start);
                let mut b_watch = b.watch_partial_from(history, start);
                proof {
                    lemma_concat_contains(a_watch@, b_watch@);
                }
                a_watch.append(&mut b_watch);
                a_watch
            },
            LTLBoolean::Implies(a, b) => {
                let res = self.partial_from(history, start);
                let a_res = a.partial_from(history, start);
                let b_res = b.partial_from(history, start);
                assert(partial_result(LTLExpr::Boolean(*self), s) == res && partial_result(**a, s) == a_res
                    && partial_result(**b, s) == b_res) by {
                    reveal(partial_result);
                }
                if res == LTLResult::U {
                    return Vec::new();
                }
                // a true implication watches its false premise and its true conclusion
                let mut a_watch = if res == LTLResult::F || a_res == LTLResult::F {
                    a.watch_partial_from(history, start)
                } else {
                    Vec::new()
                };
                let mut b_watch = if res == LTLResult::F || b_res == LTLResult::T {
                    b.watch_partial_from(history, start)
                } else {
                    Vec::new()
                };
                proof {
                    lemma_concat_contains(a_watch@, b_watch@);
                }
                a_watch.append(&mut b_watch);
                a_watch
            },
        }
    }
}

impl LTLModal {
    /// Extract the set of propositional variables, that need to change in order for the partial
    /// result of the operator to change. For this function, the history is not yet complete.
    pub fn watch_partial(&self, history: &[Vec<bool>]) -> (r: Vec<usize>)
        requires
            self.fits(hist_of(history@)),
        ensures
            forall|x: usize| #[trigger] r@.contains(x) <==> self.pwatches(hist_of(history@), x),
    {
        proof {
            assert(hist_of(history@).skip(0) =~= hist_of(history@));
        }
        self.watch_partial_from(history, 0)
    }

    /// Computes the partial watch on the history without its first `start` states.
    pub fn watch_partial_from(&self, history: &[Vec<bool>], start: usize) -> (r: Vec<usize>)
        requires
            start <= history@.len(),
            self.fits(hist_of(history@).skip(start as int)),
        ensures
            forall|x: usize| #[trigger] r@.contains(x) <==> self.pwatches(hist_of(history@).skip(start as int), x),
        decreases self, 1nat,
    {
        let ghost full = hist_of(history@);
        let ghost s = full.skip(start as int);
        let n = history.len();
        match self {
            LTLModal::Now(phi) => phi.watch_partial_from(history, start),
            LTLModal::Next(phi) => {
                if n - start >= 2 {
                    proof {
                        lemma_skip_skip(full, start as int);
                    }
                    phi.watch_partial_from(history, start + 1)
                } else {
                    Vec::new()
                }
            },
            LTLModal::Finally(phi) | LTLModal::Globally(phi) => {
                let is_finally = match self {
                    LTLModal::Finally(_) => true,
                    _ => false,
                };
                let res = self.partial_from(history, start);
                assert(partial_result(LTLExpr::Modal(*self), s) == res) by {
                    reveal(partial_result);
                }
                if res == LTLResult::U {
                    return Vec::new();
                }
                // a true `Finally` watches the states where phi is true, a false `Globally` those
                // where it is false; otherwise every state is watched
                let filter = if is_finally {
                    if res == LTLResult::T { StateFilter::Holds } else { StateFilter::All }
                } else {
                    if res == LTLResult::T { StateFilter::All } else { StateFilter::Fails }
                };
                let ghost gfilter = filter;
                let r = collect_partial_watch(phi, history, start, n, filter);
                proof {
                    assert forall|x: usize| #[trigger] r@.contains(x) <==> self.pwatches(s, x) by {
                        lemma_pcollected_shift(**phi, full, start as int, gfilter, x);
                    }
                }
                r
            },
            LTLModal::Until(psi, phi) | LTLModal::WeakUntil(psi, phi) => {
                let res = self.partial_from(history, start);
                assert(partial_result(LTLExpr::Modal(*self), s) == res) by {
                    reveal(partial_result);
                }
                if res == LTLResult::U {
                    Vec::new()
                } else if res == LTLResult::T {
                    // psi at every state before phi is first not false
                    let f = first_result(phi, history, start, LTLResult::F, false);
                    let mut psi_watch = collect_partial_watch(psi, history, start, f, StateFilter::All);
                    // phi where it is true, up to and including the first state where psi is false
                    let g = first_result(psi, history, start, LTLResult::F, true);
                    let end = if g < n { g + 1 } else { n };
                    let mut phi_watch = collect_partial_watch(phi, history, start, end, StateFilter::Holds);
                    let ghost pw = psi_watch@;
                    let ghost fw = phi_watch@;
                    psi_watch.append(&mut phi_watch);
                    proof {
                        lemma_concat_contains(pw, fw);
                        assert forall|x: usize| #[trigger] psi_watch@.contains(x) <==> self.pwatches(s, x) by {
                            unfold_until_partial(*self, s, x);
                            pcollected_psi_before(**psi, **phi, full, start as int, f as int, x);
                            pcollected_phi_while(**psi, **phi, full, start as int, g as int, end as int, x);
                        }
                    }
                    psi_watch
                } else {
                    let mut psi_watch = collect_partial_watch(psi, history, start, n, StateFilter::Fails);
                    let mut phi_watch = collect_partial_watch(phi, history, start, n, StateFilter::Fails);
                    let ghost pw = psi_watch@;
                    let ghost fw = phi_watch@;
                    psi_watch.append(&mut phi_watch);
                    proof {
                        lemma_concat_contains(pw, fw);
                        assert forall|x: usize| #[trigger] psi_watch@.contains(x) <==> self.pwatches(s, x) by {
                            lemma_pcollected_shift(**psi, full, start as int, StateFilter::Fails, x);
                            lemma_pcollected_shift(**phi, full, start as int, StateFilter::Fails, x);
                        }
                    }
                    psi_watch
                }
            },
            LTLModal::Release(psi, phi) | LTLModal::StrongRelease(psi, phi) => {
                let res = self.partial_from(history, start);
                assert(partial_result(LTLExpr::Modal(*self), s) == res) by {
                    reveal(partial_result);
                }
                if res == LTLResult::U {
                    Vec::new()
                } else if res == LTLResult::T {
                    // psi where it is true, before phi is first false
                    let f = first_result(phi, history, start, LTLResult::F, true);
                    let mut psi_watch = collect_partial_watch(psi, history, start, f, StateFilter::Holds);
                    // phi at every state up to and including the first state where psi is true
                    let g = first_result(psi, history, start, LTLResult::T, true);
                    let end = if g < n { g + 1 } else { n };
                    let mut phi_watch = collect_partial_watch(phi, history, start, end, StateFilter::All);
                    let ghost pw = psi_watch@;
                    let ghost fw = phi_watch@;
                    psi_watch.append(&mut phi_watch);
                    proof {
                        lemma_concat_contains(pw, fw);
                        assert forall|x: usize| #[trigger] psi_watch@.contains(x) <==> self.pwatches(s, x) by {
                            unfold_release_partial(*self, s, x);
                            pcollected_psi_while(**psi, **phi, full, start as int, f as int, x);
                            pcollected_phi_until(**psi, **phi, full, start as int, g as int, end as int, x);
                        }
                    }
                    psi_watch
                } else {
                    let mut psi_watch = collect_partial_watch(psi, history, start, n, StateFilter::Fails);
                    let mut phi_watch = collect_partial_watch(phi, history, start, n, StateFilter::Fails);
                    let ghost pw = psi_watch@;
                    let ghost fw = phi_watch@;
                    psi_watch.append(&mut phi_watch);
                    proof {
                        lemma_concat_contains(pw, fw);
                        assert forall|x: usize| #[trigger] psi_watch@.contains(x) <==> self.pwatches(s, x) by {
                            lemma_pcollected_shift(**psi, full, start as int, StateFilter::Fails, x);
                            lemma_pcollected_shift(**phi, full, start as int, StateFilter::Fails, x);
                        }
                    }
                    psi_watch
                }
            },
        }
    }
}

/// A true `Until` watches `psi` at a state up to which `phi` is false.
spec fn psi_before_phi(psi: LTLExpr, phi: LTLExpr, s: Seq<Seq<bool>>, x: usize) -> bool {
    exists|i: int| #![trigger suffix(s, i)]
        0 <= i < s.len() && (forall|k: int| 0 <= k <= i ==> partial_result(phi, #[trigger] s.skip(k)) == LTLResult::F)
            && psi.pwatches(suffix(s, i), x)
}

/// A true `Until` watches `phi` at a state where it is true, while `psi` was not false before.
spec fn phi_while_psi(psi: LTLExpr, phi: LTLExpr, s: Seq<Seq<bool>>, x: usize) -> bool {
    exists|i: int| #![trigger suffix(s, i)]
        0 <= i < s.len() && (forall|k: int| 0 <= k < i ==> partial_result(psi, #[trigger] s.skip(k)) != LTLResult::F)
            && partial_result(phi, suffix(s, i)) == LTLResult::T && phi.pwatches(suffix(s, i), x)
}

/// The partial watch of a true `Until` (or `WeakUntil`).
proof fn unfold_until_partial(m: LTLModal, s: Seq<Seq<bool>>, x: usize)
    requires
        m is Until || m is WeakUntil,
        partial_result(LTLExpr::Modal(m), s) == LTLResult::T,
    ensures
        m.pwatches(s, x) == (psi_before_phi(m.operands().0, m.operands().1, s, x) || phi_while_psi(
            m.operands().0,
            m.operands().1,
            s,
            x,
        )),
{
}

/// The partial watch of `psi` collected before the first state `f` where `phi` is not false.
proof fn pcollected_psi_before(psi: LTLExpr, phi: LTLExpr, full: Seq<Seq<bool>>, start: int, f: int, x: usize)
    requires
        0 <= start <= f <= full.len(),
        forall|i: int| start <= i < f ==> (partial_result(phi, #[trigger] full.skip(i)) == LTLResult::F) != false,
        f < full.len() ==> (partial_result(phi, full.skip(f)) == LTLResult::F) == false,
    ensures
        pcollected(psi, full, start, f, StateFilter::All, x) == psi_before_phi(psi, phi, full.skip(start), x),
{
    let s = full.skip(start);
    if pcollected(psi, full, start, f, StateFilter::All, x) {
        let a = choose|a: int| #![trigger full.skip(a)]
            start <= a < f && StateFilter::All.admits_partial(psi, full.skip(a)) && psi.pwatches(full.skip(a), x);
        lemma_skip_add(full, start, a - start);
        assert(suffix(s, a - start) == full.skip(a));
        assert forall|k: int| 0 <= k <= a - start implies partial_result(phi, #[trigger] s.skip(k)) == LTLResult::F by {
            lemma_skip_add(full, start, k);
        }
    }
    if psi_before_phi(psi, phi, s, x) {
        let i = choose|i: int| #![trigger suffix(s, i)]
            0 <= i < s.len() && (forall|k: int| 0 <= k <= i ==> partial_result(phi, #[trigger] s.skip(k)) == LTLResult::F)
                && psi.pwatches(suffix(s, i), x);
        lemma_skip_add(full, start, i);
        if start + i >= f {
            lemma_skip_add(full, start, f - start);
            assert(partial_result(phi, s.skip(f - start)) == LTLResult::F);
        }
    }
}

/// The partial watch of `phi` collected up to and including the first state `g` where `psi` is
/// false.
proof fn pcollected_phi_while(psi: LTLExpr, phi: LTLExpr, full: Seq<Seq<bool>>, start: int, g: int, end: int, x: usize)
    requires
        0 <= start <= g <= full.len(),
        start <= end <= full.len(),
        forall|k: int| start <= k < g ==> (partial_result(psi, #[trigger] full.skip(k)) == LTLResult::F) != true,
        g < full.len() ==> (partial_result(psi, full.skip(g)) == LTLResult::F) == true && end == g + 1,
        g == full.len() ==> end == full.len(),
    ensures
        pcollected(phi, full, start, end, StateFilter::Holds, x) == phi_while_psi(psi, phi, full.skip(start), x),
{
    let s = full.skip(start);
    if pcollected(phi, full, start, end, StateFilter::Holds, x) {
        let a = choose|a: int| #![trigger full.skip(a)]
            start <= a < end && StateFilter::Holds.admits_partial(phi, full.skip(a)) && phi.pwatches(full.skip(a), x);
        lemma_skip_add(full, start, a - start);
        assert(suffix(s, a - start) == full.skip(a));
        assert forall|k: int| 0 <= k < a - start implies partial_result(psi, #[trigger] s.skip(k)) != LTLResult::F by {
            lemma_skip_add(full, start, k);
        }
    }
    if phi_while_psi(psi, phi, s, x) {
        let i = choose|i: int| #![trigger suffix(s, i)]
            0 <= i < s.len() && (forall|k: int| 0 <= k < i ==> partial_result(psi, #[trigger] s.skip(k)) != LTLResult::F)
                && partial_result(phi, suffix(s, i)) == LTLResult::T && phi.pwatches(suffix(s, i), x);
        lemma_skip_add(full, start, i);
        if start + i >= end {
            lemma_skip_add(full, start, g - start);
            assert(partial_result(psi, s.skip(g - start)) != LTLResult::F);
        }
    }
}

/// A true `Release` watches `phi` at a state up to and including the first one where `psi` is
/// true.
spec fn phi_until_psi(psi: LTLExpr, phi: LTLExpr, s: Seq<Seq<bool>>, x: usize) -> bool {
    exists|i: int| #![trigger suffix(s, i)]
        0 <= i < s.len() && (forall|k: int| 0 <= k < i ==> partial_result(psi, #[trigger] s.skip(k)) != LTLResult::T)
            && phi.pwatches(suffix(s, i), x)
}

/// A true `Release` watches `psi` at a state where it is true, while `phi` was not false up to it.
spec fn psi_while_phi(psi: LTLExpr, phi: LTLExpr, s: Seq<Seq<bool>>, x: usize) -> bool {
    exists|i: int| #![trigger suffix(s, i)]
        0 <= i < s.len() && (forall|k: int| 0 <= k <= i ==> partial_result(phi, #[trigger] s.skip(k)) != LTLResult::F)
            && partial_result(psi, suffix(s, i)) == LTLResult::T && psi.pwatches(suffix(s, i), x)
}

/// The partial watch of a true `Release` (or `StrongRelease`).
proof fn unfold_release_partial(m: LTLModal, s: Seq<Seq<bool>>, x: usize)
    requires
        m is Release || m is StrongRelease,
        partial_result(LTLExpr::Modal(m), s) == LTLResult::T,
    ensures
        m.pwatches(s, x) == (phi_until_psi(m.operands().0, m.operands().1, s, x) || psi_while_phi(
            m.operands().0,
            m.operands().1,
            s,
            x,
        )),
{
}

/// The partial watch of `phi` collected up to and including the first state `g` where `psi` is
/// true.
proof fn pcollected_phi_until(psi: LTLExpr, phi: LTLExpr, full: Seq<Seq<bool>>, start: int, g: int, end: int, x: usize)
    requires
        0 <= start <= g <= full.len(),
        start <= end <= full.len(),
        forall|k: int| start <= k < g ==> (partial_result(psi, #[trigger] full.skip(k)) == LTLResult::T) != true,
        g < full.len() ==> (partial_result(psi, full.skip(g)) == LTLResult::T) == true && end == g + 1,
        g == full.len() ==> end == full.len(),
    ensures
        pcollected(phi, full, start, end, StateFilter::All, x) == phi_until_psi(psi, phi, full.skip(start), x),
{
    let s = full.skip(start);
    if pcollected(phi, full, start, end, StateFilter::All, x) {
        let a = choose|a: int| #![trigger full.skip(a)]
            start <= a < end && StateFilter::All.admits_partial(phi, full.skip(a)) && phi.pwatches(full.skip(a), x);
        lemma_skip_add(full, start, a - start);
        assert(suffix(s, a - start) == full.skip(a));
        assert forall|k: int| 0 <= k < a - start implies partial_result(psi, #[trigger] s.skip(k)) != LTLResult::T by {
            lemma_skip_add(full, start, k);
        }
    }
    if phi_until_psi(psi, phi, s, x) {
        let i = choose|i: int| #![trigger suffix(s, i)]
            0 <= i < s.len() && (forall|k: int| 0 <= k < i ==> partial_result(psi, #[trigger] s.skip(k)) != LTLResult::T)
                && phi.pwatches(suffix(s, i), x);
        lemma_skip_add(full, start, i);
        if start + i >= end {
            lemma_skip_add(full, start, g - start);
            assert(partial_result(psi, s.skip(g - start)) != LTLResult::T);
        }
    }
}

/// The partial watch of `psi` collected before the first state `f` where `phi` is false.
proof fn pcollected_psi_while(psi: LTLExpr, phi: LTLExpr, full: Seq<Seq<bool>>, start: int, f: int, x: usize)
    requires
        0 <= start <= f <= full.len(),
        forall|i: int| start <= i < f ==> (partial_result(phi, #[trigger] full.skip(i)) == LTLResult::F) != true,
        f < full.len() ==> (partial_result(phi, full.skip(f)) == LTLResult::F) == true,
    ensures
        pcollected(psi, full, start, f, StateFilter::Holds, x) == psi_while_phi(psi, phi, full.skip(start), x),
{
    let s = full.skip(start);
    if pcollected(psi, full, start, f, StateFilter::Holds, x) {
        let a = choose|a: int| #![trigger full.skip(a)]
            start <= a < f && StateFilter::Holds.admits_partial(psi, full.skip(a)) && psi.pwatches(full.skip(a), x);
        lemma_skip_add(full, start, a - start);
        assert(suffix(s, a - start) == full.skip(a));
        assert forall|k: int| 0 <= k <= a - start implies partial_result(phi, #[trigger] s.skip(k)) != LTLResult::F by {
            lemma_skip_add(full, start, k);
        }
    }
    if psi_while_phi(psi, phi, s, x) {
        let i = choose|i: int| #![trigger suffix(s, i)]
            0 <= i < s.len() && (forall|k: int| 0 <= k <= i ==> partial_result(phi, #[trigger] s.skip(k)) != LTLResult::F)
                && partial_result(psi, suffix(s, i)) == LTLResult::T && psi.pwatches(suffix(s, i), x);
        lemma_skip_add(full, start, i);
        if start + i >= f {
            lemma_skip_add(full, start, f - start);
            assert(partial_result(phi, s.skip(f - start)) != LTLResult::F);
        }
    }
}


impl LTLExpr {
    /// Whether the variable `x` occurs in the expression.
    pub open spec fn mentions(self, x: usize) -> bool
        decreases self, 0nat,
    {
        match self {
            LTLExpr::Bool(_) => false,
            LTLExpr::Var(i) => x == i,
            LTLExpr::Boolean(b) => b.mentions(x),
            LTLExpr::Modal(m) => m.mentions(x),
        }
    }
}

impl LTLBoolean {
    /// Whether the variable `x` occurs in the expression.
    pub open spec fn mentions(self, x: usize) -> bool
        decreases self, 0nat,
    {
        match self {
            LTLBoolean::Not(a) => a.mentions(x),
            LTLBoolean::Or(v) => exists|j: int| 0 <= j < v.len() && (#[trigger] v[j]).mentions(x),
            LTLBoolean::And(v) => exists|j: int| 0 <= j < v.len() && (#[trigger] v[j]).mentions(x),
            LTLBoolean::Xor(a, b) => a.mentions(x) || b.mentions(x),
            LTLBoolean::Implies(a, b) => a.mentions(x) || b.mentions(x),
            LTLBoolean::Iff(a, b) => a.mentions(x) || b.mentions(x),
        }
    }
}

impl LTLModal {
    /// Whether the variable `x` occurs in the expression.
    pub open spec fn mentions(self, x: usize) -> bool
        decreases self, 0nat,
    {
        match self {
            LTLModal::Now(a) => a.mentions(x),
            LTLModal::Next(a) => a.mentions(x),
            LTLModal::Finally(a) => a.mentions(x),
            LTLModal::Globally(a) => a.mentions(x),
            LTLModal::Until(a, b) => a.mentions(x) || b.mentions(x),
            LTLModal::Release(a, b) => a.mentions(x) || b.mentions(x),
            LTLModal::WeakUntil(a, b) => a.mentions(x) || b.mentions(x),
            LTLModal::StrongRelease(a, b) => a.mentions(x) || b.mentions(x),
        }
    }
}

/// The operand of an undefined negation is undefined.
proof fn lemma_partial_not(b: LTLBoolean, s: Seq<Seq<bool>>)
    requires
        b is Not,
        partial_result(LTLExpr::Boolean(b), s) == LTLResult::U,
    ensures
        partial_result(*b->Not_0, s) == LTLResult::U,
{
    reveal(partial_result);
}

/// An undefined exclusive or (or equivalence) has an undefined operand.
proof fn lemma_partial_xor(b: LTLBoolean, s: Seq<Seq<bool>>)
    requires
        partial_result(LTLExpr::Boolean(b), s) == LTLResult::U,
    ensures
        b matches LTLBoolean::Xor(p, q) ==> partial_result(*p, s) == LTLResult::U || partial_result(*q, s) == LTLResult::U,
        b matches LTLBoolean::Iff(p, q) ==> partial_result(*p, s) == LTLResult::U || partial_result(*q, s) == LTLResult::U,
{
    reveal(partial_result);
}

/// The operand of an undefined `Now`, or of an undefined `Next` on a history of two states or
/// more, is undefined there.
proof fn lemma_partial_now_next(m: LTLModal, s: Seq<Seq<bool>>)
    requires
        partial_result(LTLExpr::Modal(m), s) == LTLResult::U,
    ensures
        m matches LTLModal::Now(phi) ==> partial_result(*phi, s) == LTLResult::U,
        m is Next && s.len() >= 2 ==> partial_result(*m->Next_0, s.skip(1)) == LTLResult::U,
{
    reveal(partial_result);
}

/// Where the partial result of an expression is undefined, its partial watch is empty.
pub proof fn lemma_undefined_watches_nothing(e: LTLExpr, s: Seq<Seq<bool>>, x: usize)
    requires
        partial_result(e, s) == LTLResult::U,
    ensures
        !e.pwatches(s, x),
    decreases e, 1nat,
{
    match e {
        LTLExpr::Boolean(b) => lemma_boolean_undefined(b, s, x),
        LTLExpr::Modal(m) => lemma_modal_undefined(m, s, x),
        LTLExpr::Var(_) => {
            assert(false) by {
                reveal(partial_result);
            }
        },
        _ => {},
    }
}

/// See `lemma_undefined_watches_nothing`.
pub proof fn lemma_boolean_undefined(b: LTLBoolean, s: Seq<Seq<bool>>, x: usize)
    requires
        partial_result(LTLExpr::Boolean(b), s) == LTLResult::U,
    ensures
        !b.pwatches(s, x),
    decreases b, 0nat,
{
    match b {
        LTLBoolean::Not(a) => {
            lemma_partial_not(b, s);
            lemma_undefined_watches_nothing(*a, s, x);
        },
        LTLBoolean::Xor(_, _) | LTLBoolean::Iff(_, _) => lemma_partial_xor(b, s),
        _ => {},
    }
}

/// See `lemma_undefined_watches_nothing`.
pub proof fn lemma_modal_undefined(m: LTLModal, s: Seq<Seq<bool>>, x: usize)
    requires
        partial_result(LTLExpr::Modal(m), s) == LTLResult::U,
    ensures
        !m.pwatches(s, x),
    decreases m, 0nat,
{
    lemma_partial_now_next(m, s);
    match m {
        LTLModal::Now(phi) => lemma_undefined_watches_nothing(*phi, s, x),
        LTLModal::Next(phi) => if s.len() >= 2 {
            lemma_undefined_watches_nothing(*phi, s.skip(1), x);
        },
        _ => {},
    }
}

/// Every variable of the partial watch of an expression occurs in it.
pub proof fn lemma_watched_occurs(e: LTLExpr, s: Seq<Seq<bool>>, x: usize)
    requires
        e.pwatches(s, x),
    ensures
        e.mentions(x),
    decreases e, 1nat,
{
    match e {
        LTLExpr::Boolean(b) => lemma_boolean_watched_occurs(b, s, x),
        LTLExpr::Modal(m) => lemma_modal_watched_occurs(m, s, x),
        _ => {},
    }
}

/// See `lemma_watched_occurs`.
pub proof fn lemma_boolean_watched_occurs(b: LTLBoolean, s: Seq<Seq<bool>>, x: usize)
    requires
        b.pwatches(s, x),
    ensures
        b.mentions(x),
    decreases b, 0nat,
{
    match b {
        LTLBoolean::Not(a) => lemma_watched_occurs(*a, s, x),
        LTLBoolean::Or(v) | LTLBoolean::And(v) => {
            let j = choose|j: int| 0 <= j < v.len() && (#[trigger] v[j]).pwatches(s, x);
            assert(decreases_to!(b => v));
            lemma_watched_occurs(*v[j], s, x);
            assert(v[j].mentions(x));
        },
        LTLBoolean::Xor(p, q) | LTLBoolean::Iff(p, q) | LTLBoolean::Implies(p, q) => {
            if p.pwatches(s, x) {
                lemma_watched_occurs(*p, s, x);
            } else {
                lemma_watched_occurs(*q, s, x);
            }
        },
    }
}

/// See `lemma_watched_occurs`.
pub proof fn lemma_modal_watched_occurs(m: LTLModal, s: Seq<Seq<bool>>, x: usize)
    requires
        m.pwatches(s, x),
    ensures
        m.mentions(x),
    decreases m, 0nat,
{
    match m {
        LTLModal::Now(phi) => lemma_watched_occurs(*phi, s, x),
        LTLModal::Next(phi) => lemma_watched_occurs(*phi, s.skip(1), x),
        LTLModal::Finally(phi) | LTLModal::Globally(phi) => {
            let i = choose|i: int| #![trigger s.skip(i)] 0 <= i < s.len() && phi.pwatches(s.skip(i), x);
            lemma_watched_occurs(*phi, s.skip(i), x);
        },
        LTLModal::Until(psi, phi) | LTLModal::WeakUntil(psi, phi) | LTLModal::Release(psi, phi)
        | LTLModal::StrongRelease(psi, phi) => {
            if exists|i: int| #![trigger s.skip(i)] 0 <= i < s.len() && psi.pwatches(s.skip(i), x) {
                let i = choose|i: int| #![trigger s.skip(i)] 0 <= i < s.len() && psi.pwatches(s.skip(i), x);
                lemma_watched_occurs(*psi, s.skip(i), x);
            } else {
                let i = choose|i: int| #![trigger s.skip(i)] 0 <= i < s.len() && phi.pwatches(s.skip(i), x);
                lemma_watched_occurs(*phi, s.skip(i), x);
            }
        },
    }
}

} // verus!
