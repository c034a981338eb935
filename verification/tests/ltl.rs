use snowcap::hard_policies::{LTLBoolean, LTLExpr, LTLModal, LTLOperator, LTLResult};

const T: bool = true;
const F: bool = false;
const LT: LTLResult = LTLResult::T;
const LF: LTLResult = LTLResult::F;
const LU: LTLResult = LTLResult::U;

fn var(i: usize) -> Box<LTLExpr> {
    Box::new(LTLExpr::Var(i))
}

fn cst(x: bool) -> Box<LTLExpr> {
    Box::new(LTLExpr::Bool(x))
}

fn m(x: LTLModal) -> Box<LTLExpr> {
    Box::new(LTLExpr::Modal(x))
}

fn b(x: LTLBoolean) -> Box<LTLExpr> {
    Box::new(LTLExpr::Boolean(x))
}

fn u() -> LTLModal {
    LTLModal::Globally(cst(T))
}

#[test]
fn modal_now() {
    let x = LTLModal::Now(var(0));
    assert_eq!(F, x.check(&vec![vec![F], vec![T], vec![F]]));
    assert_eq!(T, x.check(&vec![vec![T], vec![T], vec![T]]));
    assert_eq!(T, x.check(&vec![vec![T], vec![F], vec![T]]));
    assert_eq!(T, x.check(&vec![vec![T], vec![F], vec![F]]));
}

#[test]
fn modal_now_partial() {
    let x = LTLModal::Now(var(0));
    assert_eq!(LF, x.partial(&vec![vec![F], vec![T], vec![F]]));
    assert_eq!(LT, x.partial(&vec![vec![T], vec![T], vec![T]]));
    assert_eq!(LT, x.partial(&vec![vec![T], vec![F], vec![T]]));
    assert_eq!(LT, x.partial(&vec![vec![T], vec![F], vec![F]]));
}

#[test]
fn modal_next() {
    let x = LTLModal::Next(var(0));
    assert_eq!(F, x.check(&vec![vec![T], vec![F], vec![F]]));
    assert_eq!(F, x.check(&vec![vec![F], vec![F], vec![F]]));
    assert_eq!(F, x.check(&vec![vec![T], vec![F], vec![T]]));
    assert_eq!(T, x.check(&vec![vec![T], vec![T], vec![F]]));
    assert_eq!(T, x.check(&vec![vec![F], vec![T], vec![F]]));
    assert_eq!(T, x.check(&vec![vec![T], vec![T], vec![T]]));
    assert_eq!(T, x.check(&vec![vec![T]]));
    assert_eq!(F, x.check(&vec![vec![F]]));
}

#[test]
fn modal_next_partial() {
    let x = LTLModal::Next(var(0));
    assert_eq!(LF, x.partial(&vec![vec![T], vec![F], vec![F]]));
    assert_eq!(LF, x.partial(&vec![vec![F], vec![F], vec![F]]));
    assert_eq!(LF, x.partial(&vec![vec![T], vec![F], vec![T]]));
    assert_eq!(LT, x.partial(&vec![vec![T], vec![T], vec![F]]));
    assert_eq!(LT, x.partial(&vec![vec![F], vec![T], vec![F]]));
    assert_eq!(LT, x.partial(&vec![vec![T], vec![T], vec![T]]));
    assert_eq!(LU, x.partial(&vec![vec![T]]));
    assert_eq!(LU, x.partial(&vec![vec![F]]));
}

#[test]
fn modal_twice_next() {
    let x = LTLModal::Next(m(LTLModal::Next(var(0))));
    assert_eq!(F, x.check(&vec![vec![T], vec![F], vec![F]]));
    assert_eq!(F, x.check(&vec![vec![F], vec![F], vec![F]]));
    assert_eq!(F, x.check(&vec![vec![T], vec![T], vec![F]]));
    assert_eq!(T, x.check(&vec![vec![T], vec![F], vec![T]]));
    assert_eq!(T, x.check(&vec![vec![F], vec![F], vec![T]]));
    assert_eq!(T, x.check(&vec![vec![T], vec![T], vec![T]]));
    assert_eq!(F, x.check(&vec![vec![F], vec![F]]));
    assert_eq!(T, x.check(&vec![vec![F], vec![T]]));
    assert_eq!(F, x.check(&vec![vec![T], vec![F]]));
    assert_eq!(T, x.check(&vec![vec![T], vec![T]]));
    assert_eq!(T, x.check(&vec![vec![T]]));
    assert_eq!(F, x.check(&vec![vec![F]]));
}

#[test]
fn modal_twice_next_partial() {
    let x = LTLModal::Next(m(LTLModal::Next(var(0))));
    assert_eq!(LF, x.partial(&vec![vec![T], vec![F], vec![F]]));
    assert_eq!(LF, x.partial(&vec![vec![F], vec![F], vec![F]]));
    assert_eq!(LF, x.partial(&vec![vec![T], vec![T], vec![F]]));
    assert_eq!(LT, x.partial(&vec![vec![T], vec![F], vec![T]]));
    assert_eq!(LT, x.partial(&vec![vec![F], vec![F], vec![T]]));
    assert_eq!(LT, x.partial(&vec![vec![T], vec![T], vec![T]]));
    assert_eq!(LU, x.partial(&vec![vec![F], vec![F]]));
    assert_eq!(LU, x.partial(&vec![vec![F], vec![T]]));
    assert_eq!(LU, x.partial(&vec![vec![T], vec![F]]));
    assert_eq!(LU, x.partial(&vec![vec![T], vec![T]]));
    assert_eq!(LU, x.partial(&vec![vec![T]]));
    assert_eq!(LU, x.partial(&vec![vec![F]]));
}

#[test]
fn modal_finally() {
    let x = LTLModal::Finally(var(0));
    assert_eq!(T, x.check(&vec![vec![T], vec![F], vec![F]]));
    assert_eq!(T, x.check(&vec![vec![F], vec![T], vec![F]]));
    assert_eq!(T, x.check(&vec![vec![F], vec![F], vec![T]]));
    assert_eq!(T, x.check(&vec![vec![T], vec![T], vec![T]]));
    assert_eq!(F, x.check(&vec![vec![F], vec![F], vec![F]]));
    assert_eq!(T, x.check(&vec![vec![T]]));
    assert_eq!(F, x.check(&vec![vec![F]]));
    assert_eq!(F, x.check(&vec![]));
}

#[test]
fn modal_finally_partial() {
    let x = LTLModal::Finally(var(0));
    assert_eq!(LT, x.partial(&vec![vec![T], vec![F], vec![F]]));
    assert_eq!(LT, x.partial(&vec![vec![F], vec![T], vec![F]]));
    assert_eq!(LT, x.partial(&vec![vec![F], vec![F], vec![T]]));
    assert_eq!(LT, x.partial(&vec![vec![T], vec![T], vec![T]]));
    assert_eq!(LU, x.partial(&vec![vec![F], vec![F], vec![F]]));
    assert_eq!(LT, x.partial(&vec![vec![T]]));
    assert_eq!(LU, x.partial(&vec![vec![F]]));
    assert_eq!(LU, x.partial(&vec![]));
}

#[test]
fn modal_globally() {
    let x = LTLModal::Globally(var(0));
    assert_eq!(T, x.check(&vec![vec![T], vec![T], vec![T]]));
    assert_eq!(F, x.check(&vec![vec![T], vec![F], vec![F]]));
    assert_eq!(F, x.check(&vec![vec![T], vec![F], vec![T]]));
    assert_eq!(F, x.check(&vec![vec![F], vec![T], vec![F]]));
    assert_eq!(F, x.check(&vec![vec![F], vec![F], vec![T]]));
    assert_eq!(F, x.check(&vec![vec![F], vec![F], vec![F]]));
    assert_eq!(T, x.check(&vec![vec![T]]));
    assert_eq!(F, x.check(&vec![vec![F]]));
    assert_eq!(T, x.check(&vec![]));
}

#[test]
fn modal_globally_partial() {
    let x = LTLModal::Globally(var(0));
    assert_eq!(LU, x.partial(&vec![vec![T], vec![T], vec![T]]));
    assert_eq!(LF, x.partial(&vec![vec![T], vec![F], vec![F]]));
    assert_eq!(LF, x.partial(&vec![vec![T], vec![F], vec![T]]));
    assert_eq!(LF, x.partial(&vec![vec![F], vec![T], vec![F]]));
    assert_eq!(LF, x.partial(&vec![vec![F], vec![F], vec![T]]));
    assert_eq!(LF, x.partial(&vec![vec![F], vec![F], vec![F]]));
    assert_eq!(LU, x.partial(&vec![vec![T]]));
    assert_eq!(LF, x.partial(&vec![vec![F]]));
    assert_eq!(LU, x.partial(&vec![]));
}

#[test]
fn modal_globally_next() {
    let x = LTLModal::Globally(m(LTLModal::Next(var(0))));
    assert_eq!(T, x.check(&vec![vec![T], vec![T], vec![T]]));
    assert_eq!(T, x.check(&vec![vec![F], vec![T], vec![T]]));
    assert_eq!(F, x.check(&vec![vec![T], vec![F], vec![F]]));
    assert_eq!(F, x.check(&vec![vec![T], vec![F], vec![T]]));
    assert_eq!(F, x.check(&vec![vec![F], vec![T], vec![F]]));
    assert_eq!(F, x.check(&vec![vec![F], vec![F], vec![T]]));
    assert_eq!(F, x.check(&vec![vec![F], vec![F], vec![F]]));
    assert_eq!(T, x.check(&vec![vec![T]]));
    assert_eq!(F, x.check(&vec![vec![F]]));
    assert_eq!(T, x.check(&vec![]));
}

#[test]
fn modal_globally_next_partial() {
    let x = LTLModal::Globally(m(LTLModal::Next(var(0))));
    assert_eq!(LU, x.partial(&vec![vec![T], vec![T], vec![T]]));
    assert_eq!(LU, x.partial(&vec![vec![F], vec![T], vec![T]]));
    assert_eq!(LF, x.partial(&vec![vec![T], vec![F], vec![F]]));
    assert_eq!(LF, x.partial(&vec![vec![T], vec![F], vec![T]]));
    assert_eq!(LF, x.partial(&vec![vec![F], vec![T], vec![F]]));
    assert_eq!(LF, x.partial(&vec![vec![F], vec![F], vec![T]]));
    assert_eq!(LF, x.partial(&vec![vec![F], vec![F], vec![F]]));
    assert_eq!(LU, x.partial(&vec![vec![T]]));
    assert_eq!(LU, x.partial(&vec![vec![F]]));
    assert_eq!(LU, x.partial(&vec![]));
}

#[test]
fn modal_until() {
    let x = LTLModal::Until(var(0), var(1));
    assert_eq!(T, x.check(&vec![vec![T, F], vec![T, F], vec![F, T]]));
    assert_eq!(T, x.check(&vec![vec![T, F], vec![T, F], vec![T, T]]));
    assert_eq!(T, x.check(&vec![vec![T, F], vec![T, T], vec![F, F]]));
    assert_eq!(T, x.check(&vec![vec![T, F], vec![F, T], vec![F, F]]));
    assert_eq!(T, x.check(&vec![vec![T, F], vec![F, T], vec![T, T]]));
    assert_eq!(T, x.check(&vec![vec![F, T], vec![F, F], vec![F, F]]));
    assert_eq!(F, x.check(&vec![vec![T, F], vec![F, F], vec![F, T]]));
    assert_eq!(F, x.check(&vec![vec![F, F], vec![T, T], vec![T, T]]));
    assert_eq!(F, x.check(&vec![vec![T, F], vec![T, F], vec![T, F]]));
    assert_eq!(F, x.check(&vec![vec![T, F], vec![T, F], vec![F, F]]));
}

#[test]
fn modal_until_partial() {
    let x = LTLModal::Until(var(0), var(1));
    assert_eq!(LT, x.partial(&vec![vec![T, F], vec![T, F], vec![F, T]]));
    assert_eq!(LT, x.partial(&vec![vec![T, F], vec![T, F], vec![T, T]]));
    assert_eq!(LT, x.partial(&vec![vec![T, F], vec![T, T], vec![F, F]]));
    assert_eq!(LT, x.partial(&vec![vec![T, F], vec![F, T], vec![F, F]]));
    assert_eq!(LT, x.partial(&vec![vec![T, F], vec![F, T], vec![T, T]]));
    assert_eq!(LT, x.partial(&vec![vec![F, T], vec![F, F], vec![F, F]]));
    assert_eq!(LF, x.partial(&vec![vec![T, F], vec![F, F], vec![F, T]]));
    assert_eq!(LF, x.partial(&vec![vec![F, F], vec![T, T], vec![T, T]]));
    assert_eq!(LU, x.partial(&vec![vec![T, F], vec![T, F], vec![T, F]]));
    assert_eq!(LF, x.partial(&vec![vec![T, F], vec![T, F], vec![F, F]]));
}

#[test]
fn modal_release() {
    let x = LTLModal::Release(var(0), var(1));
    assert_eq!(T, x.check(&vec![vec![T, T], vec![F, F], vec![F, F]]));
    assert_eq!(T, x.check(&vec![vec![F, T], vec![T, T], vec![F, F]]));
    assert_eq!(T, x.check(&vec![vec![F, T], vec![T, T], vec![T, T]]));
    assert_eq!(T, x.check(&vec![vec![F, T], vec![F, T], vec![T, T]]));
    assert_eq!(T, x.check(&vec![vec![F, T], vec![F, T], vec![F, T]]));
    assert_eq!(F, x.check(&vec![vec![F, T], vec![F, F], vec![F, F]]));
    assert_eq!(F, x.check(&vec![vec![F, T], vec![T, F], vec![F, F]]));
    assert_eq!(F, x.check(&vec![vec![F, T], vec![T, F], vec![T, T]]));
    assert_eq!(F, x.check(&vec![vec![F, T], vec![F, T], vec![T, F]]));
    assert_eq!(F, x.check(&vec![vec![F, T], vec![F, T], vec![F, F]]));
}

#[test]
fn modal_release_partial() {
    let x = LTLModal::Release(var(0), var(1));
    assert_eq!(LT, x.partial(&vec![vec![T, T], vec![F, F], vec![F, F]]));
    assert_eq!(LT, x.partial(&vec![vec![F, T], vec![T, T], vec![F, F]]));
    assert_eq!(LT, x.partial(&vec![vec![F, T], vec![T, T], vec![T, T]]));
    assert_eq!(LT, x.partial(&vec![vec![F, T], vec![F, T], vec![T, T]]));
    assert_eq!(LU, x.partial(&vec![vec![F, T], vec![F, T], vec![F, T]]));
    assert_eq!(LF, x.partial(&vec![vec![F, T], vec![F, F], vec![F, F]]));
    assert_eq!(LF, x.partial(&vec![vec![F, T], vec![T, F], vec![F, F]]));
    assert_eq!(LF, x.partial(&vec![vec![F, T], vec![T, F], vec![T, T]]));
    assert_eq!(LF, x.partial(&vec![vec![F, T], vec![F, T], vec![T, F]]));
    assert_eq!(LF, x.partial(&vec![vec![F, T], vec![F, T], vec![F, F]]));
}

#[test]
fn modal_weak_until() {
    let x = LTLModal::WeakUntil(var(0), var(1));
    assert_eq!(T, x.check(&vec![vec![T, F], vec![T, F], vec![F, T]]));
    assert_eq!(T, x.check(&vec![vec![T, F], vec![T, F], vec![T, T]]));
    assert_eq!(T, x.check(&vec![vec![T, F], vec![T, T], vec![F, F]]));
    assert_eq!(T, x.check(&vec![vec![T, F], vec![F, T], vec![F, F]]));
    assert_eq!(T, x.check(&vec![vec![T, F], vec![F, T], vec![T, T]]));
    assert_eq!(T, x.check(&vec![vec![F, T], vec![F, F], vec![F, F]]));
    assert_eq!(T, x.check(&vec![vec![T, F], vec![T, F], vec![T, F]]));
    assert_eq!(F, x.check(&vec![vec![T, F], vec![F, F], vec![F, T]]));
    assert_eq!(F, x.check(&vec![vec![F, F], vec![T, T], vec![T, T]]));
    assert_eq!(F, x.check(&vec![vec![T, F], vec![T, F], vec![F, F]]));
}

#[test]
fn modal_weak_until_partial() {
    let x = LTLModal::WeakUntil(var(0), var(1));
    assert_eq!(LT, x.partial(&vec![vec![T, F], vec![T, F], vec![F, T]]));
    assert_eq!(LT, x.partial(&vec![vec![T, F], vec![T, F], vec![T, T]]));
    assert_eq!(LT, x.partial(&vec![vec![T, F], vec![T, T], vec![F, F]]));
    assert_eq!(LT, x.partial(&vec![vec![T, F], vec![F, T], vec![F, F]]));
    assert_eq!(LT, x.partial(&vec![vec![T, F], vec![F, T], vec![T, T]]));
    assert_eq!(LT, x.partial(&vec![vec![F, T], vec![F, F], vec![F, F]]));
    assert_eq!(LU, x.partial(&vec![vec![T, F], vec![T, F], vec![T, F]]));
    assert_eq!(LF, x.partial(&vec![vec![T, F], vec![F, F], vec![F, T]]));
    assert_eq!(LF, x.partial(&vec![vec![F, F], vec![T, T], vec![T, T]]));
    assert_eq!(LF, x.partial(&vec![vec![T, F], vec![T, F], vec![F, F]]));
}

#[test]
fn modal_strong_release() {
    let x = LTLModal::StrongRelease(var(0), var(1));
    assert_eq!(T, x.check(&vec![vec![T, T], vec![F, F], vec![F, F]]));
    assert_eq!(T, x.check(&vec![vec![F, T], vec![T, T], vec![F, F]]));
    assert_eq!(T, x.check(&vec![vec![F, T], vec![T, T], vec![T, T]]));
    assert_eq!(T, x.check(&vec![vec![F, T], vec![F, T], vec![T, T]]));
    assert_eq!(F, x.check(&vec![vec![F, T], vec![F, T], vec![F, T]]));
    assert_eq!(F, x.check(&vec![vec![F, T], vec![F, F], vec![F, F]]));
    assert_eq!(F, x.check(&vec![vec![F, T], vec![T, F], vec![F, F]]));
    assert_eq!(F, x.check(&vec![vec![F, T], vec![T, F], vec![T, T]]));
    assert_eq!(F, x.check(&vec![vec![F, T], vec![F, T], vec![T, F]]));
    assert_eq!(F, x.check(&vec![vec![F, T], vec![F, T], vec![F, F]]));
}

#[test]
fn modal_strong_release_partial() {
    let x = LTLModal::StrongRelease(var(0), var(1));
    assert_eq!(LT, x.partial(&vec![vec![T, T], vec![F, F], vec![F, F]]));
    assert_eq!(LT, x.partial(&vec![vec![F, T], vec![T, T], vec![F, F]]));
    assert_eq!(LT, x.partial(&vec![vec![F, T], vec![T, T], vec![T, T]]));
    assert_eq!(LT, x.partial(&vec![vec![F, T], vec![F, T], vec![T, T]]));
    assert_eq!(LU, x.partial(&vec![vec![F, T], vec![F, T], vec![F, T]]));
    assert_eq!(LF, x.partial(&vec![vec![F, T], vec![F, F], vec![F, F]]));
    assert_eq!(LF, x.partial(&vec![vec![F, T], vec![T, F], vec![F, F]]));
    assert_eq!(LF, x.partial(&vec![vec![F, T], vec![T, F], vec![T, T]]));
    assert_eq!(LF, x.partial(&vec![vec![F, T], vec![F, T], vec![T, F]]));
    assert_eq!(LF, x.partial(&vec![vec![F, T], vec![F, T], vec![F, F]]));
}

#[test]
fn modal_always_and_new() {
    let x = LTLBoolean::And(vec![
        m(LTLModal::Globally(var(0))),
        m(LTLModal::Finally(m(LTLModal::Globally(var(1))))),
    ]);

    assert_eq!(T, x.check(&vec![vec![T, F], vec![T, F], vec![T, F], vec![T, T]]));
    assert_eq!(T, x.check(&vec![vec![T, F], vec![T, F], vec![T, T], vec![T, T]]));
    assert_eq!(T, x.check(&vec![vec![T, F], vec![T, T], vec![T, T], vec![T, T]]));
    assert_eq!(T, x.check(&vec![vec![T, T], vec![T, T], vec![T, T], vec![T, T]]));
    assert_eq!(T, x.check(&vec![vec![T, F], vec![T, F], vec![T, F], vec![T, T]]));
    assert_eq!(T, x.check(&vec![vec![T, F], vec![T, F], vec![T, T], vec![T, T]]));
    assert_eq!(T, x.check(&vec![vec![T, F], vec![T, T], vec![T, T], vec![T, T]]));
    assert_eq!(T, x.check(&vec![vec![T, T], vec![T, T], vec![T, T], vec![T, T]]));
    assert_eq!(F, x.check(&vec![vec![T, F], vec![F, F], vec![T, F], vec![T, T]]));
    assert_eq!(F, x.check(&vec![vec![T, F], vec![T, F], vec![T, F], vec![F, T]]));
    assert_eq!(F, x.check(&vec![vec![T, F], vec![T, T], vec![T, F], vec![T, F]]));
    assert_eq!(F, x.check(&vec![vec![T, T], vec![T, F], vec![T, T], vec![T, F]]));
    assert_eq!(F, x.check(&vec![vec![T, F], vec![T, F], vec![T, F], vec![T, F]]));
    assert_eq!(F, x.check(&vec![vec![T, F], vec![T, F], vec![T, T], vec![T, F]]));
    assert_eq!(F, x.check(&vec![vec![T, F], vec![T, F], vec![T, T], vec![F, T]]));
    assert_eq!(F, x.check(&vec![vec![T, F], vec![T, T], vec![T, F], vec![T, F]]));
}

#[test]
fn modal_always_and_new_partial() {
    let x = LTLBoolean::And(vec![
        m(LTLModal::Globally(var(0))),
        m(LTLModal::Finally(m(LTLModal::Globally(var(1))))),
    ]);

    assert_eq!(LU, x.partial(&vec![vec![T, F]]));
    assert_eq!(LU, x.partial(&vec![vec![T, F], vec![T, F], vec![T, F], vec![T, F]]));
    assert_eq!(LU, x.partial(&vec![vec![T, F], vec![T, F], vec![T, F], vec![T, T]]));
    assert_eq!(LU, x.partial(&vec![vec![T, F], vec![T, F], vec![T, T], vec![T, T]]));
    assert_eq!(LU, x.partial(&vec![vec![T, F], vec![T, T], vec![T, T], vec![T, T]]));
    assert_eq!(LU, x.partial(&vec![vec![T, T], vec![T, T], vec![T, T], vec![T, T]]));
    assert_eq!(LU, x.partial(&vec![vec![T, F], vec![T, F], vec![T, F], vec![T, T]]));
    assert_eq!(LU, x.partial(&vec![vec![T, F], vec![T, F], vec![T, T], vec![T, T]]));
    assert_eq!(LU, x.partial(&vec![vec![T, F], vec![T, T], vec![T, T], vec![T, T]]));
    assert_eq!(LU, x.partial(&vec![vec![T, T], vec![T, T], vec![T, T], vec![T, T]]));
    assert_eq!(LF, x.partial(&vec![vec![T, F], vec![F, F], vec![T, F], vec![T, T]]));
    assert_eq!(LF, x.partial(&vec![vec![T, F], vec![T, F], vec![T, F], vec![F, T]]));
    assert_eq!(LU, x.partial(&vec![vec![T, F], vec![T, T], vec![T, F], vec![T, F]]));
    assert_eq!(LU, x.partial(&vec![vec![T, T], vec![T, F], vec![T, T], vec![T, F]]));
    assert_eq!(LU, x.partial(&vec![vec![T, F], vec![T, F], vec![T, F], vec![T, F]]));
    assert_eq!(LU, x.partial(&vec![vec![T, F], vec![T, F], vec![T, T], vec![T, F]]));
    assert_eq!(LF, x.partial(&vec![vec![T, F], vec![T, F], vec![T, T], vec![F, T]]));
    assert_eq!(LU, x.partial(&vec![vec![T, F], vec![T, T], vec![T, F], vec![T, F]]));
}

#[test]
fn modal_until_globally() {
    let x = LTLModal::Until(var(0), m(LTLModal::Globally(var(1))));

    assert_eq!(T, x.check(&vec![vec![T, F], vec![T, F], vec![T, F], vec![T, T]]));
    assert_eq!(T, x.check(&vec![vec![T, F], vec![T, F], vec![T, F], vec![F, T]]));
    assert_eq!(T, x.check(&vec![vec![T, F], vec![T, F], vec![T, T], vec![F, T]]));
    assert_eq!(T, x.check(&vec![vec![T, F], vec![T, F], vec![F, T], vec![F, T]]));
    assert_eq!(T, x.check(&vec![vec![T, F], vec![T, T], vec![F, T], vec![F, T]]));
    assert_eq!(T, x.check(&vec![vec![T, F], vec![F, T], vec![T, T], vec![T, T]]));
    assert_eq!(T, x.check(&vec![vec![F, T], vec![F, T], vec![F, T], vec![F, T]]));
    assert_eq!(F, x.check(&vec![vec![T, F], vec![T, F], vec![T, F], vec![T, F]]));
    assert_eq!(F, x.check(&vec![vec![T, F], vec![F, F], vec![T, T], vec![T, T]]));
    assert_eq!(F, x.check(&vec![vec![T, T], vec![F, T], vec![T, F], vec![T, T]]));
    assert_eq!(F, x.check(&vec![vec![F, T], vec![F, T], vec![F, T], vec![T, F]]));
}

#[test]
fn modal_until_globally_partial() {
    let x = LTLModal::Until(var(0), m(LTLModal::Globally(var(1))));

    assert_eq!(LU, x.partial(&vec![]));
    assert_eq!(LU, x.partial(&vec![vec![T, F]]));
    assert_eq!(LU, x.partial(&vec![vec![T, F], vec![T, F]]));
    assert_eq!(LF, x.partial(&vec![vec![T, F], vec![F, F]]));
    assert_eq!(LU, x.partial(&vec![vec![T, F], vec![T, F], vec![F, T]]));
    assert_eq!(LU, x.partial(&vec![vec![T, F], vec![T, F], vec![F, T], vec![F, T]]));
    assert_eq!(LU, x.partial(&vec![vec![T, F], vec![T, F], vec![T, F], vec![T, T]]));
    assert_eq!(LU, x.partial(&vec![vec![T, F], vec![T, F], vec![T, F], vec![F, T]]));
    assert_eq!(LU, x.partial(&vec![vec![T, F], vec![T, F], vec![T, T], vec![F, T]]));
    assert_eq!(LU, x.partial(&vec![vec![T, F], vec![T, F], vec![F, T], vec![F, T]]));
    assert_eq!(LU, x.partial(&vec![vec![T, F], vec![T, T], vec![F, T], vec![F, T]]));
    assert_eq!(LU, x.partial(&vec![vec![T, F], vec![F, T], vec![T, T], vec![T, T]]));
    assert_eq!(LU, x.partial(&vec![vec![F, T], vec![F, T], vec![F, T], vec![F, T]]));
    assert_eq!(LU, x.partial(&vec![vec![T, F], vec![T, F], vec![T, F], vec![T, F]]));
    assert_eq!(LF, x.partial(&vec![vec![T, F], vec![F, F], vec![T, T], vec![T, T]]));
    assert_eq!(LF, x.partial(&vec![vec![T, T], vec![F, T], vec![T, F], vec![T, T]]));
    assert_eq!(LF, x.partial(&vec![vec![F, T], vec![F, T], vec![F, T], vec![T, F]]));
}

#[test]
fn modal_weak_until_globally() {
    let x = LTLModal::WeakUntil(var(0), m(LTLModal::Globally(var(1))));

    assert_eq!(T, x.check(&vec![vec![T, F], vec![T, F], vec![T, F], vec![T, T]]));
    assert_eq!(T, x.check(&vec![vec![T, F], vec![T, F], vec![T, F], vec![F, T]]));
    assert_eq!(T, x.check(&vec![vec![T, F], vec![T, F], vec![T, T], vec![F, T]]));
    assert_eq!(T, x.check(&vec![vec![T, F], vec![T, F], vec![F, T], vec![F, T]]));
    assert_eq!(T, x.check(&vec![vec![T, F], vec![T, T], vec![F, T], vec![F, T]]));
    assert_eq!(T, x.check(&vec![vec![T, F], vec![F, T], vec![T, T], vec![T, T]]));
    assert_eq!(T, x.check(&vec![vec![F, T], vec![F, T], vec![F, T], vec![F, T]]));
    assert_eq!(T, x.check(&vec![vec![T, F], vec![T, F], vec![T, F], vec![T, F]]));
    assert_eq!(F, x.check(&vec![vec![T, F], vec![F, F], vec![T, T], vec![T, T]]));
    assert_eq!(F, x.check(&vec![vec![T, T], vec![F, T], vec![T, F], vec![T, T]]));
    assert_eq!(F, x.check(&vec![vec![F, T], vec![F, T], vec![F, T], vec![T, F]]));
}

#[test]
fn modal_weak_until_globally_partial() {
    let x = LTLModal::WeakUntil(var(0), m(LTLModal::Globally(var(1))));

    assert_eq!(LU, x.partial(&vec![]));
    assert_eq!(LU, x.partial(&vec![vec![T, F]]));
    assert_eq!(LU, x.partial(&vec![vec![T, F], vec![T, F]]));
    assert_eq!(LF, x.partial(&vec![vec![T, F], vec![F, F]]));
    assert_eq!(LU, x.partial(&vec![vec![T, F], vec![T, F], vec![F, T]]));
    assert_eq!(LU, x.partial(&vec![vec![T, F], vec![T, F], vec![F, T], vec![F, T]]));
    assert_eq!(LU, x.partial(&vec![vec![T, F], vec![T, F], vec![T, F], vec![T, T]]));
    assert_eq!(LU, x.partial(&vec![vec![T, F], vec![T, F], vec![T, F], vec![F, T]]));
    assert_eq!(LU, x.partial(&vec![vec![T, F], vec![T, F], vec![T, T], vec![F, T]]));
    assert_eq!(LU, x.partial(&vec![vec![T, F], vec![T, F], vec![F, T], vec![F, T]]));
    assert_eq!(LU, x.partial(&vec![vec![T, F], vec![T, T], vec![F, T], vec![F, T]]));
    assert_eq!(LU, x.partial(&vec![vec![T, F], vec![F, T], vec![T, T], vec![T, T]]));
    assert_eq!(LU, x.partial(&vec![vec![F, T], vec![F, T], vec![F, T], vec![F, T]]));
    assert_eq!(LU, x.partial(&vec![vec![T, F], vec![T, F], vec![T, F], vec![T, F]]));
    assert_eq!(LF, x.partial(&vec![vec![T, F], vec![F, F], vec![T, T], vec![T, T]]));
    assert_eq!(LF, x.partial(&vec![vec![T, T], vec![F, T], vec![T, F], vec![T, T]]));
    assert_eq!(LF, x.partial(&vec![vec![F, T], vec![F, T], vec![F, T], vec![T, F]]));
}

#[test]
fn boolean() {
    assert_eq!(T, LTLBoolean::Not(cst(F)).check(&vec![]));
    assert_eq!(F, LTLBoolean::Not(cst(T)).check(&vec![]));
    assert_eq!(F, LTLBoolean::Or(vec![cst(F), cst(F)]).check(&vec![]));
    assert_eq!(T, LTLBoolean::Or(vec![cst(T), cst(F)]).check(&vec![]));
    assert_eq!(T, LTLBoolean::Or(vec![cst(F), cst(T)]).check(&vec![]));
    assert_eq!(T, LTLBoolean::Or(vec![cst(T), cst(T)]).check(&vec![]));
    assert_eq!(F, LTLBoolean::And(vec![cst(F), cst(F)]).check(&vec![]));
    assert_eq!(F, LTLBoolean::And(vec![cst(T), cst(F)]).check(&vec![]));
    assert_eq!(F, LTLBoolean::And(vec![cst(F), cst(T)]).check(&vec![]));
    assert_eq!(T, LTLBoolean::And(vec![cst(T), cst(T)]).check(&vec![]));
    assert_eq!(F, LTLBoolean::Xor(cst(F), cst(F)).check(&vec![]));
    assert_eq!(T, LTLBoolean::Xor(cst(T), cst(F)).check(&vec![]));
    assert_eq!(T, LTLBoolean::Xor(cst(F), cst(T)).check(&vec![]));
    assert_eq!(F, LTLBoolean::Xor(cst(T), cst(T)).check(&vec![]));
    assert_eq!(T, LTLBoolean::Implies(cst(F), cst(F)).check(&vec![]));
    assert_eq!(F, LTLBoolean::Implies(cst(T), cst(F)).check(&vec![]));
    assert_eq!(T, LTLBoolean::Implies(cst(F), cst(T)).check(&vec![]));
    assert_eq!(T, LTLBoolean::Implies(cst(T), cst(T)).check(&vec![]));
    assert_eq!(T, LTLBoolean::Iff(cst(F), cst(F)).check(&vec![]));
    assert_eq!(F, LTLBoolean::Iff(cst(T), cst(F)).check(&vec![]));
    assert_eq!(F, LTLBoolean::Iff(cst(F), cst(T)).check(&vec![]));
    assert_eq!(T, LTLBoolean::Iff(cst(T), cst(T)).check(&vec![]));
}

#[test]
fn boolean_partial() {
    assert_eq!(LU, LTLBoolean::Not(m(u())).partial(&vec![]));
    assert_eq!(LU, LTLBoolean::Not(m(u())).partial(&vec![]));
    assert_eq!(LU, LTLBoolean::Or(vec![cst(F), m(u())]).partial(&vec![]));
    assert_eq!(LT, LTLBoolean::Or(vec![cst(T), m(u())]).partial(&vec![]));
    assert_eq!(LF, LTLBoolean::And(vec![cst(F), m(u())]).partial(&vec![]));
    assert_eq!(LU, LTLBoolean::And(vec![cst(T), m(u())]).partial(&vec![]));
    assert_eq!(LU, LTLBoolean::Xor(cst(F), m(u())).partial(&vec![]));
    assert_eq!(LU, LTLBoolean::Xor(cst(T), m(u())).partial(&vec![]));
    assert_eq!(LT, LTLBoolean::Implies(cst(F), m(u())).partial(&vec![]));
    assert_eq!(LU, LTLBoolean::Implies(cst(T), m(u())).partial(&vec![]));
    assert_eq!(LU, LTLBoolean::Iff(cst(F), m(u())).partial(&vec![]));
    assert_eq!(LU, LTLBoolean::Iff(cst(T), m(u())).partial(&vec![]));
}

#[test]
fn partial() {
    let x = LTLBoolean::Not(m(LTLModal::Next(var(0))));
    assert_eq!(LT, x.partial(&vec![vec![F], vec![F]]));
    assert_eq!(LT, x.partial(&vec![vec![T], vec![F]]));
    assert_eq!(LF, x.partial(&vec![vec![F], vec![T]]));
    assert_eq!(LF, x.partial(&vec![vec![T], vec![T]]));
    assert_eq!(LU, x.partial(&vec![vec![T]]));
    assert_eq!(LU, x.partial(&vec![vec![F]]));
}

#[test]
fn decided_partial_result_stays() {
    let x = LTLModal::Globally(var(0));
    assert_eq!(LF, x.partial(&vec![vec![T], vec![F]]));
    assert_eq!(F, x.check(&vec![vec![T], vec![F], vec![T]]));
    let y = LTLModal::Finally(var(0));
    assert_eq!(LT, y.partial(&vec![vec![F], vec![T]]));
    assert_eq!(T, y.check(&vec![vec![F], vec![T], vec![F]]));
}

#[test]
fn release_on_temporal_operand_is_not_final() {
    // psi = X X a is undecided on two states, so the release is judged by phi alone.
    let psi = m(LTLModal::Next(m(LTLModal::Next(var(0)))));
    let x = LTLModal::Release(psi, var(1));
    assert_eq!(LF, x.partial(&vec![vec![F, T], vec![F, F]]));
    assert_eq!(T, x.check(&vec![vec![F, T], vec![F, F], vec![T, F]]));
}

#[test]
fn watch_and_documented_examples() {
    let x = LTLBoolean::And(vec![var(0), var(1), var(2)]);
    assert_eq!(x.watch(&vec![vec![T, T, T]]), vec![0, 1, 2]);
    assert_eq!(x.watch(&vec![vec![T, T, F]]), vec![2]);
    assert_eq!(x.watch(&vec![vec![T, F, F]]), vec![1, 2]);
    assert_eq!(x.watch(&vec![vec![F, F, F]]), vec![0, 1, 2]);
}

#[test]
fn repr_of_expressions() {
    let g = LTLModal::Globally(b(LTLBoolean::And(vec![var(0), var(1)])));
    assert_eq!(LTLOperator::repr(&g), "(G (x00 && x01))");
    let u = LTLModal::Until(var(2), m(LTLModal::Next(var(12))));
    assert_eq!(LTLOperator::repr(&u), "(x02 U (N x12))");
    let n = LTLBoolean::Not(var(3));
    assert_eq!(LTLOperator::repr(&n), "!x03");
    let i = LTLBoolean::Implies(cst(T), b(LTLBoolean::Or(vec![var(4), cst(F)])));
    assert_eq!(LTLOperator::repr(&i), "(true => (x04 || false))");
    assert_eq!(LTLOperator::repr(&7usize), "x07");
    assert_eq!(LTLOperator::repr(&123usize), "x123");
    assert_eq!(LTLOperator::repr(&false), "false");
}
