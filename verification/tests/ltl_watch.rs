use snowcap::hard_policies::{LTLBoolean, LTLModal, LTLExpr};

const T: bool = true;
const F: bool = false;

fn var(i: usize) -> Box<LTLExpr> {
    Box::new(LTLExpr::Var(i))
}

fn b(x: LTLBoolean) -> Box<LTLExpr> {
    Box::new(LTLExpr::Boolean(x))
}

fn and2(x: usize, y: usize) -> Box<LTLExpr> {
    b(LTLBoolean::And(vec![var(x), var(y)]))
}

fn or2(x: usize, y: usize) -> Box<LTLExpr> {
    b(LTLBoolean::Or(vec![var(x), var(y)]))
}

fn test_watch(mut acq: Vec<usize>, mut exp: Vec<usize>) {
    acq.sort();
    acq.dedup();
    exp.sort();
    assert_eq!(acq, exp);
}

#[test]
fn watch_boolean_not() {
    let x = LTLExpr::Boolean(LTLBoolean::Not(var(0)));
    test_watch(x.watch(&vec![vec![F]]), vec![0]);
    test_watch(x.watch(&vec![vec![T]]), vec![0]);
    test_watch(x.watch_partial(&vec![vec![F]]), vec![0]);
    test_watch(x.watch_partial(&vec![vec![T]]), vec![0]);
}

#[test]
fn watch_boolean_or() {
    let x = LTLExpr::Boolean(LTLBoolean::Or(vec![var(0), var(1), var(2)]));
    test_watch(x.watch(&vec![vec![T, T, T]]), vec![0, 1, 2]);
    test_watch(x.watch(&vec![vec![T, T, F]]), vec![0, 1]);
    test_watch(x.watch(&vec![vec![T, F, F]]), vec![0]);
    test_watch(x.watch(&vec![vec![F, F, F]]), vec![0, 1, 2]);
    test_watch(x.watch_partial(&vec![vec![T, T, T]]), vec![0, 1, 2]);
    test_watch(x.watch_partial(&vec![vec![T, T, F]]), vec![0, 1]);
    test_watch(x.watch_partial(&vec![vec![T, F, F]]), vec![0]);
    test_watch(x.watch_partial(&vec![vec![F, F, F]]), vec![0, 1, 2]);

    let x = LTLExpr::Boolean(LTLBoolean::Or(vec![b(LTLBoolean::Or(vec![var(0), var(1)])), var(2)]));
    test_watch(x.watch(&vec![vec![T, T, T]]), vec![0, 1, 2]);
    test_watch(x.watch(&vec![vec![T, T, F]]), vec![0, 1]);
    test_watch(x.watch(&vec![vec![T, F, F]]), vec![0]);
    test_watch(x.watch(&vec![vec![F, F, F]]), vec![0, 1, 2]);
    test_watch(x.watch_partial(&vec![vec![T, T, T]]), vec![0, 1, 2]);
    test_watch(x.watch_partial(&vec![vec![T, T, F]]), vec![0, 1]);
    test_watch(x.watch_partial(&vec![vec![T, F, F]]), vec![0]);
    test_watch(x.watch_partial(&vec![vec![F, F, F]]), vec![0, 1, 2]);
}

#[test]
fn watch_boolean_and() {
    let x = LTLExpr::Boolean(LTLBoolean::And(vec![var(0), var(1), var(2)]));
    test_watch(x.watch(&vec![vec![T, T, T]]), vec![0, 1, 2]);
    test_watch(x.watch(&vec![vec![T, T, F]]), vec![2]);
    test_watch(x.watch(&vec![vec![T, F, F]]), vec![1, 2]);
    test_watch(x.watch(&vec![vec![F, F, F]]), vec![0, 1, 2]);
    test_watch(x.watch_partial(&vec![vec![T, T, T]]), vec![0, 1, 2]);
    test_watch(x.watch_partial(&vec![vec![T, T, F]]), vec![2]);
    test_watch(x.watch_partial(&vec![vec![T, F, F]]), vec![1, 2]);
    test_watch(x.watch_partial(&vec![vec![F, F, F]]), vec![0, 1, 2]);

    let x = LTLExpr::Boolean(LTLBoolean::And(vec![b(LTLBoolean::And(vec![var(0), var(1)])), var(2)]));
    test_watch(x.watch(&vec![vec![T, T, T]]), vec![0, 1, 2]);
    test_watch(x.watch(&vec![vec![T, T, F]]), vec![2]);
    test_watch(x.watch(&vec![vec![T, F, F]]), vec![1, 2]);
    test_watch(x.watch(&vec![vec![F, F, F]]), vec![0, 1, 2]);
    test_watch(x.watch_partial(&vec![vec![T, T, T]]), vec![0, 1, 2]);
    test_watch(x.watch_partial(&vec![vec![T, T, F]]), vec![2]);
    test_watch(x.watch_partial(&vec![vec![T, F, F]]), vec![1, 2]);
    test_watch(x.watch_partial(&vec![vec![F, F, F]]), vec![0, 1, 2]);
}

#[test]
fn watch_boolean_xor() {
    let x = LTLExpr::Boolean(LTLBoolean::Xor(var(0), var(1)));
    test_watch(x.watch(&vec![vec![T, T]]), vec![0, 1]);
    test_watch(x.watch(&vec![vec![F, T]]), vec![0, 1]);
    test_watch(x.watch(&vec![vec![T, F]]), vec![0, 1]);
    test_watch(x.watch(&vec![vec![F, F]]), vec![0, 1]);
    test_watch(x.watch_partial(&vec![vec![T, T]]), vec![0, 1]);
    test_watch(x.watch_partial(&vec![vec![F, T]]), vec![0, 1]);
    test_watch(x.watch_partial(&vec![vec![T, F]]), vec![0, 1]);
    test_watch(x.watch_partial(&vec![vec![F, F]]), vec![0, 1]);
}

#[test]
fn watch_boolean_implies() {
    let x = LTLExpr::Boolean(LTLBoolean::Implies(var(0), var(1)));
    test_watch(x.watch(&vec![vec![T, T]]), vec![1]);
    test_watch(x.watch(&vec![vec![F, T]]), vec![0, 1]);
    test_watch(x.watch(&vec![vec![T, F]]), vec![0, 1]);
    test_watch(x.watch(&vec![vec![F, F]]), vec![0]);
    test_watch(x.watch_partial(&vec![vec![T, T]]), vec![1]);
    test_watch(x.watch_partial(&vec![vec![F, T]]), vec![0, 1]);
    test_watch(x.watch_partial(&vec![vec![T, F]]), vec![0, 1]);
    test_watch(x.watch_partial(&vec![vec![F, F]]), vec![0]);
}

#[test]
fn watch_modal_next() {
    let x = LTLExpr::Modal(LTLModal::Next(var(0)));
    test_watch(x.watch(&vec![vec![F], vec![T]]), vec![0]);
    test_watch(x.watch(&vec![vec![T], vec![F]]), vec![0]);
    test_watch(x.watch(&vec![vec![F], vec![F]]), vec![0]);
    test_watch(x.watch(&vec![vec![F]]), vec![0]);
    test_watch(x.watch(&vec![vec![T]]), vec![0]);
    test_watch(x.watch_partial(&vec![vec![F], vec![T]]), vec![0]);
    test_watch(x.watch_partial(&vec![vec![T], vec![F]]), vec![0]);
    test_watch(x.watch_partial(&vec![vec![F], vec![F]]), vec![0]);
    test_watch(x.watch_partial(&vec![vec![F]]), vec![]);
    test_watch(x.watch_partial(&vec![vec![T]]), vec![]);
}

#[test]
fn watch_modal_finally() {
    let x = LTLExpr::Modal(LTLModal::Finally(and2(0, 1)));
    test_watch(x.watch(&vec![vec![F, F], vec![T, T]]), vec![0, 1]);
    test_watch(x.watch(&vec![vec![T, T], vec![T, T]]), vec![0, 1]);
    test_watch(x.watch(&vec![vec![T, F], vec![T, T]]), vec![0, 1]);
    test_watch(x.watch(&vec![vec![T, F], vec![T, F]]), vec![1]);
    test_watch(x.watch(&vec![vec![F, T], vec![F, T]]), vec![0]);
    test_watch(x.watch(&vec![vec![T, F], vec![F, T]]), vec![0, 1]);
    test_watch(x.watch_partial(&vec![vec![F, F], vec![T, T]]), vec![0, 1]);
    test_watch(x.watch_partial(&vec![vec![T, T], vec![T, T]]), vec![0, 1]);
    test_watch(x.watch_partial(&vec![vec![T, F], vec![T, T]]), vec![0, 1]);
    test_watch(x.watch_partial(&vec![vec![T, F], vec![T, F]]), vec![]);
    test_watch(x.watch_partial(&vec![vec![F, T], vec![F, T]]), vec![]);
    test_watch(x.watch_partial(&vec![vec![T, F], vec![F, T]]), vec![]);
}

#[test]
fn watch_modal_globally() {
    let x = LTLExpr::Modal(LTLModal::Globally(and2(0, 1)));
    test_watch(x.watch(&vec![vec![T, T], vec![T, T]]), vec![0, 1]);
    test_watch(x.watch(&vec![vec![T, F], vec![T, T]]), vec![1]);
    test_watch(x.watch(&vec![vec![T, T], vec![F, T]]), vec![0]);
    test_watch(x.watch(&vec![vec![F, T], vec![F, T]]), vec![0]);
    test_watch(x.watch(&vec![vec![F, F], vec![F, T]]), vec![0, 1]);
    test_watch(x.watch_partial(&vec![vec![T, T], vec![T, T]]), vec![]);
    test_watch(x.watch_partial(&vec![vec![T, F], vec![T, T]]), vec![1]);
    test_watch(x.watch_partial(&vec![vec![T, T], vec![F, T]]), vec![0]);
    test_watch(x.watch_partial(&vec![vec![F, T], vec![F, T]]), vec![0]);
    test_watch(x.watch_partial(&vec![vec![F, F], vec![F, T]]), vec![0, 1]);
}

#[test]
fn watch_modal_until() {
    let x = LTLExpr::Modal(LTLModal::Until(and2(0, 1), and2(2, 3)));
    test_watch(x.watch(&vec![vec![T, T, T, F], vec![T, T, F, F], vec![T, F, T, T]]), vec![0, 1, 2, 3]);
    test_watch(x.watch(&vec![vec![T, T, T, F], vec![T, F, T, T], vec![T, F, F, T]]), vec![0, 1, 2, 3]);
    test_watch(x.watch(&vec![vec![T, F, T, T], vec![T, T, T, T], vec![T, T, T, T]]), vec![2, 3]);
    test_watch(x.watch(&vec![vec![T, T, T, F], vec![T, T, F, T], vec![T, T, F, T]]), vec![2, 3]);
    test_watch(x.watch(&vec![vec![T, T, T, F], vec![T, T, F, T], vec![T, F, F, T]]), vec![1, 2, 3]);
    test_watch(x.watch(&vec![vec![T, T, F, T], vec![T, T, F, T], vec![T, T, F, T]]), vec![2]);
    test_watch(x.watch(&vec![vec![F, T, F, T], vec![T, T, T, T], vec![T, T, T, T]]), vec![0, 2]);
    test_watch(x.watch(&vec![vec![F, F, T, T], vec![T, T, T, T], vec![T, T, T, T]]), vec![2, 3]);
    test_watch(x.watch(&vec![vec![F, F, T, T], vec![F, F, F, F], vec![T, T, T, T]]), vec![2, 3]);
    test_watch(x.watch(&vec![vec![F, F, T, T], vec![T, T, T, T], vec![F, F, F, F]]), vec![2, 3]);
    test_watch(x.watch(&vec![vec![F, T, F, T], vec![F, T, T, T], vec![T, T, T, T]]), vec![0, 2]);
    test_watch(x.watch(&vec![vec![T, T, F, T], vec![F, T, T, T], vec![T, T, T, T]]), vec![0, 1, 2, 3]);
    test_watch(x.watch(&vec![vec![T, F, T, F], vec![T, T, T, T], vec![T, T, T, T]]), vec![1, 3]);
    test_watch(x.watch(&vec![vec![T, F, T, F], vec![F, T, F, T], vec![F, F, F, F]]), vec![0, 1, 2, 3]);
    test_watch(x.watch(&vec![vec![T, T, T, F], vec![F, T, T, F], vec![F, T, T, F]]), vec![0, 3]);
    test_watch(x.watch(&vec![vec![T, T, T, F], vec![F, T, T, F], vec![F, T, F, T]]), vec![0, 2, 3]);

    test_watch(x.watch_partial(&vec![vec![T, T, T, F], vec![T, T, F, F], vec![T, F, T, T]]), vec![0, 1, 2, 3]);
    test_watch(x.watch_partial(&vec![vec![T, T, T, F], vec![T, F, T, T], vec![T, F, F, T]]), vec![0, 1, 2, 3]);
    test_watch(x.watch_partial(&vec![vec![T, F, T, T], vec![T, T, T, T], vec![T, T, T, T]]), vec![2, 3]);
    test_watch(x.watch_partial(&vec![vec![T, T, T, F], vec![T, T, F, T], vec![T, T, F, T]]), vec![]);
    test_watch(x.watch_partial(&vec![vec![T, T, T, F], vec![T, T, F, T], vec![T, F, F, T]]), vec![1, 2, 3]);
    test_watch(x.watch_partial(&vec![vec![T, T, F, T], vec![T, T, F, T], vec![T, T, F, T]]), vec![]);
    test_watch(x.watch_partial(&vec![vec![F, T, F, T], vec![T, T, T, T], vec![T, T, T, T]]), vec![0, 2]);
    test_watch(x.watch_partial(&vec![vec![F, F, T, T], vec![T, T, T, T], vec![T, T, T, T]]), vec![2, 3]);
    test_watch(x.watch_partial(&vec![vec![F, F, T, T], vec![F, F, F, F], vec![T, T, T, T]]), vec![2, 3]);
    test_watch(x.watch_partial(&vec![vec![F, F, T, T], vec![T, T, T, T], vec![F, F, F, F]]), vec![2, 3]);
    test_watch(x.watch_partial(&vec![vec![F, T, F, T], vec![F, T, T, T], vec![T, T, T, T]]), vec![0, 2]);
    test_watch(x.watch_partial(&vec![vec![T, T, F, T], vec![F, T, T, T], vec![T, T, T, T]]), vec![0, 1, 2, 3]);
    test_watch(x.watch_partial(&vec![vec![T, F, T, F], vec![T, T, T, T], vec![T, T, T, T]]), vec![1, 3]);
    test_watch(x.watch_partial(&vec![vec![T, F, T, F], vec![F, T, F, T], vec![F, F, F, F]]), vec![0, 1, 2, 3]);
    test_watch(x.watch_partial(&vec![vec![T, T, T, F], vec![F, T, T, F], vec![F, T, T, F]]), vec![0, 3]);
    test_watch(x.watch_partial(&vec![vec![T, T, T, F], vec![F, T, T, F], vec![F, T, F, T]]), vec![0, 2, 3]);

    let x = LTLExpr::Modal(LTLModal::Until(or2(0, 1), or2(2, 3)));
    test_watch(x.watch(&vec![vec![T, F, F, F], vec![T, F, F, F], vec![T, F, F, T]]), vec![0, 3]);
    test_watch(x.watch(&vec![vec![T, F, F, F], vec![F, T, F, F], vec![T, F, F, T]]), vec![0, 1, 3]);
    test_watch(x.watch(&vec![vec![T, F, F, F], vec![F, T, F, F], vec![T, F, T, T]]), vec![0, 1, 2, 3]);
    test_watch(x.watch_partial(&vec![vec![T, F, F, F], vec![T, F, F, F], vec![T, F, F, T]]), vec![0, 3],);
    test_watch(x.watch_partial(&vec![vec![T, F, F, F], vec![F, T, F, F], vec![T, F, F, T]]), vec![0, 1, 3],);
    test_watch(x.watch_partial(&vec![vec![T, F, F, F], vec![F, T, F, F], vec![T, F, T, T]]), vec![0, 1, 2, 3],);
}

#[test]
fn watch_modal_release() {
    let x = LTLExpr::Modal(LTLModal::Release(and2(2, 3), and2(0, 1)));

    test_watch(x.watch(&vec![vec![T, T, F, F], vec![T, T, T, T], vec![F, F, F, F]]), vec![0, 1, 2, 3]);
    test_watch(x.watch(&vec![vec![T, T, F, F], vec![T, T, F, T], vec![T, T, T, T]]), vec![0, 1, 2, 3]);
    test_watch(x.watch(&vec![vec![T, T, F, F], vec![T, T, F, T], vec![T, T, T, T]]), vec![0, 1, 2, 3]);
    test_watch(x.watch(&vec![vec![F, F, F, F], vec![T, T, F, T], vec![T, T, T, T]]), vec![0, 1, 2, 3]);
    test_watch(x.watch(&vec![vec![T, F, F, T], vec![T, T, F, T], vec![T, T, T, T]]), vec![1, 2]);
    test_watch(x.watch(&vec![vec![T, F, F, T], vec![T, T, T, F], vec![T, T, T, T]]), vec![1, 2, 3]);
    test_watch(x.watch(&vec![vec![T, F, F, T], vec![T, T, T, F], vec![F, T, T, T]]), vec![0, 1, 2, 3]);

    let x = LTLExpr::Modal(LTLModal::Release(or2(2, 3), or2(0, 1)));

    test_watch(x.watch(&vec![vec![T, T, F, F], vec![T, T, T, T], vec![F, F, F, F]]), vec![0, 1, 2, 3]);
    test_watch(x.watch(&vec![vec![T, T, F, F], vec![T, T, F, T], vec![T, T, T, T]]), vec![0, 1, 2, 3]);
    test_watch(x.watch(&vec![vec![T, F, F, F], vec![T, F, T, T], vec![F, F, F, F]]), vec![0, 2, 3]);
    test_watch(x.watch(&vec![vec![T, T, F, F], vec![T, T, T, F], vec![F, F, F, F]]), vec![0, 1, 2]);
    test_watch(x.watch(&vec![vec![T, F, F, F], vec![T, F, T, F], vec![F, F, F, F]]), vec![0, 2]);
    test_watch(x.watch(&vec![vec![T, F, F, F], vec![F, T, T, F], vec![F, F, F, F]]), vec![0, 1, 2]);
}

#[test]
fn watch_boolean_and_keeps_operand_order() {
    let x = LTLBoolean::And(vec![var(0), var(1), var(2)]);
    assert_eq!(x.watch(&vec![vec![T, T, T]]), vec![0, 1, 2]);
    assert_eq!(x.watch(&vec![vec![T, T, F]]), vec![2]);
    assert_eq!(x.watch(&vec![vec![T, F, F]]), vec![1, 2]);
    assert_eq!(x.watch(&vec![vec![F, F, F]]), vec![0, 1, 2]);
}
