use calc::semantics::{apply_one_pass, simplify, Error};
use calc::syntax::Expr;

fn n(i: i32) -> Expr {
    Expr::Const(i)
}

fn v(s: &str) -> Expr {
    Expr::var(s)
}

#[test]
fn normal_form_is_stable() {
    let inputs = vec![
        Expr::add(Expr::mul(Expr::add(v("x"), n(0)), v("y")), n(3)),
        Expr::sub(v("x"), Expr::sub(v("y"), Expr::sub(v("y"), v("x")))),
        Expr::add(Expr::add(Expr::add(v("x"), n(1)), n(-1)), n(4)),
        Expr::exp(Expr::neg(v("x")), n(2)),
    ];
    for input in inputs {
        let once = simplify(&input).unwrap();
        let twice = simplify(&once).unwrap();
        assert_eq!(once, twice);
        assert_eq!(apply_one_pass(&once).unwrap(), once);
    }
}

#[test]
fn simplify_leaves_input_untouched() {
    let input = Expr::add(n(40), n(2));
    let copy = input.clone();
    let _ = simplify(&input).unwrap();
    assert_eq!(input, copy);
}

#[test]
fn constants_evaluate() {
    // ((7 - 10) * -(2)) ^ 2 - 0 ^ 0
    let e = Expr::sub(
        Expr::exp(Expr::mul(Expr::sub(n(7), n(10)), Expr::neg(n(2))), n(2)),
        Expr::exp(n(0), n(0)),
    );
    assert_eq!(simplify(&e).unwrap(), n(35));
}

#[test]
fn constants_evaluate_with_wrapping() {
    let e = Expr::add(Expr::exp(n(2), n(30)), Expr::exp(n(2), n(30)));
    assert_eq!(simplify(&e).unwrap(), n(i32::MIN));
}

#[test]
fn placeholder_fails_at_any_depth() {
    let shallow = Expr::metavar("x");
    assert_eq!(simplify(&shallow), Err(Error::Metavar));
    let deep = Expr::add(n(1), Expr::mul(v("y"), Expr::neg(Expr::exp(v("z"), Expr::metavar("x")))));
    assert_eq!(simplify(&deep), Err(Error::Metavar));
    // never folded away, not even by `0 * x`
    let hidden = Expr::mul(n(0), Expr::metavar("x"));
    assert_eq!(simplify(&hidden), Err(Error::Metavar));
}

#[test]
fn constant_exponent_below_zero_is_kept() {
    let e = Expr::exp(v("x"), Expr::sub(n(1), n(3)));
    assert_eq!(simplify(&e).unwrap(), Expr::exp(v("x"), n(-2)));
    // the negation folds to a constant before the exponentiation sees it
    let e = Expr::exp(v("x"), Expr::neg(n(1)));
    assert_eq!(simplify(&e).unwrap(), Expr::exp(v("x"), n(-1)));
    let e = Expr::exp(n(2), Expr::neg(n(3)));
    assert_eq!(simplify(&e).unwrap(), Expr::exp(n(2), n(-3)));
}

#[test]
fn negative_exponent_spared_by_base() {
    let e = Expr::exp(Expr::sub(v("x"), v("x")), Expr::neg(n(1)));
    assert_eq!(simplify(&e).unwrap(), n(0));
    let e = Expr::exp(n(1), Expr::neg(n(7)));
    assert_eq!(simplify(&e).unwrap(), n(1));
}

#[test]
fn exponent_folded_in_later_pass_is_kept() {
    // z ^ ((((x + 1) + -1) - x) - 1): the exponent becomes -1 only in the
    // second pass
    let exponent = Expr::sub(
        Expr::sub(Expr::add(Expr::add(v("x"), n(1)), n(-1)), v("x")),
        n(1),
    );
    let e = Expr::exp(v("z"), exponent);
    assert!(apply_one_pass(&e).unwrap() != Expr::exp(v("z"), n(-1)));
    assert_eq!(simplify(&e).unwrap(), Expr::exp(v("z"), n(-1)));
}

#[test]
fn placeholder_fails_whatever_the_exponents() {
    let e = Expr::add(Expr::exp(v("x"), n(-1)), Expr::metavar("y"));
    assert_eq!(simplify(&e), Err(Error::Metavar));
    let e = Expr::add(Expr::metavar("y"), Expr::exp(v("x"), Expr::neg(n(1))));
    assert_eq!(simplify(&e), Err(Error::Metavar));
}

#[test]
fn one_pass_may_stop_short() {
    let e = Expr::sub(Expr::add(Expr::add(v("x"), n(1)), n(-1)), v("x"));
    let once = apply_one_pass(&e).unwrap();
    assert_eq!(once, Expr::sub(Expr::add(v("x"), n(0)), v("x")));
    assert_eq!(simplify(&e).unwrap(), n(0));
}

#[test]
fn add_chain_folds_in_one_pass() {
    let e = Expr::add(n(1), Expr::add(n(2), Expr::add(n(3), n(4))));
    assert_eq!(apply_one_pass(&e).unwrap(), n(10));
    assert_eq!(simplify(&e).unwrap(), n(10));
}

#[test]
fn deep_chain_needs_no_deep_stack() {
    let mut e = n(1);
    for _ in 0..20000 {
        e = Expr::add(n(1), e);
    }
    assert_eq!(simplify(&e).unwrap(), n(20001));
    let mut e = v("x");
    for _ in 0..20000 {
        e = Expr::neg(e);
    }
    assert_eq!(simplify(&e).unwrap(), v("x"));
}

#[test]
fn deep_normal_form_compares_without_deep_stack() {
    let mut e = v("x");
    for _ in 0..20000 {
        e = Expr::mul(v("y"), e);
    }
    let r = simplify(&e).unwrap();
    assert!(r == e);
}

#[test]
fn scenarios() {
    assert_eq!(simplify(&Expr::add(n(40), n(2))).unwrap(), n(42));
    assert_eq!(simplify(&Expr::add(n(1), Expr::mul(n(2), n(3)))).unwrap(), n(7));
    assert_eq!(simplify(&Expr::exp(n(2), Expr::add(n(1), n(2)))).unwrap(), n(8));
    assert_eq!(simplify(&Expr::add(n(5), Expr::sub(v("x"), n(5)))).unwrap(), v("x"));
    assert_eq!(simplify(&Expr::sub(n(4), Expr::add(v("z"), n(4)))).unwrap(), Expr::neg(v("z")));
    let e = Expr::add(
        Expr::mul(v("x"), Expr::add(v("y"), Expr::mul(v("z"), Expr::sub(n(2), n(1))))),
        Expr::mul(n(0), v("w")),
    );
    assert_eq!(simplify(&e).unwrap(), Expr::mul(v("x"), Expr::add(v("y"), v("z"))));
}
