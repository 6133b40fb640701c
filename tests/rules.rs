use calc::semantics::simplify1::{add, exp, mul, neg, sub};
use calc::semantics::{simplify1, Error};
use calc::syntax::Expr;

fn n(i: i32) -> Expr {
    Expr::Const(i)
}

fn v(s: &str) -> Expr {
    Expr::var(s)
}

#[test]
fn add_drops_zero_on_either_side() {
    assert_eq!(add(n(0), v("x")).unwrap(), v("x"));
    assert_eq!(add(v("x"), n(0)).unwrap(), v("x"));
}

#[test]
fn add_folds_constants() {
    assert_eq!(add(n(40), n(2)).unwrap(), n(42));
    assert_eq!(add(n(-7), n(3)).unwrap(), n(-4));
}

#[test]
fn add_wraps_on_overflow() {
    assert_eq!(add(n(i32::MAX), n(1)).unwrap(), n(i32::MIN));
}

#[test]
fn add_cancels_subtracted_constant() {
    assert_eq!(add(Expr::sub(v("x"), n(5)), n(5)).unwrap(), v("x"));
    assert_eq!(add(n(5), Expr::sub(v("x"), n(5))).unwrap(), v("x"));
    assert_eq!(
        add(Expr::sub(v("x"), n(5)), n(4)).unwrap(),
        Expr::add(Expr::sub(v("x"), n(5)), n(4))
    );
}

#[test]
fn add_merges_constants_into_sum() {
    assert_eq!(add(Expr::add(v("e"), n(2)), n(3)).unwrap(), Expr::add(v("e"), n(5)));
    assert_eq!(add(n(3), Expr::add(v("e"), n(2))).unwrap(), Expr::add(v("e"), n(5)));
}

#[test]
fn add_keeps_other_sums() {
    assert_eq!(add(v("x"), v("y")).unwrap(), Expr::add(v("x"), v("y")));
    assert_eq!(
        add(Expr::add(v("x"), v("y")), n(3)).unwrap(),
        Expr::add(Expr::add(v("x"), v("y")), n(3))
    );
}

#[test]
fn sub_rules_in_order() {
    assert_eq!(sub(v("x"), n(0)).unwrap(), v("x"));
    assert_eq!(sub(n(3), n(10)).unwrap(), n(-7));
    assert_eq!(sub(Expr::mul(v("a"), v("b")), Expr::mul(v("a"), v("b"))).unwrap(), n(0));
    assert_eq!(sub(Expr::add(v("x"), n(4)), n(4)).unwrap(), v("x"));
    assert_eq!(sub(n(4), Expr::add(v("z"), n(4))).unwrap(), Expr::neg(v("z")));
    assert_eq!(sub(Expr::sub(v("e"), n(2)), n(3)).unwrap(), Expr::sub(v("e"), n(5)));
}

#[test]
fn sub_equality_is_structural() {
    let a = Expr::add(v("x"), v("y"));
    let b = Expr::add(v("y"), v("x"));
    assert_eq!(sub(a, b).unwrap(), Expr::sub(Expr::add(v("x"), v("y")), Expr::add(v("y"), v("x"))));
}

#[test]
fn sub_wraps_on_overflow() {
    assert_eq!(sub(n(i32::MIN), n(1)).unwrap(), n(i32::MAX));
}

#[test]
fn mul_rules_in_order() {
    assert_eq!(mul(n(0), v("x")).unwrap(), n(0));
    assert_eq!(mul(v("x"), n(0)).unwrap(), n(0));
    assert_eq!(mul(n(1), v("x")).unwrap(), v("x"));
    assert_eq!(mul(v("x"), n(1)).unwrap(), v("x"));
    assert_eq!(mul(n(6), n(-7)).unwrap(), n(-42));
    assert_eq!(mul(n(2), v("x")).unwrap(), Expr::mul(n(2), v("x")));
}

#[test]
fn mul_wraps_on_overflow() {
    assert_eq!(mul(n(65536), n(65536)).unwrap(), n(0));
}

#[test]
fn exp_zero_exponent_wins_over_zero_base() {
    assert_eq!(exp(n(0), n(0)).unwrap(), n(1));
    assert_eq!(exp(v("x"), n(0)).unwrap(), n(1));
}

#[test]
fn exp_rules_in_order() {
    assert_eq!(exp(n(0), v("x")).unwrap(), n(0));
    assert_eq!(exp(n(1), v("x")).unwrap(), n(1));
    assert_eq!(exp(v("x"), n(1)).unwrap(), v("x"));
    assert_eq!(exp(n(3), n(4)).unwrap(), n(81));
    assert_eq!(exp(n(-3), n(3)).unwrap(), n(-27));
    assert_eq!(exp(v("x"), n(2)).unwrap(), Expr::exp(v("x"), n(2)));
}

#[test]
fn exp_wraps_on_overflow() {
    assert_eq!(exp(n(2), n(31)).unwrap(), n(i32::MIN));
    assert_eq!(exp(n(2), n(32)).unwrap(), n(0));
    assert_eq!(exp(n(3), n(21)).unwrap(), n(3i32.wrapping_pow(21)));
}

#[test]
fn exp_rejects_negated_constant_exponent() {
    assert_eq!(exp(v("x"), Expr::neg(n(2))), Err(Error::NegativePower));
    assert_eq!(exp(n(2), Expr::neg(n(3))), Err(Error::NegativePower));
}

#[test]
fn exp_keeps_constant_exponent_below_zero() {
    assert_eq!(exp(v("x"), n(-1)).unwrap(), Expr::exp(v("x"), n(-1)));
    assert_eq!(exp(n(2), n(-3)).unwrap(), Expr::exp(n(2), n(-3)));
}

#[test]
fn exp_base_zero_or_one_wins_over_negative_exponent() {
    assert_eq!(exp(n(0), n(-1)).unwrap(), n(0));
    assert_eq!(exp(n(1), Expr::neg(n(4))).unwrap(), n(1));
}

#[test]
fn neg_rules_in_order() {
    assert_eq!(neg(Expr::neg(v("x"))).unwrap(), v("x"));
    assert_eq!(neg(n(5)).unwrap(), n(-5));
    assert_eq!(neg(n(i32::MIN)).unwrap(), n(i32::MIN));
    assert_eq!(neg(v("x")).unwrap(), Expr::neg(v("x")));
}

#[test]
fn dispatch_by_root() {
    assert_eq!(simplify1(Expr::add(n(1), n(2))).unwrap(), n(3));
    assert_eq!(simplify1(Expr::metavar("a")), Err(Error::Metavar));
    assert_eq!(simplify1(v("x")).unwrap(), v("x"));
    assert_eq!(simplify1(n(9)).unwrap(), n(9));
    // the operands are not looked into
    assert_eq!(
        simplify1(Expr::mul(Expr::add(n(1), n(2)), v("x"))).unwrap(),
        Expr::mul(Expr::add(n(1), n(2)), v("x"))
    );
}

#[test]
fn error_messages() {
    assert_eq!(Error::NegativePower.message(), "cannot raise to a negative power");
    assert_eq!(Error::Metavar.message(), "metavariable");
}

#[test]
fn equality_and_copies_are_deep() {
    let a = Expr::add(v("x"), Expr::neg(Expr::metavar("m")));
    let b = Expr::add(Expr::var("x"), Expr::neg(Expr::metavar("m")));
    assert_eq!(a, b);
    assert_eq!(a.clone(), a);
    assert_ne!(v("m"), Expr::metavar("m"));
    assert_ne!(Expr::sub(v("x"), v("y")), Expr::sub(v("y"), v("x")));
}
