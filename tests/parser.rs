use calc::parser::parse_expr;
use calc::syntax::Expr;

#[test]
fn test_parse_const() {
    assert_eq!(Expr::Const(42), parse_expr("42").unwrap());
}

#[test]
fn test_parse_var() {
    assert_eq!(Expr::var("x"), parse_expr("x").unwrap());
}

#[test]
fn test_parse_ops() {
    let expected = Expr::add(Expr::Const(1), Expr::mul(Expr::Const(2), Expr::Const(3)));
    assert_eq!(expected, parse_expr("1 + 2 * 3").unwrap());
}

#[test]
fn test_parse_precedence() {
    let expected = Expr::add(Expr::mul(Expr::Const(1), Expr::Const(2)), Expr::Const(3));
    assert_eq!(expected, parse_expr("1 * 2 + 3").unwrap());
}

#[test]
fn test_parse_sub_double_negation() {
    let expected = Expr::sub(Expr::var("x"), Expr::neg(Expr::neg(Expr::var("x"))));
    assert_eq!(expected, parse_expr("x - - - x").unwrap());
}

#[test]
fn test_parse_compound1() {
    let expected = Expr::add(Expr::mul(Expr::Const(2), Expr::var("x")), Expr::var("y"));
    assert_eq!(expected, parse_expr("2 * x + y").unwrap());
}

#[test]
fn test_parse_compound2() {
    let expected = Expr::add(
        Expr::mul(
            Expr::add(Expr::mul(Expr::Const(0), Expr::var("x")), Expr::Const(1)),
            Expr::Const(3),
        ),
        Expr::Const(12),
    );
    assert_eq!(expected, parse_expr("(0 * x + 1) * 3 + 12").unwrap());
}

#[test]
fn test_parse_metavar() {
    assert_eq!(Expr::metavar("x"), parse_expr("$x").unwrap());
}

#[test]
fn test_parse_exp() {
    assert_eq!(Expr::exp(Expr::Const(2), Expr::Const(3)), parse_expr("2 ^ 3").unwrap());
}

#[test]
fn test_parse_exp_with_var() {
    assert_eq!(Expr::exp(Expr::var("x"), Expr::Const(2)), parse_expr("x ^ 2").unwrap());
}

#[test]
fn test_parse_exp_with_negation() {
    let expected = Expr::exp(Expr::neg(Expr::var("x")), Expr::Const(2));
    assert_eq!(expected, parse_expr("-x ^ 2").unwrap());
}

#[test]
fn test_parse_exp_with_addition() {
    let expected = Expr::add(Expr::var("x"), Expr::exp(Expr::var("y"), Expr::Const(2)));
    assert_eq!(expected, parse_expr("x + y ^ 2").unwrap());
}

#[test]
fn test_parse_exp_with_mixed_ops() {
    let expected = Expr::add(
        Expr::var("x"),
        Expr::mul(Expr::exp(Expr::var("y"), Expr::Const(2)), Expr::var("z")),
    );
    assert_eq!(expected, parse_expr("x + y ^ 2 * z").unwrap());
}

#[test]
fn parse_left_associative_chains() {
    let expected = Expr::sub(Expr::add(Expr::Const(1), Expr::Const(2)), Expr::Const(3));
    assert_eq!(expected, parse_expr("1 + 2 - 3").unwrap());
    let expected = Expr::mul(Expr::mul(Expr::var("a"), Expr::var("b")), Expr::var("c"));
    assert_eq!(expected, parse_expr("a*b*c").unwrap());
}

#[test]
fn parse_power_is_right_associative() {
    let expected = Expr::exp(Expr::Const(2), Expr::exp(Expr::Const(3), Expr::Const(2)));
    assert_eq!(expected, parse_expr("2 ^ 3 ^ 2").unwrap());
}

#[test]
fn parse_names_and_spaces() {
    let expected = Expr::add(Expr::var("foo_1"), Expr::metavar("_bar"));
    assert_eq!(expected, parse_expr("\t foo_1\n+ $_bar  ").unwrap());
}

#[test]
fn parse_largest_constant() {
    assert_eq!(Expr::Const(i32::MAX), parse_expr("2147483647").unwrap());
    assert_eq!(Expr::neg(Expr::Const(2147483647)), parse_expr("-2147483647").unwrap());
}

#[test]
fn parse_rejects_bad_text() {
    for text in ["", "   ", "1 +", "(1 + 2", "1 + 2)", "$", "$1", "2147483648", "1 2", "x # y", "é"] {
        assert!(parse_expr(text).is_err(), "{:?}", text);
    }
}
