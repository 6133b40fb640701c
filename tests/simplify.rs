use calc::parser::parse_expr;
use calc::semantics::simplify;

#[test]
fn test_simplify_basic() {
    let expected = parse_expr("42").unwrap();
    let input = parse_expr("40 + 2").unwrap();
    let actual = simplify(&input).unwrap();
    assert_eq!(expected, actual);
}

#[test]
fn test_simplify() {
    let inputs: &[(&str, &str)] = &[
        ("7", "1 + 2 * 3"),
        ("21", "(1 + 2) * (3 + 4)"),
        ("15", "(0 * x + 1) * 3 + 12"),
        ("0", "0 + (0 + (1 - 1))"),
        ("x + 15", "x + 15 - 12 * 0"),
        ("-x", "-(-(-(x)))"),
        ("x  + y", "0 + (x + (0 + y))"),
        ("x * y", "1 * (x * (1 * y))"),
        ("0", "z * (0 * (x * y))"),
        ("x - (y - (y - x))", "x - (y - (y - x))"),
        ("8", "2 ^ (1 + 2)"),
        ("x + 1", "(x + 0) * (1 + (y - y)) + (z ^ 0)"),
        ("x + z", "(x + 0) * (1 + (y - y)) + (z ^ 1)"),
        ("x + 3", "((((x + 1) - 1) + 2) - 2) + 3"),
        // c1 + (x - c2) -> x when c1 == c2
        ("x", "5 + (x - 5)"),
        ("y + 3", "7 + ((y + 3) - 7)"),
        // c1 - (x + c2) -> -x when c1 == c2
        ("-z", "4 - (z + 4)"),
        ("-(a * b)", "10 - ((a * b) + 10)"),
        // nested cases
        ("x", "3 + ((x - 1) - 2)"),
        ("-y", "5 - ((3 + (y + 2)))"),
        ("x * (y + z)", "x * (y + (z * (2 - 1))) + (0 * w)"),
        ("x * y", "(x * (y + 0)) + (0 * z)"),
        ("x * y", "x * (y ^ ((0 + 2) - 1))"),
        ("x", "((x * 1) + 0) - ((y - y) * z)"),
        ("1", "1 + ((x - x) * (y + z))"),
    ];
    for (expected_str, input_str) in inputs {
        let expected = parse_expr(expected_str).unwrap();
        let input = parse_expr(input_str).unwrap();
        let actual = simplify(&input).unwrap();
        assert_eq!(expected, actual, "{}", input_str);
    }
}
