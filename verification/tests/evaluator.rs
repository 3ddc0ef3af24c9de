use proofhouse_rust_lib::ast::{BinaryOperator, Expr, UnaryOperator};
use proofhouse_rust_lib::errors::{EvalError, ExpressionError, ParseError, ParseErrorKind};
use proofhouse_rust_lib::evaluator::{apply, evaluate, evaluate_text, Rational};

/// Build a value from a pair the case tables already know is valid.
fn ratio(numerator: i64, denominator: i64) -> Rational {
    Rational::new(numerator, denominator).unwrap()
}

#[test]
fn evaluate_text_yields_the_exact_value() {
    let cases: &[(&str, i64, i64)] = &[
        ("7", 7, 1),
        ("2+3", 5, 1),
        ("10-4", 6, 1),
        ("6*7", 42, 1),
        ("8/2", 4, 1),
        ("1/3", 1, 3),
        ("2/6", 1, 3),
        ("1/3+1/3+1/3", 1, 1),
        ("1+2*3", 7, 1),
        ("(1+2)*3", 9, 1),
        ("8-4/2", 6, 1),
        ("9-5-2", 2, 1),
        ("8/4/2", 1, 1),
        ("0/5", 0, 1),
        ("-3", -3, 1),
        ("- -3", 3, 1),
        ("---3", -3, 1),
        ("-(1+2)", -3, 1),
        ("2*-3", -6, 1),
        ("6/-2", -3, 1),
        ("6/-3", -2, 1),
        ("1/2-3/4", -1, 4),
    ];
    for &(input, numerator, denominator) in cases {
        assert_eq!(
            evaluate_text(input),
            Ok(ratio(numerator, denominator)),
            "input {input:?}"
        );
    }
}

#[test]
fn evaluate_walks_a_prebuilt_tree() {
    let tree = Expr::BinaryOp {
        op: BinaryOperator::Mul,
        left: Box::new(Expr::UnaryOp {
            op: UnaryOperator::Neg,
            operand: Box::new(Expr::Number(4)),
        }),
        right: Box::new(Expr::Number(5)),
    };
    assert_eq!(evaluate(&tree), Ok(Rational::from_integer(-20)));
}

#[test]
fn evaluate_text_rejects_a_zero_divisor() {
    for input in ["1/0", "1/(2-2)", "0/0"] {
        assert_eq!(
            evaluate_text(input),
            Err(ExpressionError::Eval(EvalError::DivisionByZero)),
            "input {input:?}"
        );
    }
}

#[test]
fn evaluate_text_hands_back_a_parse_failure_unchanged() {
    assert_eq!(
        evaluate_text("1+"),
        Err(ExpressionError::Parse(ParseError {
            offset: 2,
            kind: ParseErrorKind::UnexpectedEndOfInput,
        }))
    );
}

#[test]
fn evaluate_reports_overflow_from_either_operator_shape() {
    let doubled = format!("{max}+{max}", max = i64::MAX);
    assert_eq!(
        evaluate_text(&doubled),
        Err(ExpressionError::Eval(EvalError::Overflow))
    );
    let negated = Expr::UnaryOp {
        op: UnaryOperator::Neg,
        operand: Box::new(Expr::Number(i64::MIN)),
    };
    assert_eq!(evaluate(&negated), Err(EvalError::Overflow));
}

#[test]
fn construction_moves_the_sign_and_reduces() {
    let cases: &[(i64, i64, i64, i64)] = &[
        (7, 1, 7, 1),
        (2, 6, 1, 3),
        (-2, 6, -1, 3),
        (2, -6, -1, 3),
        (-2, -6, 1, 3),
        (-2, 4, -1, 2),
        (5, 5, 1, 1),
        (0, 5, 0, 1),
        (i64::MIN, 1, i64::MIN, 1),
    ];
    for &(numerator, denominator, expected_numerator, expected_denominator) in cases {
        let value = ratio(numerator, denominator);
        assert_eq!(
            (value.numerator(), value.denominator()),
            (expected_numerator, expected_denominator),
            "input {numerator}/{denominator}"
        );
    }
}

#[test]
fn arithmetic_stays_exact() {
    assert_eq!(ratio(1, 3).checked_add(ratio(1, 6)), Ok(ratio(1, 2)));
    assert_eq!(ratio(1, 2).checked_sub(ratio(1, 3)), Ok(ratio(1, 6)));
    assert_eq!(ratio(2, 3).checked_mul(ratio(3, 4)), Ok(ratio(1, 2)));
    assert_eq!(ratio(1, 2).checked_div(ratio(1, 4)), Ok(ratio(2, 1)));
    assert_eq!(ratio(1, 3).checked_neg(), Ok(ratio(-1, 3)));
}

#[test]
fn a_zero_divisor_is_a_typed_error() {
    let zero = Rational::from_integer(0);
    assert_eq!(
        ratio(1, 2).checked_div(zero),
        Err(EvalError::DivisionByZero)
    );
    assert_eq!(Rational::new(1, 0), Err(EvalError::DivisionByZero));
}

#[test]
fn every_checked_step_reports_overflow() {
    let biggest = Rational::from_integer(i64::MAX);
    let smallest = Rational::from_integer(i64::MIN);
    let tiny = ratio(1, i64::MAX);
    let opposite = ratio(-1, i64::MAX);
    let cases: &[(&str, Result<Rational, EvalError>)] = &[
        ("construction negates the numerator", Rational::new(i64::MIN, -1)),
        ("construction negates the denominator", Rational::new(1, i64::MIN)),
        ("a sum crosses the left numerator", biggest.checked_add(tiny)),
        ("a sum crosses the right numerator", tiny.checked_add(biggest)),
        ("a sum adds the crossed pair", biggest.checked_add(biggest)),
        ("a sum multiplies the denominators", tiny.checked_add(opposite)),
        ("a difference crosses the left numerator", biggest.checked_sub(tiny)),
        ("a difference crosses the right numerator", tiny.checked_sub(biggest)),
        (
            "a difference subtracts the crossed pair",
            biggest.checked_sub(ratio(-1, 1)),
        ),
        ("a difference multiplies the denominators", tiny.checked_sub(tiny)),
        ("a product multiplies the numerators", biggest.checked_mul(biggest)),
        ("a product multiplies the denominators", tiny.checked_mul(tiny)),
        ("a quotient crosses the numerator", biggest.checked_div(tiny)),
        ("a quotient crosses the denominator", tiny.checked_div(biggest)),
        ("a negation flips the numerator", smallest.checked_neg()),
    ];
    for &(name, outcome) in cases {
        assert_eq!(outcome, Err(EvalError::Overflow), "case {name:?}");
    }
}

#[test]
fn construction_reduces_large_common_factors() {
    let value = ratio(-6_000_000_000, -4_000_000_000);
    assert_eq!((value.numerator(), value.denominator()), (3, 2));
    // Reducing a reduced value again leaves it alone.
    assert_eq!(Rational::new(value.numerator(), value.denominator()), Ok(value));
}

#[test]
fn equal_numbers_compare_equal_whatever_their_spelling() {
    assert_eq!(ratio(2, 4), ratio(-3, -6));
    assert_ne!(ratio(1, 2), ratio(1, 3));
}

#[test]
fn apply_picks_the_operation_the_operator_names() {
    let a = ratio(3, 4);
    let b = ratio(1, 4);
    assert_eq!(apply(BinaryOperator::Add, a, b), Ok(ratio(1, 1)));
    assert_eq!(apply(BinaryOperator::Sub, a, b), Ok(ratio(1, 2)));
    assert_eq!(apply(BinaryOperator::Mul, a, b), Ok(ratio(3, 16)));
    assert_eq!(apply(BinaryOperator::Div, a, b), Ok(ratio(3, 1)));
}

#[test]
fn a_zero_divisor_deep_in_a_tree_never_yields_a_value() {
    for input in ["2 * (3 / (1 - 1)) + 4", "(5 - 5 * 1) / (7 - 7)"] {
        assert_eq!(
            evaluate_text(input),
            Err(ExpressionError::Eval(EvalError::DivisionByZero)),
            "input {input:?}"
        );
    }
}

#[test]
fn a_lex_failure_comes_first() {
    assert!(matches!(
        evaluate_text("1/0 + x"),
        Err(ExpressionError::Lex(_))
    ));
}
