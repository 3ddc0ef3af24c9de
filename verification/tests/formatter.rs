use proofhouse_rust_lib::ast::{BinaryOperator, Expr, UnaryOperator};
use proofhouse_rust_lib::errors::{ExpressionError, ParseError, ParseErrorKind};
use proofhouse_rust_lib::evaluator::evaluate;
use proofhouse_rust_lib::formatter::format_expr;
use proofhouse_rust_lib::parser::parse;

fn number(value: i64) -> Expr {
    Expr::Number(value)
}

fn neg(operand: Expr) -> Expr {
    Expr::UnaryOp {
        op: UnaryOperator::Neg,
        operand: Box::new(operand),
    }
}

fn infix(op: BinaryOperator, left: Expr, right: Expr) -> Expr {
    Expr::BinaryOp {
        op,
        left: Box::new(left),
        right: Box::new(right),
    }
}

fn add(left: Expr, right: Expr) -> Expr {
    infix(BinaryOperator::Add, left, right)
}

fn sub(left: Expr, right: Expr) -> Expr {
    infix(BinaryOperator::Sub, left, right)
}

fn mul(left: Expr, right: Expr) -> Expr {
    infix(BinaryOperator::Mul, left, right)
}

fn div(left: Expr, right: Expr) -> Expr {
    infix(BinaryOperator::Div, left, right)
}

/// Trees paired with the one text each of them renders as.
fn cases() -> Vec<(Expr, &'static str)> {
    vec![
        (number(7), "7"),
        (add(number(1), number(2)), "1 + 2"),
        (sub(number(9), number(5)), "9 - 5"),
        (mul(number(6), number(7)), "6 * 7"),
        (div(number(8), number(2)), "8 / 2"),
        (neg(number(3)), "-3"),
        (neg(neg(number(3))), "--3"),
        (mul(add(number(1), number(2)), number(3)), "(1 + 2) * 3"),
        (neg(add(number(1), number(2))), "-(1 + 2)"),
        (add(number(1), mul(number(2), number(3))), "1 + 2 * 3"),
        (sub(number(8), div(number(4), number(2))), "8 - 4 / 2"),
        (mul(number(2), neg(number(3))), "2 * -3"),
        (mul(neg(number(3)), number(5)), "-3 * 5"),
        (sub(sub(number(9), number(5)), number(2)), "9 - 5 - 2"),
        (sub(number(9), sub(number(5), number(2))), "9 - (5 - 2)"),
        (add(number(1), add(number(2), number(3))), "1 + (2 + 3)"),
        (div(div(number(8), number(4)), number(2)), "8 / 4 / 2"),
        (div(number(8), div(number(4), number(2))), "8 / (4 / 2)"),
        (mul(div(number(8), number(2)), number(3)), "8 / 2 * 3"),
        (mul(number(2), mul(number(3), number(4))), "2 * (3 * 4)"),
        (
            mul(add(number(1), number(2)), sub(number(3), number(4))),
            "(1 + 2) * (3 - 4)",
        ),
        (
            neg(add(number(1), mul(number(2), number(3)))),
            "-(1 + 2 * 3)",
        ),
    ]
}

#[test]
fn format_expr_spells_each_tree_one_way() {
    for (expr, expected) in cases() {
        assert_eq!(format_expr(&expr), expected, "tree {expr:?}");
    }
}

#[test]
fn every_rendering_parses_back_to_its_own_tree() {
    for (expr, _) in cases() {
        let text = format_expr(&expr);
        assert_eq!(parse(&text).as_ref(), Ok(&expr), "text {text:?}");
    }
}

#[test]
fn extreme_literals_spell_in_full() {
    assert_eq!(format_expr(&number(i64::MAX)), "9223372036854775807");
    assert_eq!(format_expr(&number(i64::MIN)), "(-9223372036854775808)");
    assert_eq!(format_expr(&number(0)), "0");
    let big = add(number(i64::MAX), neg(number(1000000000000)));
    assert_eq!(
        parse(&format_expr(&big)).as_ref(),
        Ok(&big)
    );
}

#[test]
fn a_negative_literal_and_a_minus_over_its_magnitude_spell_apart() {
    let pairs = [
        (number(-3), neg(number(3)), "(-3)", "-3"),
        (mul(number(-3), number(5)), mul(neg(number(3)), number(5)), "(-3) * 5", "-3 * 5"),
        (sub(number(1), number(-2)), sub(number(1), neg(number(2))), "1 - (-2)", "1 - -2"),
        (neg(number(-7)), neg(neg(number(7))), "-(-7)", "--7"),
        (
            div(number(4), number(-i64::MAX)),
            div(number(4), neg(number(i64::MAX))),
            "4 / (-9223372036854775807)",
            "4 / -9223372036854775807",
        ),
    ];
    for (literal, minus, literal_text, minus_text) in pairs {
        assert_eq!(format_expr(&literal), literal_text);
        assert_eq!(format_expr(&minus), minus_text);
        assert_ne!(format_expr(&literal), format_expr(&minus));
        assert_eq!(evaluate(&literal), evaluate(&minus), "tree {literal:?}");
    }
}

#[test]
fn a_negative_literal_in_parentheses_parses_as_a_minus_over_its_magnitude() {
    assert_eq!(parse(&format_expr(&number(-3))).as_ref(), Ok(&neg(number(3))));
    assert_eq!(
        parse(&format_expr(&number(i64::MIN))),
        Err(ExpressionError::Parse(ParseError {
            offset: 2,
            kind: ParseErrorKind::NumberOutOfRange,
        }))
    );
}
