use proofhouse_rust_lib::ast::{BinaryOperator, Expr, UnaryOperator};
use proofhouse_rust_lib::errors::{ExpressionError, LexError, ParseError, ParseErrorKind};
use proofhouse_rust_lib::parser::parse;

/// Render a tree with a pair of parentheses around every operator node, so
/// precedence and grouping read straight off the string.
fn render(expr: &Expr) -> String {
    match expr {
        Expr::Number(value) => value.to_string(),
        Expr::UnaryOp { op, operand } => match op {
            UnaryOperator::Neg => format!("(-{})", render(operand)),
        },
        Expr::BinaryOp { op, left, right } => {
            let symbol = match op {
                BinaryOperator::Add => '+',
                BinaryOperator::Sub => '-',
                BinaryOperator::Mul => '*',
                BinaryOperator::Div => '/',
            };
            format!("({} {} {})", render(left), symbol, render(right))
        }
    }
}

#[test]
fn parse_builds_expected_nodes() {
    let cases: &[(&str, Expr)] = &[
        ("7", Expr::Number(7)),
        (
            "1+2",
            Expr::BinaryOp {
                op: BinaryOperator::Add,
                left: Box::new(Expr::Number(1)),
                right: Box::new(Expr::Number(2)),
            },
        ),
        (
            "-3",
            Expr::UnaryOp {
                op: UnaryOperator::Neg,
                operand: Box::new(Expr::Number(3)),
            },
        ),
        ("(7)", Expr::Number(7)),
    ];
    for (input, expected) in cases {
        assert_eq!(parse(input).as_ref(), Ok(expected), "input {input:?}");
    }
}

#[test]
fn parse_shapes_precedence_and_associativity() {
    let cases: &[(&str, &str)] = &[
        ("1+2*3", "(1 + (2 * 3))"),
        ("1*2+3", "((1 * 2) + 3)"),
        ("8-4/2", "(8 - (4 / 2))"),
        ("1+2+3", "((1 + 2) + 3)"),
        ("9-5-2", "((9 - 5) - 2)"),
        ("8/4/2", "((8 / 4) / 2)"),
        ("2*3*4", "((2 * 3) * 4)"),
        ("2*3/4", "((2 * 3) / 4)"),
        ("8/2*3", "((8 / 2) * 3)"),
        ("(1+2)*3", "((1 + 2) * 3)"),
        ("2*(3-(4+5))", "(2 * (3 - (4 + 5)))"),
        ("((7))", "7"),
        ("- -3", "(-(-3))"),
        ("---3", "(-(-(-3)))"),
        ("-2*3", "((-2) * 3)"),
        ("2*-3", "(2 * (-3))"),
        ("-(1+2)", "(-(1 + 2))"),
        (" 1 + 2 ", "(1 + 2)"),
    ];
    for &(input, expected) in cases {
        let expr = parse(input).unwrap();
        assert_eq!(render(&expr), expected, "input {input:?}");
    }
}

#[test]
fn parse_reads_the_largest_literal_that_fits() {
    assert_eq!(parse("9223372036854775807"), Ok(Expr::Number(i64::MAX)));
}

#[test]
fn parse_rejects_bad_syntax_with_kind_and_offset() {
    let cases: &[(&str, ParseErrorKind, usize)] = &[
        ("", ParseErrorKind::UnexpectedEndOfInput, 0),
        ("   ", ParseErrorKind::UnexpectedEndOfInput, 3),
        ("1+", ParseErrorKind::UnexpectedEndOfInput, 2),
        ("-", ParseErrorKind::UnexpectedEndOfInput, 1),
        ("(1+2", ParseErrorKind::UnexpectedEndOfInput, 4),
        ("*3", ParseErrorKind::UnexpectedToken, 0),
        ("1+*2", ParseErrorKind::UnexpectedToken, 2),
        ("()", ParseErrorKind::UnexpectedToken, 1),
        ("(1 2", ParseErrorKind::UnexpectedToken, 3),
        ("1+2)", ParseErrorKind::TrailingInput, 3),
        ("1 2", ParseErrorKind::TrailingInput, 2),
        ("(1)(2)", ParseErrorKind::TrailingInput, 3),
        // One past the largest value that fits, first on its own and then
        // behind a prefix minus. The parser weighs the digits alone, so the
        // sign in front buys them no room.
        ("9223372036854775808", ParseErrorKind::NumberOutOfRange, 0),
        ("-9223372036854775808", ParseErrorKind::NumberOutOfRange, 1),
        (
            "1 + 99999999999999999999999",
            ParseErrorKind::NumberOutOfRange,
            4,
        ),
    ];
    for &(input, kind, offset) in cases {
        assert_eq!(
            parse(input),
            Err(ExpressionError::Parse(ParseError { offset, kind })),
            "input {input:?}"
        );
    }
}

#[test]
fn parse_reports_a_lex_error_from_the_text() {
    assert_eq!(
        parse("1 $ 2"),
        Err(ExpressionError::Lex(LexError {
            offset: 2,
            character: '$'
        }))
    );
}

#[test]
fn end_of_input_points_past_the_last_byte_of_wide_text() {
    // Two bytes of no-break space, then an operator with nothing after it.
    assert_eq!(
        parse("1+\u{a0}"),
        Err(ExpressionError::Parse(ParseError {
            offset: 4,
            kind: ParseErrorKind::UnexpectedEndOfInput
        }))
    );
}

#[test]
fn a_long_digit_run_with_leading_zeros_still_fits() {
    assert_eq!(
        parse("0000000000000000000000042"),
        Ok(Expr::Number(42))
    );
}
