use proofhouse_rust_lib::errors::{EvalError, ExpressionError, LexError, ParseError, ParseErrorKind};

#[test]
fn parse_error_display_names_kind_and_offset() {
    let cases: &[(ParseErrorKind, &str)] = &[
        (ParseErrorKind::UnexpectedToken, "unexpected token at offset 4"),
        (ParseErrorKind::UnexpectedEndOfInput, "unexpected end of input at offset 4"),
        (
            ParseErrorKind::TrailingInput,
            "trailing input after a complete expression at offset 4",
        ),
        (ParseErrorKind::NumberOutOfRange, "number literal out of range at offset 4"),
    ];
    for &(kind, expected) in cases {
        let err = ParseError { offset: 4, kind };
        assert_eq!(err.to_string(), expected);
    }
}

#[test]
fn expression_error_wraps_and_delegates_to_parse_error() {
    let inner = ParseError {
        offset: 2,
        kind: ParseErrorKind::UnexpectedToken,
    };
    let wrapped = ExpressionError::from(inner);
    assert_eq!(wrapped, ExpressionError::Parse(inner));
    assert_eq!(wrapped.to_string(), inner.to_string());
    let source = match wrapped {
        ExpressionError::Parse(err) => Some(err),
        _ => None,
    };
    assert_eq!(source, Some(inner));
}

#[test]
fn lex_error_display_names_character_and_offset() {
    let err = LexError {
        offset: 3,
        character: '$',
    };
    assert_eq!(err.to_string(), "unexpected character '$' at offset 3");
}

#[test]
fn expression_error_wraps_and_delegates_to_lex_error() {
    let inner = LexError {
        offset: 1,
        character: '.',
    };
    let wrapped = ExpressionError::from(inner);
    assert_eq!(wrapped, ExpressionError::Lex(inner));
    assert_eq!(wrapped.to_string(), inner.to_string());
    let source = match wrapped {
        ExpressionError::Lex(err) => Some(err),
        _ => None,
    };
    assert_eq!(source, Some(inner));
}

#[test]
fn lex_error_message_escapes_a_control_character() {
    let err = LexError {
        offset: 0,
        character: '\n',
    };
    assert_eq!(err.to_string(), "unexpected character '\\n' at offset 0");
}

#[test]
fn eval_errors_have_messages_of_their_own() {
    assert_eq!(EvalError::DivisionByZero.to_string(), "division by zero");
    assert_eq!(EvalError::Overflow.to_string(), "arithmetic overflow");
    let wrapped = ExpressionError::from(EvalError::Overflow);
    assert_eq!(wrapped, ExpressionError::Eval(EvalError::Overflow));
    assert_eq!(wrapped.to_string(), "arithmetic overflow");
}

#[test]
fn offsets_render_in_full() {
    let err = ParseError {
        offset: 1234567890,
        kind: ParseErrorKind::TrailingInput,
    };
    assert_eq!(
        err.to_string(),
        "trailing input after a complete expression at offset 1234567890"
    );
}
