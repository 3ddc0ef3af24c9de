//! Errors raised while processing expressions.

use vstd::prelude::*;

use crate::numeral::{decimal, push_decimal};

verus! {

/// A character the lexer can't turn into a token, and its position.
#[derive(Debug, Clone, Copy, PartialEq, Eq, Structural)]
pub struct LexError {
    /// Byte offset of the offending character within the source text.
    pub offset: usize,
    /// The character that couldn't begin a token.
    pub character: char,
}

/// What the parser found wrong with a token stream.
#[derive(Debug, Clone, Copy, PartialEq, Eq, Structural)]
pub enum ParseErrorKind {
    /// A token turned up where the grammar has no use for one.
    UnexpectedToken,
    /// The input ran out with a production still unfinished.
    UnexpectedEndOfInput,
    /// More tokens follow an expression that was already complete.
    TrailingInput,
    /// A digit run names a value too large for the 64-bit integer that
    /// holds it.
    NumberOutOfRange,
}

/// A token stream the parser can't turn into an expression, and where it
/// gave up.
#[derive(Debug, Clone, Copy, PartialEq, Eq, Structural)]
pub struct ParseError {
    /// Byte offset the failure points at within the source text. A
    /// failure that runs off the end of the input points one past its
    /// last byte.
    pub offset: usize,
    /// Which way the token stream disagreed with the grammar.
    pub kind: ParseErrorKind,
}

/// Why reducing an expression tree to a value failed.
#[derive(Debug, Clone, Copy, PartialEq, Eq, Structural)]
pub enum EvalError {
    /// A divisor reduced to zero.
    DivisionByZero,
    /// A step left the range of a 64-bit integer.
    Overflow,
}

/// Any error raised while turning expression text into a result.
#[derive(Debug, Clone, Copy, PartialEq, Eq, Structural)]
pub enum ExpressionError {
    /// The lexer met a character it couldn't tokenize.
    Lex(LexError),
    /// The parser met a token stream that forms no expression.
    Parse(ParseError),
    /// The walk over a well-formed tree failed.
    Eval(EvalError),
}

/// How `{:?}` renders a character: quoted, with the characters that need it
/// escaped.
pub uninterp spec fn char_debug(c: char) -> Seq<char>;

/// `<char as Debug>::fmt`, through `format!("{:?}", ..)`. The contract names
/// the rendering and says nothing of its characters: the standard library
/// documents the quoting and escaping only by example.
#[verifier::external_body]
fn debug_char(c: char) -> (res: String)
    ensures
        res@ == char_debug(c),
{
    format!("{:?}", c)
}

/// The message of a lexing failure.
pub open spec fn lex_error_message(e: LexError) -> Seq<char> {
    "unexpected character "@ + char_debug(e.character) + " at offset "@ + decimal(e.offset as nat)
}

/// The phrase naming each way a token stream disagrees with the grammar.
pub open spec fn kind_phrase(kind: ParseErrorKind) -> Seq<char> {
    match kind {
        ParseErrorKind::UnexpectedToken => "unexpected token"@,
        ParseErrorKind::UnexpectedEndOfInput => "unexpected end of input"@,
        ParseErrorKind::TrailingInput => "trailing input after a complete expression"@,
        ParseErrorKind::NumberOutOfRange => "number literal out of range"@,
    }
}

/// The message of a parsing failure.
pub open spec fn parse_error_message(e: ParseError) -> Seq<char> {
    kind_phrase(e.kind) + " at offset "@ + decimal(e.offset as nat)
}

/// The message of an evaluation failure.
pub open spec fn eval_error_message(e: EvalError) -> Seq<char> {
    match e {
        EvalError::DivisionByZero => "division by zero"@,
        EvalError::Overflow => "arithmetic overflow"@,
    }
}

/// The message of any failure: the message of the error it wraps.
pub open spec fn expression_error_message(e: ExpressionError) -> Seq<char> {
    match e {
        ExpressionError::Lex(inner) => lex_error_message(inner),
        ExpressionError::Parse(inner) => parse_error_message(inner),
        ExpressionError::Eval(inner) => eval_error_message(inner),
    }
}

impl LexError {
    /// The message naming the character, in its quoted debug form, and the
    /// offset.
    pub fn to_string(&self) -> (res: String)
        ensures
            res@ == lex_error_message(*self),
    {
        let mut out = String::new();
        out.append("unexpected character ");
        let quoted = debug_char(self.character);
        out.append(quoted.as_str());
        out.append(" at offset ");
        push_decimal(&mut out, self.offset as u64);
        proof {
            assert(Seq::<char>::empty() + "unexpected character "@ =~= "unexpected character "@);
        }
        out
    }
}

impl ParseErrorKind {
    /// The phrase naming this way of disagreeing with the grammar.
    pub fn to_string(&self) -> (res: String)
        ensures
            res@ == kind_phrase(*self),
    {
        let phrase = match *self {
            ParseErrorKind::UnexpectedToken => "unexpected token",
            ParseErrorKind::UnexpectedEndOfInput => "unexpected end of input",
            ParseErrorKind::TrailingInput => "trailing input after a complete expression",
            ParseErrorKind::NumberOutOfRange => "number literal out of range",
        };
        String::from_str(phrase)
    }
}

impl ParseError {
    /// The message naming the kind and the offset.
    pub fn to_string(&self) -> (res: String)
        ensures
            res@ == parse_error_message(*self),
    {
        let mut out = self.kind.to_string();
        out.append(" at offset ");
        push_decimal(&mut out, self.offset as u64);
        out
    }
}

impl EvalError {
    /// The message naming the way the walk failed.
    pub fn to_string(&self) -> (res: String)
        ensures
            res@ == eval_error_message(*self),
    {
        let phrase = match *self {
            EvalError::DivisionByZero => "division by zero",
            EvalError::Overflow => "arithmetic overflow",
        };
        String::from_str(phrase)
    }
}

impl ExpressionError {
    /// The message of the error this one wraps.
    pub fn to_string(&self) -> (res: String)
        ensures
            res@ == expression_error_message(*self),
    {
        match self {
            ExpressionError::Lex(err) => err.to_string(),
            ExpressionError::Parse(err) => err.to_string(),
            ExpressionError::Eval(err) => err.to_string(),
        }
    }
}

impl From<LexError> for ExpressionError {
    fn from(err: LexError) -> (res: Self) {
        ExpressionError::Lex(err)
    }
}

impl vstd::std_specs::convert::FromSpecImpl<LexError> for ExpressionError {
    open spec fn obeys_from_spec() -> bool {
        true
    }

    open spec fn from_spec(err: LexError) -> Self {
        ExpressionError::Lex(err)
    }
}

impl From<ParseError> for ExpressionError {
    fn from(err: ParseError) -> (res: Self) {
        ExpressionError::Parse(err)
    }
}

impl vstd::std_specs::convert::FromSpecImpl<ParseError> for ExpressionError {
    open spec fn obeys_from_spec() -> bool {
        true
    }

    open spec fn from_spec(err: ParseError) -> Self {
        ExpressionError::Parse(err)
    }
}

impl From<EvalError> for ExpressionError {
    fn from(err: EvalError) -> (res: Self) {
        ExpressionError::Eval(err)
    }
}

impl vstd::std_specs::convert::FromSpecImpl<EvalError> for ExpressionError {
    open spec fn obeys_from_spec() -> bool {
        true
    }

    open spec fn from_spec(err: EvalError) -> Self {
        ExpressionError::Eval(err)
    }
}

} // verus!
