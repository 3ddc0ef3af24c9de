//! Parser turning expression text into a tree.

use vstd::prelude::*;
use vstd::utf8::encode_utf8;

use crate::ast::{BinaryOperator, Expr, UnaryOperator};
use crate::errors::{ExpressionError, ParseError, ParseErrorKind};
use crate::lexer::{lex, lemma_lex_numbers_are_digits, numbers_are_digits, tokenize, TokenView};
use crate::numeral::{digits_to_i64, digits_value};
use crate::tokens::{Token, TokenKind, token_views};

verus! {

/// Precedence level of `+` and `-` as infix operators.
pub const ADDITIVE: u8 = 1;

/// Precedence level of `*` and `/`, which bind tighter than the additive
/// pair. Prefix `-` binds tighter still and needs no level of its own: it
/// takes an operand rather than a whole expression.
pub const MULTIPLICATIVE: u8 = 2;

/// The infix operator a token kind stands for, with how tightly it binds.
pub open spec fn spec_infix(kind: TokenKind) -> Option<(BinaryOperator, u8)> {
    match kind {
        TokenKind::Plus => Some((BinaryOperator::Add, ADDITIVE)),
        TokenKind::Minus => Some((BinaryOperator::Sub, ADDITIVE)),
        TokenKind::Star => Some((BinaryOperator::Mul, MULTIPLICATIVE)),
        TokenKind::Slash => Some((BinaryOperator::Div, MULTIPLICATIVE)),
        _ => None,
    }
}

/// The kind stands for an infix operator binding at least as tightly as
/// `minp`.
pub open spec fn binds_at_least(kind: TokenKind, minp: u8) -> bool {
    match spec_infix(kind) {
        Some((_, prec)) => prec >= minp,
        None => false,
    }
}

/// The failure for a stream that ran out, pointing one past the text.
pub open spec fn end_of_input(end: usize) -> ParseError {
    ParseError { offset: end, kind: ParseErrorKind::UnexpectedEndOfInput }
}

/// The failure for a token the grammar has no use for where it stands.
pub open spec fn unexpected_at(tok: TokenView) -> ParseError {
    ParseError { offset: tok.2, kind: ParseErrorKind::UnexpectedToken }
}

/// The leaf a number token reads as, or the failure for a value past the
/// range of an `i64`.
pub open spec fn spec_number(tok: TokenView) -> Result<Expr, ParseError> {
    if digits_value(tok.1) <= i64::MAX {
        Ok(Expr::Number(digits_value(tok.1) as i64))
    } else {
        Err(ParseError { offset: tok.2, kind: ParseErrorKind::NumberOutOfRange })
    }
}

/// An operand from position `pos`: a literal, a prefix `-` applied to
/// another operand, or a parenthesized expression. Yields the tree and the
/// position after it.
pub open spec fn p_operand(t: Seq<TokenView>, pos: int, end: usize) -> Result<(Expr, int), ParseError>
    decreases t.len() - pos, 0int,
{
    if pos < 0 || pos >= t.len() {
        Err(end_of_input(end))
    } else {
        let tok = t[pos];
        match tok.0 {
            TokenKind::Number => match spec_number(tok) {
                Ok(e) => Ok((e, pos + 1)),
                Err(err) => Err(err),
            },
            TokenKind::Minus => match p_operand(t, pos + 1, end) {
                Ok((x, p)) => Ok((Expr::UnaryOp { op: UnaryOperator::Neg, operand: Box::new(x) }, p)),
                Err(err) => Err(err),
            },
            TokenKind::LParen => match p_expr(t, pos + 1, ADDITIVE, end) {
                Ok((inner, p)) => if p < 0 || p >= t.len() {
                    Err(end_of_input(end))
                } else if t[p].0 == TokenKind::RParen {
                    Ok((inner, p + 1))
                } else {
                    Err(unexpected_at(t[p]))
                },
                Err(err) => Err(err),
            },
            _ => Err(unexpected_at(tok)),
        }
    }
}

/// A chain of infix operators binding at least as tightly as `minp`, from
/// position `pos`.
pub open spec fn p_expr(t: Seq<TokenView>, pos: int, minp: u8, end: usize) -> Result<
    (Expr, int),
    ParseError,
>
    decreases t.len() - pos, 2int,
{
    match p_operand(t, pos, end) {
        Err(err) => Err(err),
        Ok((left, p)) => if pos < p <= t.len() {
            p_tail(t, left, p, minp, end)
        } else {
            Err(end_of_input(end))
        },
    }
}

/// The rest of a chain whose operands so far make `left`: each infix
/// operator binding at least as tightly as `minp` takes `left` and an
/// operand chain one level tighter, which is what groups equal operators to
/// the left.
pub open spec fn p_tail(t: Seq<TokenView>, left: Expr, pos: int, minp: u8, end: usize) -> Result<
    (Expr, int),
    ParseError,
>
    decreases t.len() - pos, 1int,
{
    if 0 <= pos < t.len() && binds_at_least(t[pos].0, minp) {
        let (op, prec) = spec_infix(t[pos].0)->0;
        match p_expr(t, pos + 1, (prec + 1) as u8, end) {
            Err(err) => Err(err),
            Ok((right, p)) => if pos < p <= t.len() {
                p_tail(
                    t,
                    Expr::BinaryOp { op, left: Box::new(left), right: Box::new(right) },
                    p,
                    minp,
                    end,
                )
            } else {
                Err(end_of_input(end))
            },
        }
    } else {
        Ok((left, pos))
    }
}

/// A whole token stream as one expression, with nothing left over.
pub open spec fn spec_parse_tokens(t: Seq<TokenView>, end: usize) -> Result<Expr, ParseError> {
    match p_expr(t, 0, ADDITIVE, end) {
        Err(err) => Err(err),
        Ok((e, p)) => if 0 <= p < t.len() {
            Err(ParseError { offset: t[p].2, kind: ParseErrorKind::TrailingInput })
        } else {
            Ok(e)
        },
    }
}

/// What [`parse`] makes of a text: the scan's failure, the grammar's
/// failure, or the tree.
pub open spec fn spec_parse(s: Seq<char>) -> Result<Expr, ExpressionError> {
    match lex(s) {
        Err(err) => Err(ExpressionError::Lex(err)),
        Ok(t) => match spec_parse_tokens(t, encode_utf8(s).len() as usize) {
            Err(err) => Err(ExpressionError::Parse(err)),
            Ok(e) => Ok(e),
        },
    }
}

/// Each parsing step that succeeds consumes at least one token and never
/// runs past the stream.
pub proof fn lemma_operand_progress(t: Seq<TokenView>, pos: int, end: usize)
    ensures
        p_operand(t, pos, end) matches Ok((_, p)) ==> pos < p <= t.len(),
    decreases t.len() - pos, 0int,
{
    if 0 <= pos < t.len() {
        if t[pos].0 == TokenKind::Minus {
            lemma_operand_progress(t, pos + 1, end);
        } else if t[pos].0 == TokenKind::LParen {
            lemma_expr_progress(t, pos + 1, ADDITIVE, end);
        }
    }
}

/// An operand chain that succeeds consumes at least one token.
pub proof fn lemma_expr_progress(t: Seq<TokenView>, pos: int, minp: u8, end: usize)
    ensures
        p_expr(t, pos, minp, end) matches Ok((_, p)) ==> pos < p <= t.len(),
    decreases t.len() - pos, 2int,
{
    lemma_operand_progress(t, pos, end);
    if let Ok((left, p)) = p_operand(t, pos, end) {
        if pos < p <= t.len() {
            lemma_tail_progress(t, left, p, minp, end);
        }
    }
}

/// The tail of a chain never moves backwards or past the stream.
pub proof fn lemma_tail_progress(t: Seq<TokenView>, left: Expr, pos: int, minp: u8, end: usize)
    requires
        0 <= pos <= t.len(),
    ensures
        p_tail(t, left, pos, minp, end) matches Ok((_, p)) ==> pos <= p <= t.len(),
    decreases t.len() - pos, 1int,
{
    if 0 <= pos < t.len() && binds_at_least(t[pos].0, minp) {
        let (op, prec) = spec_infix(t[pos].0)->0;
        if let Ok((right, p)) = p_expr(t, pos + 1, (prec + 1) as u8, end) {
            if pos < p <= t.len() {
                lemma_tail_progress(
                    t,
                    Expr::BinaryOp { op, left: Box::new(left), right: Box::new(right) },
                    p,
                    minp,
                    end,
                );
            }
        }
    }
}

/// Report the operator a token kind stands for as an infix operator,
/// together with how tightly it binds.
fn infix_operator(kind: TokenKind) -> (res: Option<(BinaryOperator, u8)>)
    ensures
        res == spec_infix(kind),
{
    match kind {
        TokenKind::Plus => Some((BinaryOperator::Add, ADDITIVE)),
        TokenKind::Minus => Some((BinaryOperator::Sub, ADDITIVE)),
        TokenKind::Star => Some((BinaryOperator::Mul, MULTIPLICATIVE)),
        TokenKind::Slash => Some((BinaryOperator::Div, MULTIPLICATIVE)),
        TokenKind::Number | TokenKind::LParen | TokenKind::RParen => None,
    }
}

/// Read a number token's digits as an `i64` leaf.
fn number(token: &Token) -> (res: Result<Expr, ParseError>)
    requires
        crate::numeral::all_digits(token.lexeme@),
    ensures
        res == spec_number(token@),
{
    match digits_to_i64(token.lexeme.as_str()) {
        Some(value) => Ok(Expr::Number(value)),
        None => Err(ParseError { offset: token.offset, kind: ParseErrorKind::NumberOutOfRange }),
    }
}

/// Build the error for a token the grammar has no use for here.
fn unexpected(token: &Token) -> (res: ParseError)
    ensures
        res == unexpected_at(token@),
{
    ParseError { offset: token.offset, kind: ParseErrorKind::UnexpectedToken }
}

/// Precedence-climbing parser reading a token stream once, left to right.
struct Parser<'a> {
    /// The whole stream.
    tokens: &'a [Token],
    /// Index of the next unread token.
    pos: usize,
    /// Byte offset one past the end of the source text, which is what an
    /// error reports when the stream runs out.
    end_offset: usize,
}

impl<'a> Parser<'a> {
    /// The stream as the specification reads it.
    spec fn stream(&self) -> Seq<TokenView> {
        token_views(self.tokens@)
    }

    /// The position lies within the stream and number tokens are digit runs.
    spec fn wf(&self) -> bool {
        &&& self.pos <= self.tokens@.len()
        &&& numbers_are_digits(self.stream())
    }

    /// The same stream and end as `other`, read from a possibly later
    /// position.
    spec fn same_stream(&self, other: &Self) -> bool {
        &&& self.tokens@ == other.tokens@
        &&& self.end_offset == other.end_offset
        &&& self.pos <= self.tokens@.len()
    }

    /// Parse a chain of infix operators binding at least as tightly as
    /// `min_precedence`, stopping at the first one that binds looser.
    fn parse_expression(&mut self, min_precedence: u8) -> (res: Result<Expr, ParseError>)
        requires
            old(self).wf(),
        ensures
            final(self).same_stream(&*old(self)),
            final(self).wf(),
            match p_expr(old(self).stream(), old(self).pos as int, min_precedence, old(self).end_offset) {
                Ok((e, p)) => res == Ok::<Expr, ParseError>(e) && final(self).pos == p,
                Err(err) => res == Err::<Expr, ParseError>(err),
            },
        decreases old(self).tokens@.len() - old(self).pos, 2int,
    {
        let ghost t = self.stream();
        let ghost start = self.pos as int;
        let ghost end = self.end_offset;
        let mut left = self.parse_operand()?;
        proof {
            lemma_operand_progress(t, start, end);
        }
        loop
            invariant
                self.tokens@ == old(self).tokens@,
                t == old(self).stream(),
                start == old(self).pos,
                end == old(self).end_offset,
                self.stream() == t,
                self.end_offset == end,
                self.wf(),
                start < self.pos <= t.len(),
                t.len() == self.tokens@.len(),
                p_expr(t, start, min_precedence, end) == p_tail(t, left, self.pos as int, min_precedence, end),
            decreases t.len() - self.pos,
        {
            match self.take_infix_operator(min_precedence) {
                None => {
                    return Ok(left);
                },
                Some((op, precedence)) => {
                    let ghost here = self.pos - 1;
                    // Climbing one level for the right operand is what makes
                    // operators of equal precedence group to the left: the
                    // recursive call refuses to swallow the next one.
                    let right = self.parse_expression(precedence + 1)?;
                    proof {
                        lemma_expr_progress(t, here + 1, (precedence + 1) as u8, end);
                    }
                    left = Expr::BinaryOp { op, left: Box::new(left), right: Box::new(right) };
                },
            }
        }
    }

    /// Parse a literal, a prefix `-` applied to another operand, or a
    /// parenthesized expression.
    fn parse_operand(&mut self) -> (res: Result<Expr, ParseError>)
        requires
            old(self).wf(),
        ensures
            final(self).same_stream(&*old(self)),
            final(self).wf(),
            match p_operand(old(self).stream(), old(self).pos as int, old(self).end_offset) {
                Ok((e, p)) => res == Ok::<Expr, ParseError>(e) && final(self).pos == p,
                Err(err) => res == Err::<Expr, ParseError>(err),
            },
        decreases old(self).tokens@.len() - old(self).pos, 0int,
    {
        let ghost t = self.stream();
        let token = self.take()?;
        proof {
            assert(t[self.pos - 1] == token@);
        }
        match token.kind {
            TokenKind::Number => number(token),
            TokenKind::Minus => {
                let operand = self.parse_operand()?;
                Ok(Expr::UnaryOp { op: UnaryOperator::Neg, operand: Box::new(operand) })
            },
            TokenKind::LParen => {
                let inner = self.parse_expression(ADDITIVE)?;
                let closing = self.take()?;
                proof {
                    assert(t[self.pos - 1] == closing@);
                }
                match closing.kind {
                    TokenKind::RParen => Ok(inner),
                    TokenKind::Number
                    | TokenKind::Plus
                    | TokenKind::Minus
                    | TokenKind::Star
                    | TokenKind::Slash
                    | TokenKind::LParen => Err(unexpected(closing)),
                }
            },
            TokenKind::Plus | TokenKind::Star | TokenKind::Slash | TokenKind::RParen => {
                Err(unexpected(token))
            },
        }
    }

    /// Fail when any token follows the expression just parsed.
    fn check_exhausted(&self) -> (res: Result<(), ParseError>)
        requires
            self.pos <= self.tokens@.len(),
        ensures
            self.pos < self.tokens@.len() ==> res == Err::<(), ParseError>(
                ParseError { offset: self.tokens@[self.pos as int].offset, kind: ParseErrorKind::TrailingInput },
            ),
            self.pos == self.tokens@.len() ==> res is Ok,
    {
        if self.pos < self.tokens.len() {
            Err(ParseError { offset: self.tokens[self.pos].offset, kind: ParseErrorKind::TrailingInput })
        } else {
            Ok(())
        }
    }

    /// Consume the next token when it stands for an infix operator that
    /// binds at least as tightly as `min_precedence`, and report that
    /// operator along with its level.
    fn take_infix_operator(&mut self, min_precedence: u8) -> (res: Option<(BinaryOperator, u8)>)
        requires
            old(self).wf(),
        ensures
            final(self).same_stream(&*old(self)),
            final(self).wf(),
            ({
                let t = old(self).stream();
                let pos = old(self).pos as int;
                if 0 <= pos < t.len() && binds_at_least(t[pos].0, min_precedence) {
                    res == spec_infix(t[pos].0) && final(self).pos == pos + 1
                } else {
                    res is None && final(self).pos == pos
                }
            }),
    {
        if self.pos < self.tokens.len() {
            match infix_operator(self.tokens[self.pos].kind) {
                Some((op, precedence)) => {
                    if precedence >= min_precedence {
                        self.pos = self.pos + 1;
                        return Some((op, precedence));
                    }
                },
                None => {},
            }
        }
        None
    }

    /// Consume the next token, or fail at the end of the input.
    fn take(&mut self) -> (res: Result<&'a Token, ParseError>)
        requires
            old(self).wf(),
        ensures
            final(self).same_stream(&*old(self)),
            final(self).wf(),
            old(self).pos < old(self).tokens@.len() ==> res == Ok::<&'a Token, ParseError>(
                &old(self).tokens@[old(self).pos as int],
            ) && final(self).pos == old(self).pos + 1,
            old(self).pos >= old(self).tokens@.len() ==> res == Err::<&'a Token, ParseError>(
                end_of_input(old(self).end_offset),
            ),
    {
        if self.pos < self.tokens.len() {
            let token = &self.tokens[self.pos];
            self.pos = self.pos + 1;
            Ok(token)
        } else {
            Err(ParseError { offset: self.end_offset, kind: ParseErrorKind::UnexpectedEndOfInput })
        }
    }
}

/// Parse expression text into a tree.
///
/// Infix `+` and `-` bind loosest and group to the left, `*` and `/` bind
/// tighter and group the same way, and prefix `-` binds tighter than either.
/// Parentheses group whatever they enclose and leave no node of their own
/// behind. Whitespace separates tokens and means nothing else. Every literal
/// has to fit an `i64` on its own, which leaves the digits of the most
/// negative such value out of range even where a prefix `-` precedes them.
///
/// Returns [`ExpressionError::Lex`] when the text holds a character no token
/// starts with, and [`ExpressionError::Parse`] when the tokens form no
/// expression. Either error names the byte offset it refers to.
pub fn parse(text: &str) -> (res: Result<Expr, ExpressionError>)
    ensures
        res == spec_parse(text@),
{
    let tokens = match tokenize(text) {
        Ok(tokens) => tokens,
        Err(err) => return Err(ExpressionError::Lex(err)),
    };
    proof {
        lemma_lex_numbers_are_digits(text@, 0);
    }
    let mut parser = Parser { tokens: tokens.as_slice(), pos: 0, end_offset: text.len() };
    let expr = match parser.parse_expression(ADDITIVE) {
        Ok(expr) => expr,
        Err(err) => return Err(ExpressionError::Parse(err)),
    };
    match parser.check_exhausted() {
        Ok(()) => Ok(expr),
        Err(err) => Err(ExpressionError::Parse(err)),
    }
}

} // verus!
