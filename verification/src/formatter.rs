//! Canonical text rendering of an expression tree.

use vstd::prelude::*;

use crate::ast::{BinaryOperator, Expr, UnaryOperator};
use crate::numeral::{int_text, push_char, push_int};

verus! {

/// Binding power of `+` and `-` as infix operators, the loosest the grammar
/// has.
pub const ADDITIVE: u8 = 1;

/// Binding power of `*` and `/`, one step over the additive pair.
pub const MULTIPLICATIVE: u8 = 2;

/// Binding power of prefix `-`, which reads a single operand rather than a
/// whole expression and so holds on tighter than any infix operator.
pub const UNARY: u8 = 3;

/// Binding power of a bare literal, which no operator around it can take
/// apart.
pub const ATOM: u8 = 4;

/// The power an infix operator reads at, paired with the power its right
/// operand has to reach.
pub open spec fn spec_infix_powers(op: BinaryOperator) -> (u8, u8) {
    match op {
        BinaryOperator::Add | BinaryOperator::Sub => (ADDITIVE, MULTIPLICATIVE),
        BinaryOperator::Mul | BinaryOperator::Div => (MULTIPLICATIVE, UNARY),
    }
}

/// The source character a binary operator stands for.
pub open spec fn spec_binary_symbol(op: BinaryOperator) -> char {
    match op {
        BinaryOperator::Add => '+',
        BinaryOperator::Sub => '-',
        BinaryOperator::Mul => '*',
        BinaryOperator::Div => '/',
    }
}

/// How tightly a node holds on to its own operands.
pub open spec fn spec_binding_power(e: Expr) -> u8 {
    match e {
        Expr::Number(_) => ATOM,
        Expr::UnaryOp { .. } => UNARY,
        Expr::BinaryOp { op, .. } => spec_infix_powers(op).0,
    }
}

/// A child's text, wrapped in parentheses when it holds on less tightly than
/// its position demands.
pub open spec fn guard(child: Expr, text: Seq<char>, floor: u8) -> Seq<char> {
    if spec_binding_power(child) < floor {
        seq!['('] + text + seq![')']
    } else {
        text
    }
}

/// How a literal spells: its digits, and a negative one in parentheses with
/// its sign, so that it reads apart from a prefix minus over its magnitude.
pub open spec fn literal_text(v: int) -> Seq<char> {
    if v < 0 {
        seq!['('] + int_text(v) + seq![')']
    } else {
        int_text(v)
    }
}

/// The canonical rendering of a tree.
///
/// An infix operator takes a space on either side and a prefix `-` none
/// after it. Parentheses appear only where dropping them would let a looser
/// operator outside capture an operand, or let a left-grouping chain
/// regroup, and around a negative literal, which would otherwise spell
/// like a prefix minus over its magnitude.
pub open spec fn render(e: Expr) -> Seq<char>
    decreases e,
{
    match e {
        Expr::Number(v) => literal_text(v as int),
        Expr::UnaryOp { op: _, operand } => seq!['-'] + guard(*operand, render(*operand), UNARY),
        Expr::BinaryOp { op, left, right } => guard(*left, render(*left), spec_infix_powers(op).0)
            + seq![' ', spec_binary_symbol(op), ' '] + guard(
            *right,
            render(*right),
            spec_infix_powers(op).1,
        ),
    }
}

/// Render an expression tree as text that parses back to the same tree.
///
/// An infix operator takes a space on either side and a prefix `-` none
/// after it. Parentheses appear only where dropping them would let a looser
/// operator outside capture an operand, or let a left-grouping chain
/// regroup. A negative literal sits in parentheses with its sign, `(-3)`,
/// which keeps it apart from a prefix minus over `3`, spelled `-3`.
/// Everywhere else the text stays bare, which leaves one tree with one
/// spelling and makes two renderings equal exactly when the trees behind
/// them are.
pub fn format_expr(expr: &Expr) -> (res: String)
    ensures
        res@ == render(*expr),
{
    let mut out = String::new();
    write_expr(expr, &mut out);
    assert(out@ =~= render(*expr));
    out
}

/// Append the rendering of `expr`.
fn write_expr(expr: &Expr, out: &mut String)
    ensures
        final(out)@ == old(out)@ + render(*expr),
    decreases expr, 0int,
{
    match expr {
        Expr::Number(value) => {
            if *value < 0 {
                push_char(out, '(');
                push_int(out, *value);
                push_char(out, ')');
                assert(out@ =~= old(out)@ + render(*expr));
            } else {
                push_int(out, *value);
            }
        },
        Expr::UnaryOp { op, operand } => match op {
            // Negation is the one prefix operator, and the operand beside it
            // has to hold on at least as tightly as the minus does.
            UnaryOperator::Neg => {
                push_char(out, '-');
                guarded(&**operand, UNARY, out);
                assert(out@ =~= old(out)@ + render(*expr));
            },
        },
        Expr::BinaryOp { op, left, right } => {
            let (own, right_floor) = infix_powers(*op);
            guarded(&**left, own, out);
            push_char(out, ' ');
            push_char(out, binary_symbol(*op));
            push_char(out, ' ');
            guarded(&**right, right_floor, out);
            assert(out@ =~= old(out)@ + render(*expr));
        },
    }
}

/// The power an infix operator reads at, paired with the power its right
/// operand has to reach.
///
/// A left operand carries the operator's own power and needs no guard at
/// that height, reading grouping to the left being what the parser does
/// already. A right operand answers to the level over it: `9 - 5 - 2`
/// groups as `(9 - 5) - 2`, so a subtraction on the right of another one
/// keeps its shape only inside parentheses.
fn infix_powers(op: BinaryOperator) -> (res: (u8, u8))
    ensures
        res == spec_infix_powers(op),
{
    match op {
        BinaryOperator::Add | BinaryOperator::Sub => (ADDITIVE, MULTIPLICATIVE),
        BinaryOperator::Mul | BinaryOperator::Div => (MULTIPLICATIVE, UNARY),
    }
}

/// The source character a binary operator stands for.
fn binary_symbol(op: BinaryOperator) -> (res: char)
    ensures
        res == spec_binary_symbol(op),
{
    match op {
        BinaryOperator::Add => '+',
        BinaryOperator::Sub => '-',
        BinaryOperator::Mul => '*',
        BinaryOperator::Div => '/',
    }
}

/// Append a child node's rendering, wrapped in parentheses when it holds on
/// less tightly than its position demands.
fn guarded(child: &Expr, floor: u8, out: &mut String)
    ensures
        final(out)@ == old(out)@ + guard(*child, render(*child), floor),
    decreases child, 1int,
{
    if binding_power(child) < floor {
        push_char(out, '(');
        write_expr(child, out);
        push_char(out, ')');
        assert(out@ =~= old(out)@ + guard(*child, render(*child), floor));
    } else {
        write_expr(child, out);
    }
}

/// How tightly a node holds on to its own operands, read on the scale the
/// four constants set out.
fn binding_power(expr: &Expr) -> (res: u8)
    ensures
        res == spec_binding_power(*expr),
{
    match expr {
        Expr::Number(_) => ATOM,
        Expr::UnaryOp { .. } => UNARY,
        Expr::BinaryOp { op, .. } => infix_powers(*op).0,
    }
}

} // verus!
