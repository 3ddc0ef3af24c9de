//! Node types the parser builds an expression out of.

use vstd::prelude::*;

verus! {

/// Operator a [`Expr::UnaryOp`] node applies to its operand.
#[derive(Debug, Clone, Copy, PartialEq, Eq, Structural)]
pub enum UnaryOperator {
    /// Arithmetic negation, written as a prefix `-`.
    Neg,
}

/// Operator a [`Expr::BinaryOp`] node applies to its operands.
#[derive(Debug, Clone, Copy, PartialEq, Eq, Structural)]
pub enum BinaryOperator {
    /// Addition, written `+`.
    Add,
    /// Subtraction, written `-`.
    Sub,
    /// Multiplication, written `*`.
    Mul,
    /// Division, written `/`.
    Div,
}

/// One node of an expression tree.
#[derive(Debug, PartialEq, Eq)]
pub enum Expr {
    /// Integer literal leaf.
    Number(i64),
    /// Prefix operator applied to a single operand.
    UnaryOp {
        /// The operator this node applies.
        op: UnaryOperator,
        /// The expression the operator reads.
        operand: Box<Expr>,
    },
    /// Infix operator applied to a left and a right operand.
    BinaryOp {
        /// The operator this node applies.
        op: BinaryOperator,
        /// The expression on the operator's left.
        left: Box<Expr>,
        /// The expression on the operator's right.
        right: Box<Expr>,
    },
}

impl Clone for Expr {
    /// A node-for-node copy of the tree.
    fn clone(&self) -> (res: Self)
        ensures
            res == *self,
        decreases self,
    {
        match self {
            Expr::Number(value) => Expr::Number(*value),
            Expr::UnaryOp { op, operand } => Expr::UnaryOp {
                op: *op,
                operand: Box::new((**operand).clone()),
            },
            Expr::BinaryOp { op, left, right } => Expr::BinaryOp {
                op: *op,
                left: Box::new((**left).clone()),
                right: Box::new((**right).clone()),
            },
        }
    }
}

} // verus!
