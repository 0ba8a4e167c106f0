//! Scripts as trees: what a parser hands to the interpreter.

use crate::datatype::DataType;
use vstd::prelude::*;

verus! {

/// An operator between two operands.
#[derive(Clone, Copy, Debug, PartialEq, Eq, Structural)]
pub enum BinaryOp {
    /// The sum of two numbers; two texts or two lists, one after the other.
    Add,
    /// The difference of two numbers.
    Sub,
    /// The product of two numbers.
    Mul,
    /// The quotient of two numbers, rounded toward zero.
    Div,
    /// Whether two values are equal.
    Equal,
    /// Whether one number is less than another.
    Less,
    /// The item of a list at a place, the value of a dictionary under a key.
    Index,
}

/// An operator before one operand.
#[derive(Clone, Copy, Debug, PartialEq, Eq, Structural)]
pub enum UnaryOp {
    /// A number with its sign changed.
    Neg,
    /// The other truth value.
    Not,
}

/// An expression.
#[derive(Debug)]
pub enum Expr {
    /// A value written out.
    Literal(DataType),
    /// A read of a variable.
    Variable(String),
    /// An operator before its operand.
    Unary(UnaryOp, Box<Expr>),
    /// An operator between its operands, the left one first.
    Binary(BinaryOp, Box<Expr>, Box<Expr>),
    /// A call of a function by name, with its arguments from left to right.
    Call(String, Vec<Expr>),
    /// A list of the values of its items, from left to right.
    List(Vec<Expr>),
}

/// A statement.
#[derive(Debug)]
pub enum Statement {
    /// Gives a variable the value of an expression.
    Assign(String, Expr),
    /// An expression for its value.
    Expression(Expr),
}

} // verus!
