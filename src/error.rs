//! Errors of the engine.
use vstd::prelude::*;
use crate::ids::Id;
use crate::names::Operator;

verus! {

/// Why evaluating an expression failed.
#[derive(Debug, Clone, Copy, PartialEq, Eq, Structural, Hash)]
pub enum EvalError {
    /// Negation of something that is not a number, or of the least integer.
    InvalidNegative,
    /// An operator used with the wrong number of operands.
    InvalidOperator(Operator),
    /// Addition of operands other than two numbers or two strings.
    TryAdd,
    /// Subtraction of operands other than two numbers.
    TrySub,
    /// Multiplication of operands other than two numbers.
    TryMul,
    /// Division of operands other than two numbers.
    TryDiv,
    /// An integer result that does not fit in 64 bits.
    Overflow,
    /// Division by zero.
    DivisionByZero,
    /// An ordering comparison of operands other than two numbers, two
    /// strings or two booleans.
    InvalidComparison,
    /// A path that does not start with a field name, or a step that does not
    /// apply to a list.
    InvalidIdiom,
    /// A step other than a field name or `*` into an object.
    FieldNotFound,
}

/// An error of an operation of the engine.
#[derive(Debug, Clone, PartialEq, Eq, Hash)]
pub enum Error {
    /// A record with this id already exists in the table.
    CreateError { table: String, id: Id },
    /// A table of this name is already defined.
    DefineError(String),
    /// No table of this name is defined.
    InvalidTable(String),
    /// The freshly drawn id of an edge is already in use.
    EdgeIdTaken,
    /// The entity handle does not refer to a live entity.
    EntityGone,
    /// The entity is an edge where a node is asked for.
    NotANode,
    /// An expression could not be evaluated.
    Evaluation(EvalError),
}

} // verus!
