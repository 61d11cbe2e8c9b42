//! The errors of an evaluation.

use std::sync::Arc;
use vstd::prelude::*;
use vstd::string::*;
use crate::ast::{Ast, Expression, Node, SelectExpr};
use crate::value::{Val, Value};

verus! {

/// Why an evaluation did not produce a value.
#[derive(Debug, PartialEq)]
#[non_exhaustive]
#[allow(inconsistent_fields)]
pub enum ExecutionError {
    /// A function was called with the wrong number of arguments.
    InvalidArgumentCount { expected: usize, actual: usize },
    /// A function does not apply to the type of its target.
    UnsupportedTargetType { target: Value },
    /// A function cannot be called as a method of a value of this type.
    NotSupportedAsMethod { method: String, target: Value },
    /// The value cannot be the key of a map.
    UnsupportedKeyType(Value),
    /// A value of another type was expected.
    UnexpectedType { got: String, want: String },
    /// A map holds no entry under this key.
    NoSuchKey(Arc<String>),
    /// An operator or function has no overload for the operands at hand.
    NoSuchOverload,
    /// A variable or function of this name is not declared.
    UndeclaredReference(Arc<String>),
    /// A call lacks an argument or its target.
    MissingArgumentOrTarget,
    /// The two values have no order.
    ValuesNotComparable(Value, Value),
    /// A unary operator does not apply to the value.
    UnsupportedUnaryOperator(&'static str, Value),
    /// A binary operator does not apply to the values.
    UnsupportedBinaryOperator(&'static str, Value, Value),
    /// The value cannot index a map.
    UnsupportedMapIndex(Value),
    /// The value cannot index a list.
    UnsupportedListIndex(Value),
    /// The first value cannot index the second.
    UnsupportedIndex(Value, Value),
    /// The expression cannot stand where a function is named.
    UnsupportedFunctionCallIdentifierType(Expression),
    /// The selection cannot construct fields.
    UnsupportedFieldsConstruction(SelectExpr),
    /// A function reported an error of its own.
    FunctionError { function: String, message: String },
    /// The value was divided by zero.
    DivisionByZero(Value),
    /// The remainder of the value by zero was asked for.
    RemainderByZero(Value),
    /// The result of an operator does not fit its type.
    Overflow(&'static str, Value, Value),
    /// The value is no position of the list.
    IndexOutOfBounds(Value),
    /// The cost of the evaluation went over its limit.
    CostLimitExceeded { limit: u64, actual: u64 },
    /// The expression has no meaning.
    InternalError(String),
}

/// What an evaluation produces.
pub type ResolveResult = Result<Value, ExecutionError>;

/// The model of an [`ExecutionError`].
#[allow(inconsistent_fields)]
pub enum Fault {
    InvalidArgumentCount { expected: usize, actual: usize },
    UnsupportedTargetType { target: Val },
    NotSupportedAsMethod { method: Seq<char>, target: Val },
    UnsupportedKeyType(Val),
    UnexpectedType { got: Seq<char>, want: Seq<char> },
    NoSuchKey(Seq<char>),
    NoSuchOverload,
    UndeclaredReference(Seq<char>),
    MissingArgumentOrTarget,
    ValuesNotComparable(Val, Val),
    UnsupportedUnaryOperator(Seq<char>, Val),
    UnsupportedBinaryOperator(Seq<char>, Val, Val),
    UnsupportedMapIndex(Val),
    UnsupportedListIndex(Val),
    UnsupportedIndex(Val, Val),
    UnsupportedFunctionCallIdentifierType(Ast),
    UnsupportedFieldsConstruction(Node),
    FunctionError { function: Seq<char>, message: Seq<char> },
    DivisionByZero(Val),
    RemainderByZero(Val),
    Overflow(Seq<char>, Val, Val),
    IndexOutOfBounds(Val),
    CostLimitExceeded { limit: u64, actual: u64 },
    InternalError(Seq<char>),
}

impl View for ExecutionError {
    type V = Fault;

    open spec fn view(&self) -> Fault {
        match *self {
            ExecutionError::InvalidArgumentCount { expected, actual } => {
                Fault::InvalidArgumentCount { expected, actual }
            },
            ExecutionError::UnsupportedTargetType { target } => {
                Fault::UnsupportedTargetType { target: target@ }
            },
            ExecutionError::NotSupportedAsMethod { method, target } => {
                Fault::NotSupportedAsMethod { method: method@, target: target@ }
            },
            ExecutionError::UnsupportedKeyType(v) => Fault::UnsupportedKeyType(v@),
            ExecutionError::UnexpectedType { got, want } => {
                Fault::UnexpectedType { got: got@, want: want@ }
            },
            ExecutionError::NoSuchKey(key) => Fault::NoSuchKey(key@),
            ExecutionError::NoSuchOverload => Fault::NoSuchOverload,
            ExecutionError::UndeclaredReference(name) => Fault::UndeclaredReference(name@),
            ExecutionError::MissingArgumentOrTarget => Fault::MissingArgumentOrTarget,
            ExecutionError::ValuesNotComparable(l, r) => Fault::ValuesNotComparable(l@, r@),
            ExecutionError::UnsupportedUnaryOperator(op, v) => {
                Fault::UnsupportedUnaryOperator(op@, v@)
            },
            ExecutionError::UnsupportedBinaryOperator(op, l, r) => {
                Fault::UnsupportedBinaryOperator(op@, l@, r@)
            },
            ExecutionError::UnsupportedMapIndex(v) => Fault::UnsupportedMapIndex(v@),
            ExecutionError::UnsupportedListIndex(v) => Fault::UnsupportedListIndex(v@),
            ExecutionError::UnsupportedIndex(i, v) => Fault::UnsupportedIndex(i@, v@),
            ExecutionError::UnsupportedFunctionCallIdentifierType(e) => {
                Fault::UnsupportedFunctionCallIdentifierType(e@)
            },
            ExecutionError::UnsupportedFieldsConstruction(s) => {
                Fault::UnsupportedFieldsConstruction(s@)
            },
            ExecutionError::FunctionError { function, message } => {
                Fault::FunctionError { function: function@, message: message@ }
            },
            ExecutionError::DivisionByZero(v) => Fault::DivisionByZero(v@),
            ExecutionError::RemainderByZero(v) => Fault::RemainderByZero(v@),
            ExecutionError::Overflow(op, l, r) => Fault::Overflow(op@, l@, r@),
            ExecutionError::IndexOutOfBounds(v) => Fault::IndexOutOfBounds(v@),
            ExecutionError::CostLimitExceeded { limit, actual } => {
                Fault::CostLimitExceeded { limit, actual }
            },
            ExecutionError::InternalError(message) => Fault::InternalError(message@),
        }
    }
}

/// The model of what an evaluation produces.
pub type Outcome = Result<Val, Fault>;

/// Reads a result by the models of its two sides.
pub open spec fn outcome(r: ResolveResult) -> Outcome {
    match r {
        Ok(v) => Ok(v@),
        Err(e) => Err(e@),
    }
}

impl ExecutionError {
    pub fn no_such_key(name: &str) -> (e: Self)
        ensures
            e@ == Fault::NoSuchKey(name@),
    {
        ExecutionError::NoSuchKey(Arc::new(name.to_string()))
    }

    pub fn undeclared_reference(name: &str) -> (e: Self)
        ensures
            e@ == Fault::UndeclaredReference(name@),
    {
        ExecutionError::UndeclaredReference(Arc::new(name.to_string()))
    }

    pub fn invalid_argument_count(expected: usize, actual: usize) -> (e: Self)
        ensures
            e == (ExecutionError::InvalidArgumentCount { expected, actual }),
    {
        ExecutionError::InvalidArgumentCount { expected, actual }
    }

    pub fn function_error<E: core::fmt::Display>(function: &str, error: E) -> (e: Self)
        ensures
            e matches ExecutionError::FunctionError { function: f, message: m } && f@ == function@
                && to_string_from_display_ensures::<E>(&error, m),
    {
        ExecutionError::FunctionError { function: function.to_string(), message: error.to_string() }
    }

    pub fn unsupported_target_type(target: Value) -> (e: Self)
        ensures
            e == (ExecutionError::UnsupportedTargetType { target }),
    {
        ExecutionError::UnsupportedTargetType { target }
    }

    pub fn not_supported_as_method(method: &str, target: Value) -> (e: Self)
        ensures
            e@ == (Fault::NotSupportedAsMethod { method: method@, target: target@ }),
    {
        ExecutionError::NotSupportedAsMethod { method: method.to_string(), target }
    }

    pub fn unsupported_key_type(value: Value) -> (e: Self)
        ensures
            e == ExecutionError::UnsupportedKeyType(value),
    {
        ExecutionError::UnsupportedKeyType(value)
    }

    pub fn missing_argument_or_target() -> (e: Self)
        ensures
            e == ExecutionError::MissingArgumentOrTarget,
    {
        ExecutionError::MissingArgumentOrTarget
    }
}

} // verus!
