//! A parser and interpreter for a core of the Common Expression Language (CEL),
//! with runtime cost accounting and chained evaluation.
//!
//! [`Program::compile`] reads a source text, [`Program::execute`] evaluates it
//! under the variables of a [`Context`]. [`Program::execute_with_cost`] and
//! [`Program::execute_tracked`] do so before a [`CostTracker`], which charges
//! every node of the expression and enforces a limit. [`cps`] chains evaluations.

pub mod accounting;
pub mod ast;
pub mod compare;
pub mod context;
mod copying;
pub mod cost;
pub mod cost_laws;
pub mod cps;
pub mod entries;
pub mod error;
pub mod eval;
pub mod eval_laws;
pub mod function_laws;
pub mod functions;
pub mod grammar;
pub mod grammar_laws;
pub mod lexer;
pub mod lexer_laws;
pub mod macro_laws;
pub mod macros;
pub mod messages;
pub mod numbering;
pub mod observer;
pub mod operators;
pub mod parser;
pub mod pricing;
pub mod pricing_laws;
pub mod program;
pub mod references;
pub mod resolver;
pub mod rounding;
pub mod text;
pub mod tracking;
pub mod value;

pub use ast::IdedExpr;
pub use context::Context;
pub use cost::{ActualCostEstimator, CostTracker, FunctionTracker};
pub use error::{ExecutionError, ResolveResult};
pub use lexer::ParseErrorKind;
pub use parser::{ParseError, ParseErrors};
pub use program::{ExecutionResult, Program};
pub use value::Value;
