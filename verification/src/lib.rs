//! A small expression language for tabletop-style dice notation
//! (`4d6kh3`, `2d{1,2,3,5,8} + 5`, `[1,10,2]`), with a precedence-climbing
//! parser and a stochastic tree-walking evaluator.
//!
//! The two boundary operations are [`parse`](parser::parse), which turns
//! source text into an [`Expr`](ast::Expr) tree or a list of structured
//! errors, and [`eval`](eval::eval) / [`eval_with`](eval::eval_with), which
//! reduce a tree to a public [`Value`](eval::Value) or a typed
//! [`EvalError`](eval::EvalError), driven by a [`RandomSource`](rng::RandomSource).

pub mod ast;
pub mod decimal;
pub mod eval;
pub mod parser;
pub mod rng;

pub use ast::{BinaryOperator, Expr, ExprVisitor, InlineFormatter, Literal, RangeLiteral};
pub use eval::{eval, eval_with, EvalError, Value};
pub use parser::{parse, parse_integer, ParseError};
pub use rng::{RandomSource, SeededRng, ThreadRandom};
