//! A small infix calculator core: a word tokenizer, a precedence-climbing
//! parser and a resumable evaluator, each with a machine-checked contract.
//!
//! A line of text goes through three stages:
//!
//! 1. [`Lexer`] cuts it at whitespace into operand and operator tokens;
//! 2. [`parse`] builds the [`Expression`] tree, by the binding powers of the
//!    infix operators `=`, `+`, `-`, `*`, `/`, `^` and `√`;
//! 3. [`evaluate`] computes the value of the tree against an
//!    [`Environment`] of variables. It is given two functions, one to read a
//!    number out of a text and one to do the arithmetic, for the library
//!    itself holds numbers only as bit patterns. An [`Evaluation`] is the
//!    same thing one step at a time.
//!
//! Tokens must be separated by whitespace: `2 + 3`, not `2+3`.

pub mod text;
pub mod token;
pub mod lexer;
pub mod expr;
pub mod parser;
pub mod env;
pub mod eval;
pub mod machine;
pub mod laws;
pub mod flat;

pub use crate::env::{Environment, Number};
pub use crate::eval::{BinaryOp, EvalError};
pub use crate::expr::Expression;
pub use crate::lexer::Lexer;
pub use crate::machine::{evaluate, Evaluation, Reply, Step};
pub use crate::parser::{infix_binding_power, parse, parse_expression, ParseError};
pub use crate::token::{tokenize, Token};
