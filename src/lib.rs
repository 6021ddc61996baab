//! An interpreter for RF, a small sigil-driven scripting language: a flat environment of
//! integers, texts and lists, send statements, if-chains and loops, scanned directly from
//! the source text.
pub mod arith;
pub mod block;
pub mod codegen;
pub mod env;
pub mod error;
pub mod eval;
pub mod lex;
pub mod precedence;
pub mod program;
pub mod rpn;
pub mod stmt;
pub mod text;
pub mod validate;
pub mod value;

pub use crate::block::{handle_if_chain, run_block};
pub use crate::env::Env;
pub use crate::error::RfError;
pub use crate::eval::eval_expr;
pub use crate::lex::tokenize;
pub use crate::program::{run, run_program, RunResult};
pub use crate::rpn::{eval_rpn, prec, to_rpn, Op, Tok};
pub use crate::validate::validate_rf_syntax;
pub use crate::value::Val;
pub use crate::codegen::generate_rust_program;
