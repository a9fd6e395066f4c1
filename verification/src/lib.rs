//! A math solver that asks a language model for a program, and believes nothing that it has not
//! computed itself.
//!
//! The model is asked for a small program, the steps in words, and a check: an expression that the
//! answer must bring to zero. The crate runs the program to get the answer and the check to verify
//! it. What the model writes is read by the grammar in [`grammar`] and is never run as code.
//!
//! Numbers are a parameter: expressions are evaluated in any type that implements [`Real`].

pub mod check;
pub mod client;
pub mod error;
pub mod eval;
pub mod grammar;
pub mod json;
pub mod laws;
pub mod lexer;
pub mod number;
pub mod program;
pub mod reply;
pub mod session;
pub mod text;

pub use crate::check::run_check;
pub use crate::client::{Detached, MathSolver, Request, SolveOptions};
pub use crate::error::SolverError;
pub use crate::eval::{eval_expression, eval_expression_with, Env};
pub use crate::number::{BinaryOp, Constant, Real, UnaryOp};
pub use crate::program::run_program;
pub use crate::session::{Session, SolveResult, SYSTEM_PROMPT};
