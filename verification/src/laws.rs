//! What holds of the crate as a whole.
//!
//! Each public proof function states one law over the specifications that the contracts of the
//! executable functions use.
pub mod arithmetic;
pub mod atoms;
pub mod checking;
pub mod composition;
pub mod conversation;
pub mod lexing;
pub mod lines;
pub mod nesting;
pub mod precedence;
pub mod programs;
pub mod replies;
pub mod running;
pub mod scoping;
pub mod shape;
pub mod solving;
pub mod values;
