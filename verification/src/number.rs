//! The numbers that expressions are evaluated in.
//!
//! The crate reads, checks and runs expressions; how two numbers are added is left to the type
//! that the caller evaluates in. Contracts say which operation was applied to which operands, in
//! terms of what the methods of [`Real`] return.
use vstd::prelude::*;

verus! {

/// A constant.
#[derive(Clone, Copy, Debug, PartialEq, Eq, Structural)]
pub enum Constant {
    Pi,
    E,
    Infinity,
    NegInfinity,
    /// What an operation is applied to that is given no number.
    NotANumber,
}

/// An operation on one number.
#[derive(Clone, Copy, Debug, PartialEq, Eq, Structural)]
pub enum UnaryOp {
    Neg,
    Abs,
    Sqrt,
    Sin,
    Cos,
    Tan,
    Ln,
    Log10,
    Exp,
    Floor,
    Ceil,
    Round,
}

/// An operation on two numbers.
#[derive(Clone, Copy, Debug, PartialEq, Eq, Structural)]
pub enum BinaryOp {
    Add,
    Sub,
    Mul,
    Div,
    Rem,
    Pow,
    Min,
    Max,
}

/// A type of numbers to evaluate in, such as a 64-bit floating-point number.
pub trait Real: Copy {
    /// The number that a decimal numeral denotes: digits with at most one point among them, and
    /// perhaps an exponent.
    fn literal(text: &str) -> Self;

    /// The value of a constant.
    fn constant(c: Constant) -> Self;

    /// The value of an operation at `x`.
    fn unary(op: UnaryOp, x: Self) -> Self;

    /// The value of an operation at `x` and `y`.
    fn binary(op: BinaryOp, x: Self, y: Self) -> Self;

    /// Whether `x` is less than or equal to `y`.
    fn at_most(x: Self, y: Self) -> bool;

    /// Whether `x` is neither infinite nor undefined.
    fn is_finite(x: Self) -> bool;

    /// `x` as a numeral that denotes it.
    fn display(x: Self) -> String;

    /// `x` as a diagnostic shows it.
    fn debug(x: Self) -> String;
}

/// `v` is what the numeral `text` denotes.
pub open spec fn is_literal<N: Real>(text: Seq<char>, v: N) -> bool {
    exists|s: &str| s@ == text && #[trigger] call_ensures(N::literal, (s,), v)
}

/// `v` is the value of `c`.
pub open spec fn is_constant<N: Real>(c: Constant, v: N) -> bool {
    call_ensures(N::constant, (c,), v)
}

/// `v` is `op` at `x`.
pub open spec fn is_unary<N: Real>(op: UnaryOp, x: N, v: N) -> bool {
    call_ensures(N::unary, (op, x), v)
}

/// `v` is `op` at `x` and `y`.
pub open spec fn is_binary<N: Real>(op: BinaryOp, x: N, y: N, v: N) -> bool {
    call_ensures(N::binary, (op, x, y), v)
}

/// `b` tells whether `x` is at most `y`.
pub open spec fn is_at_most<N: Real>(x: N, y: N, b: bool) -> bool {
    call_ensures(N::at_most, (x, y), b)
}

/// `b` tells whether `x` is finite.
pub open spec fn is_finiteness<N: Real>(x: N, b: bool) -> bool {
    call_ensures(N::is_finite, (x,), b)
}

/// `text` is a numeral for `x`.
pub open spec fn is_display<N: Real>(x: N, text: Seq<char>) -> bool {
    exists|s: String| s@ == text && #[trigger] call_ensures(N::display, (x,), s)
}

/// `text` is how a diagnostic shows `x`.
pub open spec fn is_debug<N: Real>(x: N, text: Seq<char>) -> bool {
    exists|s: String| s@ == text && #[trigger] call_ensures(N::debug, (x,), s)
}

/// `v` comes of folding `op` over `xs` from the left, from `acc` on.
pub open spec fn is_fold<N: Real>(op: BinaryOp, acc: N, xs: Seq<N>, v: N) -> bool
    decreases xs.len(),
{
    if xs.len() == 0 {
        v == acc
    } else {
        exists|w: N| #[trigger] is_binary(op, acc, xs[0], w) && is_fold(op, w, xs.skip(1), v)
    }
}

} // verus!
