//! The grammar of expressions, and what an expression evaluates to.
//!
//! ```text
//! sum     = product { ("+" | "-") product }
//! product = unary { ("*" | "/" | "%") unary }
//! unary   = { "-" | "+" } power
//! power   = atom [ "^" unary ]
//! atom    = numeral | name | name "(" sum { "," sum } ")" | "(" sum ")"
//! ```
//!
//! The functions of this module are specifications: they say what tree a sequence of tokens
//! stands for, or what is wrong with it, and which numbers a tree may evaluate to.
use vstd::prelude::*;

use crate::error::{fault, Fault};
use crate::lexer::{tokens, Symbol};
use crate::number::{
    is_binary, is_constant, is_finiteness, is_fold, is_literal, is_unary, BinaryOp, Constant, Real,
    UnaryOp,
};
use crate::text::{blank, lower};

verus! {

/// A function that expressions can call.
#[derive(Clone, Copy, Debug, PartialEq, Eq, Structural)]
pub enum Function {
    /// An operation on the first argument, or on not-a-number where there is none.
    First(UnaryOp),
    /// An operation folded over all arguments, from a constant on.
    Fold(BinaryOp, Constant),
}

/// An expression.
pub enum Ast {
    Num(Seq<char>),
    Var(Seq<char>),
    Const(Constant),
    Unary(UnaryOp, Box<Ast>),
    Binary(BinaryOp, Box<Ast>, Box<Ast>),
    Call(Function, Seq<Ast>),
}

/// The two levels of operators that group from the left.
#[derive(Clone, Copy, Debug, PartialEq, Eq, Structural)]
pub enum Level {
    Sum,
    Product,
}

/// The function with the given name.
pub open spec fn function_named(name: Seq<char>) -> Option<Function> {
    if name == "abs"@ {
        Some(Function::First(UnaryOp::Abs))
    } else if name == "sqrt"@ {
        Some(Function::First(UnaryOp::Sqrt))
    } else if name == "sin"@ {
        Some(Function::First(UnaryOp::Sin))
    } else if name == "cos"@ {
        Some(Function::First(UnaryOp::Cos))
    } else if name == "tan"@ {
        Some(Function::First(UnaryOp::Tan))
    } else if name == "ln"@ {
        Some(Function::First(UnaryOp::Ln))
    } else if name == "log"@ {
        Some(Function::First(UnaryOp::Log10))
    } else if name == "exp"@ {
        Some(Function::First(UnaryOp::Exp))
    } else if name == "floor"@ {
        Some(Function::First(UnaryOp::Floor))
    } else if name == "ceil"@ {
        Some(Function::First(UnaryOp::Ceil))
    } else if name == "round"@ {
        Some(Function::First(UnaryOp::Round))
    } else if name == "min"@ {
        Some(Function::Fold(BinaryOp::Min, Constant::Infinity))
    } else if name == "max"@ {
        Some(Function::Fold(BinaryOp::Max, Constant::NegInfinity))
    } else {
        None
    }
}

/// The constant with the given name.
pub open spec fn constant_named(name: Seq<char>) -> Option<Constant> {
    if name == "pi"@ {
        Some(Constant::Pi)
    } else if name == "e"@ {
        Some(Constant::E)
    } else {
        None
    }
}

/// The operation that `c` stands for between two operands of `level`.
pub open spec fn operator(level: Level, c: char) -> Option<BinaryOp> {
    match level {
        Level::Sum => if c == '+' {
            Some(BinaryOp::Add)
        } else if c == '-' {
            Some(BinaryOp::Sub)
        } else {
            None
        },
        Level::Product => if c == '*' {
            Some(BinaryOp::Mul)
        } else if c == '/' {
            Some(BinaryOp::Div)
        } else if c == '%' {
            Some(BinaryOp::Rem)
        } else {
            None
        },
    }
}

/// Whether the token at `i` is `c`.
pub open spec fn op_at(t: Seq<Symbol>, i: int, c: char) -> bool {
    0 <= i < t.len() && t[i] == Symbol::Op(c)
}

/// The operation that the token at `i` stands for between two operands of `level`.
pub open spec fn operator_at(level: Level, t: Seq<Symbol>, i: int) -> Option<BinaryOp> {
    if 0 <= i < t.len() {
        match t[i] {
            Symbol::Op(c) => operator(level, c),
            _ => None,
        }
    } else {
        None
    }
}

/// A fault in how tokens follow each other.
pub open spec fn syntax(message: Seq<char>) -> Fault {
    fault("EXPR_SYNTAX", message)
}

/// `value` and the place after the closing parenthesis that must stand at `i`.
pub open spec fn closed<T>(t: Seq<Symbol>, i: int, value: T) -> Result<(T, int), Fault> {
    if i >= t.len() {
        Err(syntax("expected more tokens"@))
    } else if t[i] != Symbol::Op(')') {
        Err(syntax("expected )"@))
    } else {
        Ok((value, i + 1))
    }
}

/// The sum or product that starts at `i`, and the place after it. `names` are the variables.
///
/// Here and below, the test that a part ends after the place where it starts and within the
/// tokens always holds (`lemma_chain_progress`); it makes the recursion well-founded.
pub open spec fn chain(level: Level, t: Seq<Symbol>, i: int, names: Set<Seq<char>>) -> Result<
    (Ast, int),
    Fault,
>
    decreases t.len() - i, (if level == Level::Sum { 6int } else { 4int }),
{
    match operand(level, t, i, names) {
        Ok((a, j)) => if i < j <= t.len() {
            chain_rest(level, t, j, a, names)
        } else {
            Ok((a, j))
        },
        Err(f) => Err(f),
    }
}

/// What becomes of `a` when the operators of `level` from `i` on are applied to it, one after
/// the other.
pub open spec fn chain_rest(
    level: Level,
    t: Seq<Symbol>,
    i: int,
    a: Ast,
    names: Set<Seq<char>>,
) -> Result<(Ast, int), Fault>
    decreases t.len() - i, 0int,
{
    match operator_at(level, t, i) {
        Some(op) => match operand(level, t, i + 1, names) {
            Ok((b, j)) => if i < j <= t.len() {
                chain_rest(level, t, j, Ast::Binary(op, Box::new(a), Box::new(b)), names)
            } else {
                Ok((b, j))
            },
            Err(f) => Err(f),
        },
        None => Ok((a, i)),
    }
}

/// An operand of `level`: products make up a sum, unaries a product.
pub open spec fn operand(level: Level, t: Seq<Symbol>, i: int, names: Set<Seq<char>>) -> Result<
    (Ast, int),
    Fault,
>
    decreases t.len() - i, (if level == Level::Sum { 5int } else { 3int }),
{
    match level {
        Level::Sum => chain(Level::Product, t, i, names),
        Level::Product => unary(t, i, names),
    }
}

/// The signed power that starts at `i`, and the place after it.
pub open spec fn unary(t: Seq<Symbol>, i: int, names: Set<Seq<char>>) -> Result<(Ast, int), Fault>
    decreases t.len() - i, 2int,
{
    if op_at(t, i, '-') {
        match unary(t, i + 1, names) {
            Ok((a, j)) => Ok((Ast::Unary(UnaryOp::Neg, Box::new(a)), j)),
            Err(f) => Err(f),
        }
    } else if op_at(t, i, '+') {
        unary(t, i + 1, names)
    } else {
        power(t, i, names)
    }
}

/// The power that starts at `i`, and the place after it.
pub open spec fn power(t: Seq<Symbol>, i: int, names: Set<Seq<char>>) -> Result<(Ast, int), Fault>
    decreases t.len() - i, 1int,
{
    match atom(t, i, names) {
        Ok((a, j)) => if op_at(t, j, '^') && i < j {
            match unary(t, j + 1, names) {
                Ok((b, k)) => Ok((Ast::Binary(BinaryOp::Pow, Box::new(a), Box::new(b)), k)),
                Err(f) => Err(f),
            }
        } else {
            Ok((a, j))
        },
        Err(f) => Err(f),
    }
}

/// The numeral, name, call or parenthesis that starts at `i`, and the place after it.
///
/// A name is looked up among the variables as it is written, and in lower case among the
/// functions, where a parenthesis follows, or the constants.
pub open spec fn atom(t: Seq<Symbol>, i: int, names: Set<Seq<char>>) -> Result<(Ast, int), Fault>
    decreases t.len() - i, 0int,
{
    if !(0 <= i < t.len()) {
        Err(syntax("expected more tokens"@))
    } else {
        match t[i] {
            Symbol::Num(text) => Ok((Ast::Num(text), i + 1)),
            Symbol::Id(id) => if names.contains(id) {
                Ok((Ast::Var(id), i + 1))
            } else if op_at(t, i + 1, '(') {
                match arguments(t, i + 2, Seq::empty(), names) {
                    Ok((args, j)) => match closed(t, j, args) {
                        Ok((_, k)) => match function_named(lower(id)) {
                            Some(f) => Ok((Ast::Call(f, args), k)),
                            None => Err(
                                fault("EXPR_UNKNOWN_FUNC", "unknown function "@ + lower(id)),
                            ),
                        },
                        Err(f) => Err(f),
                    },
                    Err(f) => Err(f),
                }
            } else {
                match constant_named(lower(id)) {
                    Some(c) => Ok((Ast::Const(c), i + 1)),
                    None => Err(fault("EXPR_UNKNOWN_ID", "unknown identifier "@ + lower(id))),
                }
            },
            Symbol::Op(c) => if c == '(' {
                match chain(Level::Sum, t, i + 1, names) {
                    Ok((a, j)) => closed(t, j, a),
                    Err(f) => Err(f),
                }
            } else {
                Err(syntax("unexpected token "@ + seq![c]))
            },
        }
    }
}

/// The arguments `args` and those that start at `i`, one or more with commas between them, and
/// the place after them.
pub open spec fn arguments(
    t: Seq<Symbol>,
    i: int,
    args: Seq<Ast>,
    names: Set<Seq<char>>,
) -> Result<(Seq<Ast>, int), Fault>
    decreases t.len() - i, 7int,
{
    match chain(Level::Sum, t, i, names) {
        Ok((a, j)) => if op_at(t, j, ',') && i < j {
            arguments(t, j + 1, args.push(a), names)
        } else {
            Ok((args.push(a), j))
        },
        Err(f) => Err(f),
    }
}

/// The expression that the tokens stand for.
pub open spec fn parse_tokens(t: Seq<Symbol>, names: Set<Seq<char>>) -> Result<Ast, Fault> {
    match chain(Level::Sum, t, 0, names) {
        Ok((a, j)) => if j == t.len() {
            Ok(a)
        } else {
            Err(fault("EXPR_TRAILING", "trailing tokens in expression"@))
        },
        Err(f) => Err(f),
    }
}

/// The expression that `src` stands for where `names` are the variables.
pub open spec fn parse(src: Seq<char>, names: Set<Seq<char>>) -> Result<Ast, Fault> {
    if blank(src) {
        Err(fault("EXPR_EMPTY", "empty expression"@))
    } else {
        match tokens(src) {
            Ok(t) => parse_tokens(t, names),
            Err(f) => Err(f),
        }
    }
}

/// `v` is what the function `f` makes of the arguments `xs`.
pub open spec fn is_applied<N: Real>(f: Function, xs: Seq<N>, v: N) -> bool {
    match f {
        Function::First(op) => if xs.len() > 0 {
            is_unary(op, xs[0], v)
        } else {
            exists|z: N| #[trigger] is_constant(Constant::NotANumber, z) && is_unary(op, z, v)
        },
        Function::Fold(op, c) => exists|z: N| #[trigger] is_constant(c, z) && is_fold(op, z, xs, v),
    }
}

/// `v` is what `a` evaluates to where `env` gives the variables their values.
pub open spec fn evaluates<N: Real>(a: Ast, env: Map<Seq<char>, N>, v: N) -> bool
    decreases a,
{
    match a {
        Ast::Num(text) => is_literal(text, v),
        Ast::Var(name) => env.contains_key(name) && v == env[name],
        Ast::Const(c) => is_constant(c, v),
        Ast::Unary(op, x) => exists|p: N| #[trigger] is_unary(op, p, v) && evaluates(*x, env, p),
        Ast::Binary(op, x, y) => exists|p: N, q: N| #[trigger]
            is_binary(op, p, q, v) && evaluates(*x, env, p) && evaluates(*y, env, q),
        Ast::Call(f, args) => exists|xs: Seq<N>| #[trigger]
            is_applied(f, xs, v) && xs.len() == args.len() && forall|i: int|
                0 <= i < args.len() ==> evaluates(#[trigger] args[i], env, xs[i]),
    }
}

/// `r` is the outcome of evaluating `src` where `env` gives the variables their values: the fault
/// in `src`, or the number that it evaluates to, which must be finite.
pub open spec fn evaluation<N: Real>(
    src: Seq<char>,
    env: Map<Seq<char>, N>,
    r: Result<N, Fault>,
) -> bool {
    match parse(src, env.dom()) {
        Err(f) => r == Err::<N, Fault>(f),
        Ok(a) => exists|v: N, finite: bool| #[trigger]
            is_finiteness(v, finite) && evaluates(a, env, v) && r == (if finite {
                Ok::<N, Fault>(v)
            } else {
                Err::<N, Fault>(
                    fault("EXPR_NON_FINITE", "expression evaluated to non-finite value"@),
                )
            }),
    }
}

/// Every part of an expression takes at least one token, and no more than there are.
pub proof fn lemma_chain_progress(level: Level, t: Seq<Symbol>, i: int, names: Set<Seq<char>>)
    requires
        0 <= i,
    ensures
        chain(level, t, i, names) matches Ok((_, j)) ==> i < j <= t.len(),
        operand(level, t, i, names) matches Ok((_, j)) ==> i < j <= t.len(),
    decreases t.len() - i, (if level == Level::Sum { 6int } else { 4int }),
{
    match level {
        Level::Sum => lemma_chain_progress(Level::Product, t, i, names),
        Level::Product => lemma_unary_progress(t, i, names),
    }
    if let Ok((a, j)) = operand(level, t, i, names) {
        lemma_rest_progress(level, t, j, a, names);
    }
}

pub proof fn lemma_rest_progress(
    level: Level,
    t: Seq<Symbol>,
    i: int,
    a: Ast,
    names: Set<Seq<char>>,
)
    requires
        0 <= i <= t.len(),
    ensures
        chain_rest(level, t, i, a, names) matches Ok((_, j)) ==> i <= j <= t.len(),
    decreases t.len() - i, 0int,
{
    if let Some(op) = operator_at(level, t, i) {
        lemma_chain_progress(level, t, i + 1, names);
        if let Ok((b, j)) = operand(level, t, i + 1, names) {
            lemma_rest_progress(
                level,
                t,
                j,
                Ast::Binary(op, Box::new(a), Box::new(b)),
                names,
            );
        }
    }
}

pub proof fn lemma_unary_progress(t: Seq<Symbol>, i: int, names: Set<Seq<char>>)
    requires
        0 <= i,
    ensures
        unary(t, i, names) matches Ok((_, j)) ==> i < j <= t.len(),
        power(t, i, names) matches Ok((_, j)) ==> i < j <= t.len(),
    decreases t.len() - i, 2int,
{
    if op_at(t, i, '-') || op_at(t, i, '+') {
        lemma_unary_progress(t, i + 1, names);
    }
    lemma_atom_progress(t, i, names);
    if let Ok((a, j)) = atom(t, i, names) {
        if op_at(t, j, '^') {
            lemma_unary_progress(t, j + 1, names);
        }
    }
}

pub proof fn lemma_atom_progress(t: Seq<Symbol>, i: int, names: Set<Seq<char>>)
    requires
        0 <= i,
    ensures
        atom(t, i, names) matches Ok((_, j)) ==> i < j <= t.len(),
    decreases t.len() - i, 0int,
{
    if i < t.len() {
        if let Symbol::Id(id) = t[i] {
            if op_at(t, i + 1, '(') {
                lemma_arguments_progress(t, i + 2, Seq::empty(), names);
            }
        }
        if t[i] == Symbol::Op('(') {
            lemma_chain_progress(Level::Sum, t, i + 1, names);
        }
    }
}

pub proof fn lemma_arguments_progress(
    t: Seq<Symbol>,
    i: int,
    args: Seq<Ast>,
    names: Set<Seq<char>>,
)
    requires
        0 <= i,
    ensures
        arguments(t, i, args, names) matches Ok((_, j)) ==> i < j <= t.len(),
    decreases t.len() - i, 7int,
{
    lemma_chain_progress(Level::Sum, t, i, names);
    if let Ok((a, j)) = chain(Level::Sum, t, i, names) {
        if op_at(t, j, ',') {
            lemma_arguments_progress(t, j + 1, args.push(a), names);
        }
    }
}

} // verus!
