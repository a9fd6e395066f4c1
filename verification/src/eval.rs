//! Evaluation of expressions.
//!
//! Evaluation follows the grammar by recursive descent and computes as it goes; it runs nothing
//! but the arithmetic that the grammar has.
use vstd::hash_map::StringHashMap;
use vstd::prelude::*;

use crate::error::{fault, outcome, Fault, SolverError};
use crate::grammar::{
    arguments, atom, chain, chain_rest, closed, constant_named, evaluates, evaluation,
    function_named, is_applied, lemma_arguments_progress, lemma_atom_progress,
    lemma_chain_progress, op_at, operand, operator, operator_at, power, unary, Ast, Function, Level,
};
use crate::lexer::{symbols, tokenize, Tok};
use crate::number::{
    is_binary, is_constant, is_finiteness, is_fold, is_literal, is_unary, BinaryOp, Constant, Real,
    UnaryOp,
};
use crate::text::{chars_of, is_blank, join2, same_text, to_lower};

verus! {

/// The values of variables, by name.
pub type Env<N> = StringHashMap<N>;

/// An evaluation ends as the grammar has it: with a value of the tree and the place after it, or
/// with the fault.
pub open spec fn agrees<N: Real>(
    parsed: Result<(Ast, int), Fault>,
    env: Map<Seq<char>, N>,
    r: Result<(N, usize), SolverError>,
) -> bool {
    match (parsed, r) {
        (Ok((a, j)), Ok((v, k))) => j == k && evaluates(a, env, v),
        (Err(f), Err(e)) => f == e@,
        _ => false,
    }
}

/// The arguments of a call end as the grammar has it: with a value for each and the place after
/// them, or with the fault.
pub open spec fn agrees_all<N: Real>(
    parsed: Result<(Seq<Ast>, int), Fault>,
    env: Map<Seq<char>, N>,
    r: Result<(Vec<N>, usize), SolverError>,
) -> bool {
    match (parsed, r) {
        (Ok((args, j)), Ok((xs, k))) => j == k && all_evaluate(args, env, xs@),
        (Err(f), Err(e)) => f == e@,
        _ => false,
    }
}

/// `xs` are values of `args`, one for one.
pub open spec fn all_evaluate<N: Real>(
    args: Seq<Ast>,
    env: Map<Seq<char>, N>,
    xs: Seq<N>,
) -> bool {
    xs.len() == args.len() && forall|i: int|
        0 <= i < args.len() ==> evaluates(#[trigger] args[i], env, xs[i])
}

/// The function with the given name.
pub fn function_of(name: &str) -> (r: Option<Function>)
    ensures
        r == function_named(name@),
{
    if same_text(name, "abs") {
        Some(Function::First(UnaryOp::Abs))
    } else if same_text(name, "sqrt") {
        Some(Function::First(UnaryOp::Sqrt))
    } else if same_text(name, "sin") {
        Some(Function::First(UnaryOp::Sin))
    } else if same_text(name, "cos") {
        Some(Function::First(UnaryOp::Cos))
    } else if same_text(name, "tan") {
        Some(Function::First(UnaryOp::Tan))
    } else if same_text(name, "ln") {
        Some(Function::First(UnaryOp::Ln))
    } else if same_text(name, "log") {
        Some(Function::First(UnaryOp::Log10))
    } else if same_text(name, "exp") {
        Some(Function::First(UnaryOp::Exp))
    } else if same_text(name, "floor") {
        Some(Function::First(UnaryOp::Floor))
    } else if same_text(name, "ceil") {
        Some(Function::First(UnaryOp::Ceil))
    } else if same_text(name, "round") {
        Some(Function::First(UnaryOp::Round))
    } else if same_text(name, "min") {
        Some(Function::Fold(BinaryOp::Min, Constant::Infinity))
    } else if same_text(name, "max") {
        Some(Function::Fold(BinaryOp::Max, Constant::NegInfinity))
    } else {
        None
    }
}

/// The constant with the given name.
pub fn constant_of(name: &str) -> (r: Option<Constant>)
    ensures
        r == constant_named(name@),
{
    if same_text(name, "pi") {
        Some(Constant::Pi)
    } else if same_text(name, "e") {
        Some(Constant::E)
    } else {
        None
    }
}

/// The operation that `c` stands for between two operands of `level`.
pub fn operator_of(level: Level, c: char) -> (r: Option<BinaryOp>)
    ensures
        r == operator(level, c),
{
    match level {
        Level::Sum => if c == '+' {
            Some(BinaryOp::Add)
        } else if c == '-' {
            Some(BinaryOp::Sub)
        } else {
            None
        },
        Level::Product => if c == '*' {
            Some(BinaryOp::Mul)
        } else if c == '/' {
            Some(BinaryOp::Div)
        } else if c == '%' {
            Some(BinaryOp::Rem)
        } else {
            None
        },
    }
}

/// Folds `op` over `xs` from the left, from `start` on.
fn fold<N: Real>(op: BinaryOp, start: N, xs: &Vec<N>) -> (r: N)
    ensures
        is_fold(op, start, xs@, r),
{
    let mut acc = start;
    let mut i: usize = 0;
    proof {
        assert(xs@.skip(0) =~= xs@);
    }
    while i < xs.len()
        invariant
            i <= xs@.len(),
            forall|v: N| #[trigger]
                is_fold(op, acc, xs@.skip(i as int), v) ==> is_fold(op, start, xs@, v),
        decreases xs@.len() - i,
    {
        let ghost before = acc;
        let x = xs[i];
        acc = N::binary(op, acc, x);
        i = i + 1;
        proof {
            let s = xs@.skip(i - 1);
            assert(s.skip(1) =~= xs@.skip(i as int));
            assert(is_binary(op, before, s[0], acc));
            assert forall|v: N| #[trigger] is_fold(op, acc, xs@.skip(i as int), v) implies is_fold(
                op,
                start,
                xs@,
                v,
            ) by {
                assert(is_fold(op, before, s, v));
            }
        }
    }
    assert(is_fold(op, acc, xs@.skip(i as int), acc));
    acc
}

/// Applies the function with the given name to any number of arguments.
pub fn apply_fn<N: Real>(name: &str, args: &Vec<N>) -> (r: Result<N, SolverError>)
    ensures
        match function_named(name@) {
            Some(f) => r matches Ok(v) && is_applied(f, args@, v),
            None => r matches Err(e) && e@ == fault(
                "EXPR_UNKNOWN_FUNC",
                "unknown function "@ + name@,
            ),
        },
{
    match function_of(name) {
        Some(Function::First(op)) => {
            let first = if args.len() > 0 {
                args[0]
            } else {
                N::constant(Constant::NotANumber)
            };
            assert(args@.len() == 0 ==> is_constant(Constant::NotANumber, first));
            Ok(N::unary(op, first))
        },
        Some(Function::Fold(op, c)) => {
            let start = N::constant(c);
            assert(is_constant(c, start));
            Ok(fold(op, start, args))
        },
        None => {
            let message = join2("unknown function ", name);
            Err(SolverError::new("EXPR_UNKNOWN_FUNC", message.as_str()))
        },
    }
}

/// Whether the token at `i` is `c`.
fn is_op_at(toks: &Vec<Tok>, i: usize, c: char) -> (r: bool)
    ensures
        r == op_at(symbols(toks@), i as int, c),
        r ==> i < toks.len(),
{
    if i < toks.len() {
        match &toks[i] {
            Tok::Op(d) => *d == c,
            _ => false,
        }
    } else {
        false
    }
}

/// The place after the closing parenthesis that must stand at `i`.
fn close(toks: &Vec<Tok>, i: usize) -> (r: Result<usize, SolverError>)
    ensures
        match r {
            Ok(j) => closed(symbols(toks@), i as int, ()) == Ok::<((), int), Fault>(((), j as int))
                && j <= toks@.len(),
            Err(e) => closed(symbols(toks@), i as int, ()) == Err::<((), int), Fault>(e@),
        },
{
    if i >= toks.len() {
        return Err(SolverError::new("EXPR_SYNTAX", "expected more tokens"));
    }
    if !is_op_at(toks, i, ')') {
        return Err(SolverError::new("EXPR_SYNTAX", "expected )"));
    }
    Ok(i + 1)
}

/// Evaluates the sum or product that starts at `i`.
fn eval_chain<N: Real>(level: Level, toks: &Vec<Tok>, i: usize, env: &Env<N>) -> (r: Result<
    (N, usize),
    SolverError,
>)
    requires
        i <= toks@.len(),
    ensures
        agrees(chain(level, symbols(toks@), i as int, env@.dom()), env@, r),
    decreases toks@.len() - i, (if level == Level::Sum { 6int } else { 4int }),
{
    let ghost t = symbols(toks@);
    let ghost names = env@.dom();
    proof {
        lemma_chain_progress(level, t, i as int, names);
    }
    let (mut v, mut j) = match eval_operand(level, toks, i, env) {
        Ok(p) => p,
        Err(e) => return Err(e),
    };
    let ghost mut a = operand(level, t, i as int, names)->Ok_0.0;
    loop
        invariant
            t == symbols(toks@),
            names == env@.dom(),
            i < j <= toks@.len(),
            evaluates(a, env@, v),
            chain(level, t, i as int, names) == chain_rest(level, t, j as int, a, names),
        decreases toks@.len() - j,
    {
        if j >= toks.len() {
            return Ok((v, j));
        }
        let op = match &toks[j] {
            Tok::Op(c) => operator_of(level, *c),
            _ => None,
        };
        assert(op == operator_at(level, t, j as int));
        match op {
            None => {
                return Ok((v, j));
            },
            Some(op) => {
                proof {
                    lemma_chain_progress(level, t, j + 1, names);
                }
                let (w, k) = match eval_operand(level, toks, j + 1, env) {
                    Ok(p) => p,
                    Err(e) => return Err(e),
                };
                let next = N::binary(op, v, w);
                proof {
                    let b = operand(level, t, j + 1, names)->Ok_0.0;
                    assert(is_binary(op, v, w, next));
                    a = Ast::Binary(op, Box::new(a), Box::new(b));
                }
                v = next;
                j = k;
            },
        }
    }
}

/// Evaluates an operand of `level`.
fn eval_operand<N: Real>(level: Level, toks: &Vec<Tok>, i: usize, env: &Env<N>) -> (r: Result<
    (N, usize),
    SolverError,
>)
    requires
        i <= toks@.len(),
    ensures
        agrees(operand(level, symbols(toks@), i as int, env@.dom()), env@, r),
    decreases toks@.len() - i, (if level == Level::Sum { 5int } else { 3int }),
{
    match level {
        Level::Sum => eval_chain(Level::Product, toks, i, env),
        Level::Product => eval_unary(toks, i, env),
    }
}

/// Evaluates the signed power that starts at `i`.
fn eval_unary<N: Real>(toks: &Vec<Tok>, i: usize, env: &Env<N>) -> (r: Result<
    (N, usize),
    SolverError,
>)
    requires
        i <= toks@.len(),
    ensures
        agrees(unary(symbols(toks@), i as int, env@.dom()), env@, r),
    decreases toks@.len() - i, 2int,
{
    if is_op_at(toks, i, '-') {
        match eval_unary(toks, i + 1, env) {
            Ok((x, j)) => {
                let v = N::unary(UnaryOp::Neg, x);
                assert(is_unary(UnaryOp::Neg, x, v));
                Ok((v, j))
            },
            Err(e) => Err(e),
        }
    } else if is_op_at(toks, i, '+') {
        eval_unary(toks, i + 1, env)
    } else {
        eval_power(toks, i, env)
    }
}

/// Evaluates the power that starts at `i`.
fn eval_power<N: Real>(toks: &Vec<Tok>, i: usize, env: &Env<N>) -> (r: Result<
    (N, usize),
    SolverError,
>)
    requires
        i <= toks@.len(),
    ensures
        agrees(power(symbols(toks@), i as int, env@.dom()), env@, r),
    decreases toks@.len() - i, 1int,
{
    proof {
        lemma_atom_progress(symbols(toks@), i as int, env@.dom());
    }
    let (base, j) = match eval_atom(toks, i, env) {
        Ok(p) => p,
        Err(e) => return Err(e),
    };
    if is_op_at(toks, j, '^') {
        match eval_unary(toks, j + 1, env) {
            Ok((exponent, k)) => {
                let v = N::binary(BinaryOp::Pow, base, exponent);
                assert(is_binary(BinaryOp::Pow, base, exponent, v));
                Ok((v, k))
            },
            Err(e) => Err(e),
        }
    } else {
        Ok((base, j))
    }
}

/// Evaluates the numeral, name, call or parenthesis that starts at `i`.
fn eval_atom<N: Real>(toks: &Vec<Tok>, i: usize, env: &Env<N>) -> (r: Result<
    (N, usize),
    SolverError,
>)
    requires
        i <= toks@.len(),
    ensures
        agrees(atom(symbols(toks@), i as int, env@.dom()), env@, r),
    decreases toks@.len() - i, 0int,
{
    let ghost t = symbols(toks@);
    let ghost names = env@.dom();
    if i >= toks.len() {
        return Err(SolverError::new("EXPR_SYNTAX", "expected more tokens"));
    }
    match &toks[i] {
        Tok::Num(text) => {
            let v = N::literal(text.as_str());
            assert(is_literal(text@, v));
            Ok((v, i + 1))
        },
        Tok::Id(id) => {
            if let Some(v) = env.get(id.as_str()) {
                return Ok((*v, i + 1));
            }
            let name = to_lower(id.as_str());
            if is_op_at(toks, i + 1, '(') {
                proof {
                    lemma_arguments_progress(t, i + 2, Seq::empty(), names);
                }
                let (args, j) = match eval_arguments(toks, i + 2, env) {
                    Ok(p) => p,
                    Err(e) => return Err(e),
                };
                let k = match close(toks, j) {
                    Ok(k) => k,
                    Err(e) => return Err(e),
                };
                match apply_fn(name.as_str(), &args) {
                    Ok(v) => {
                        assert(is_applied(function_named(name@).unwrap(), args@, v));
                        Ok((v, k))
                    },
                    Err(e) => Err(e),
                }
            } else {
                match constant_of(name.as_str()) {
                    Some(c) => Ok((N::constant(c), i + 1)),
                    None => {
                        let message = join2("unknown identifier ", name.as_str());
                        Err(SolverError::new("EXPR_UNKNOWN_ID", message.as_str()))
                    },
                }
            }
        },
        Tok::Op(c) => {
            if *c == '(' {
                proof {
                    lemma_chain_progress(Level::Sum, t, i + 1, names);
                }
                let (v, j) = match eval_chain(Level::Sum, toks, i + 1, env) {
                    Ok(p) => p,
                    Err(e) => return Err(e),
                };
                match close(toks, j) {
                    Ok(k) => Ok((v, k)),
                    Err(e) => Err(e),
                }
            } else {
                let mut shown = String::new();
                shown.push(*c);
                assert(shown@ =~= seq![*c]);
                let message = join2("unexpected token ", shown.as_str());
                Err(SolverError::new("EXPR_SYNTAX", message.as_str()))
            }
        },
    }
}

/// Evaluates the arguments of a call, the first of which starts at `i`.
fn eval_arguments<N: Real>(toks: &Vec<Tok>, i: usize, env: &Env<N>) -> (r: Result<
    (Vec<N>, usize),
    SolverError,
>)
    requires
        i <= toks@.len(),
    ensures
        agrees_all(arguments(symbols(toks@), i as int, Seq::empty(), env@.dom()), env@, r),
    decreases toks@.len() - i, 7int,
{
    let ghost t = symbols(toks@);
    let ghost names = env@.dom();
    let mut args: Vec<N> = Vec::new();
    let ghost mut trees: Seq<Ast> = Seq::empty();
    let mut at: usize = i;
    loop
        invariant
            t == symbols(toks@),
            names == env@.dom(),
            i <= at <= toks@.len(),
            all_evaluate(trees, env@, args@),
            arguments(t, i as int, Seq::empty(), names) == arguments(t, at as int, trees, names),
        decreases toks@.len() - at,
    {
        proof {
            lemma_chain_progress(Level::Sum, t, at as int, names);
        }
        let (v, j) = match eval_chain(Level::Sum, toks, at, env) {
            Ok(p) => p,
            Err(e) => return Err(e),
        };
        args.push(v);
        proof {
            trees = trees.push(chain(Level::Sum, t, at as int, names)->Ok_0.0);
        }
        if is_op_at(toks, j, ',') {
            at = j + 1;
        } else {
            return Ok((args, j));
        }
    }
}

/// Evaluates an expression without variables.
pub fn eval_expression<N: Real>(src: &str) -> (r: Result<N, SolverError>)
    ensures
        evaluation(src@, Map::<Seq<char>, N>::empty(), outcome(r)),
{
    let env = Env::<N>::new();
    eval_expression_with(src, &env)
}

/// Evaluates an expression where `env` gives the variables their values.
pub fn eval_expression_with<N: Real>(src: &str, env: &Env<N>) -> (r: Result<N, SolverError>)
    ensures
        evaluation(src@, env@, outcome(r)),
{
    if is_blank(chars_of(src).as_slice()) {
        return Err(SolverError::new("EXPR_EMPTY", "empty expression"));
    }
    let toks = match tokenize(src) {
        Ok(toks) => toks,
        Err(e) => return Err(e),
    };
    let (v, end) = match eval_chain(Level::Sum, &toks, 0, env) {
        Ok(p) => p,
        Err(e) => return Err(e),
    };
    if end != toks.len() {
        return Err(SolverError::new("EXPR_TRAILING", "trailing tokens in expression"));
    }
    let finite = N::is_finite(v);
    assert(is_finiteness(v, finite));
    if !finite {
        return Err(
            SolverError::new("EXPR_NON_FINITE", "expression evaluated to non-finite value"),
        );
    }
    Ok(v)
}

} // verus!
