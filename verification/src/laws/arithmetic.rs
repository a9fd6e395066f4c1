//! Laws of evaluation: each part of an expression has the value that the number type returns for
//! it, and nothing is done to that value afterwards.
use vstd::prelude::*;

use crate::error::Fault;
use crate::grammar::{evaluates, evaluation, is_applied, parse, Ast, Function};
use crate::number::{
    is_binary, is_constant, is_finiteness, is_fold, is_unary, BinaryOp, Constant, Real, UnaryOp,
};

verus! {

/// A numeral evaluates to what the number type reads it as.
pub proof fn law_numeral_value<N: Real>(text: Seq<char>, env: Map<Seq<char>, N>, v: N)
    ensures
        evaluates(Ast::Num(text), env, v) <==> exists|s: &str|
            s@ == text && #[trigger] call_ensures(N::literal, (s,), v),
{
}

/// A variable evaluates to its value.
pub proof fn law_variable_value<N: Real>(name: Seq<char>, env: Map<Seq<char>, N>, v: N)
    ensures
        evaluates(Ast::Var(name), env, v) <==> env.contains_pair(name, v),
{
}

/// A constant evaluates to what the number type returns for it.
pub proof fn law_constant_value<N: Real>(c: Constant, env: Map<Seq<char>, N>, v: N)
    ensures
        evaluates(Ast::Const(c), env, v) <==> call_ensures(N::constant, (c,), v),
{
}

/// An operation on one operand evaluates to what the number type returns for it at a value of the
/// operand.
pub proof fn law_unary_value<N: Real>(op: UnaryOp, x: Ast, env: Map<Seq<char>, N>, v: N)
    ensures
        evaluates(Ast::Unary(op, Box::new(x)), env, v) <==> exists|p: N|
            evaluates(x, env, p) && #[trigger] call_ensures(N::unary, (op, p), v),
{
    let a = Ast::Unary(op, Box::new(x));
    if evaluates(a, env, v) {
        let p = choose|p: N| #[trigger] is_unary(op, p, v) && evaluates(x, env, p);
        assert(call_ensures(N::unary, (op, p), v));
    }
    if exists|p: N| evaluates(x, env, p) && #[trigger] call_ensures(N::unary, (op, p), v) {
        let p = choose|p: N| evaluates(x, env, p) && #[trigger] call_ensures(N::unary, (op, p), v);
        assert(is_unary(op, p, v));
    }
}

/// An operation on two operands evaluates to what the number type returns for it at a value of the
/// first and a value of the second, in this order.
pub proof fn law_binary_value<N: Real>(op: BinaryOp, x: Ast, y: Ast, env: Map<Seq<char>, N>, v: N)
    ensures
        evaluates(Ast::Binary(op, Box::new(x), Box::new(y)), env, v) <==> exists|p: N, q: N|
            evaluates(x, env, p) && evaluates(y, env, q) && #[trigger] call_ensures(
                N::binary,
                (op, p, q),
                v,
            ),
{
    let a = Ast::Binary(op, Box::new(x), Box::new(y));
    if evaluates(a, env, v) {
        let (p, q) = choose|p: N, q: N| #[trigger]
            is_binary(op, p, q, v) && evaluates(x, env, p) && evaluates(y, env, q);
        assert(call_ensures(N::binary, (op, p, q), v));
    }
    if exists|p: N, q: N|
        evaluates(x, env, p) && evaluates(y, env, q) && #[trigger] call_ensures(
            N::binary,
            (op, p, q),
            v,
        ) {
        let (p, q) = choose|p: N, q: N|
            evaluates(x, env, p) && evaluates(y, env, q) && #[trigger] call_ensures(
                N::binary,
                (op, p, q),
                v,
            );
        assert(is_binary(op, p, q, v));
    }
}

/// A function of the first argument evaluates to what the number type returns for its operation at
/// a value of that argument; the others have values that do not count.
pub proof fn law_first_argument_value<N: Real>(
    op: UnaryOp,
    args: Seq<Ast>,
    env: Map<Seq<char>, N>,
    v: N,
)
    requires
        args.len() > 0,
        evaluates(Ast::Call(Function::First(op), args), env, v),
    ensures
        exists|p: N| evaluates(args[0], env, p) && #[trigger] call_ensures(N::unary, (op, p), v),
{
    let f = Function::First(op);
    let xs = choose|xs: Seq<N>| #[trigger]
        is_applied(f, xs, v) && xs.len() == args.len() && forall|i: int|
            0 <= i < args.len() ==> evaluates(#[trigger] args[i], env, xs[i]);
    assert(evaluates(args[0], env, xs[0]));
    assert(call_ensures(N::unary, (op, xs[0]), v));
}

/// A function of all its arguments evaluates to the last of the numbers that come, one after the
/// other, of the constant it starts from and a value of each argument in turn.
pub proof fn law_folded_value<N: Real>(
    op: BinaryOp,
    c: Constant,
    args: Seq<Ast>,
    env: Map<Seq<char>, N>,
    v: N,
)
    requires
        evaluates(Ast::Call(Function::Fold(op, c), args), env, v),
    ensures
        exists|xs: Seq<N>, steps: Seq<N>| #[trigger]
            folded(op, xs, steps) && xs.len() == args.len() && call_ensures(
                N::constant,
                (c,),
                steps[0],
            ) && v == steps.last() && forall|i: int|
                0 <= i < args.len() ==> evaluates(#[trigger] args[i], env, xs[i]),
{
    let f = Function::Fold(op, c);
    let xs = choose|xs: Seq<N>| #[trigger]
        is_applied(f, xs, v) && xs.len() == args.len() && forall|i: int|
            0 <= i < args.len() ==> evaluates(#[trigger] args[i], env, xs[i]);
    let z = choose|z: N| #[trigger] is_constant(c, z) && is_fold(op, z, xs, v);
    let steps = lemma_fold_steps(op, z, xs, v);
    assert(folded(op, xs, steps));
}

/// Each of `steps` but the first comes of the one before it and the number of `xs` in its place.
pub open spec fn folded<N: Real>(op: BinaryOp, xs: Seq<N>, steps: Seq<N>) -> bool {
    &&& steps.len() == xs.len() + 1
    &&& forall|i: int|
        0 <= i < xs.len() ==> #[trigger] call_ensures(
            N::binary,
            (op, steps[i], xs[i]),
            steps[i + 1],
        )
}

proof fn lemma_fold_steps<N: Real>(op: BinaryOp, z: N, xs: Seq<N>, v: N) -> (steps: Seq<N>)
    requires
        is_fold(op, z, xs, v),
    ensures
        folded(op, xs, steps),
        steps[0] == z,
        steps.last() == v,
    decreases xs.len(),
{
    if xs.len() == 0 {
        seq![v]
    } else {
        let w = choose|w: N| #[trigger]
            is_binary(op, z, xs[0], w) && is_fold(op, w, xs.skip(1), v);
        let rest = lemma_fold_steps(op, w, xs.skip(1), v);
        let steps = seq![z] + rest;
        assert forall|i: int| 0 <= i < xs.len() implies #[trigger] call_ensures(
            N::binary,
            (op, steps[i], xs[i]),
            steps[i + 1],
        ) by {
            if i > 0 {
                assert(xs.skip(1)[i - 1] == xs[i]);
                assert(call_ensures(
                    N::binary,
                    (op, rest[i - 1], xs.skip(1)[i - 1]),
                    rest[i - 1 + 1],
                ));
            }
        }
        steps
    }
}

/// Evaluation ends with a number exactly where the text is an expression that evaluates to it and
/// the number type finds it finite, and with a fault otherwise: that of the text, or that of a
/// value that is not finite.
pub proof fn law_evaluation_outcomes<N: Real>(
    src: Seq<char>,
    env: Map<Seq<char>, N>,
    r: Result<N, Fault>,
)
    requires
        evaluation(src, env, r),
    ensures
        match (parse(src, env.dom()), r) {
            (Ok(a), Ok(v)) => evaluates(a, env, v) && call_ensures(N::is_finite, (v,), true),
            (Ok(a), Err(f)) => f.code == "EXPR_NON_FINITE"@ && f.message
                == "expression evaluated to non-finite value"@ && exists|v: N|
                evaluates(a, env, v) && #[trigger] call_ensures(N::is_finite, (v,), false),
            (Err(f), Err(g)) => f == g,
            (Err(_), Ok(_)) => false,
        },
{
    if let Ok(a) = parse(src, env.dom()) {
        let (v, finite) = choose|v: N, finite: bool| #[trigger]
            is_finiteness(v, finite) && evaluates(a, env, v) && r == (if finite {
                Ok::<N, Fault>(v)
            } else {
                Err::<N, Fault>(
                    crate::error::fault(
                        "EXPR_NON_FINITE",
                        "expression evaluated to non-finite value"@,
                    ),
                )
            });
        assert(call_ensures(N::is_finite, (v,), finite));
    }
}

/// A function of one number is applied to the first of the numbers it is given, or to not-a-number
/// where there are none; one of all its numbers goes through them from the constant it starts from.
pub proof fn law_application<N: Real>(f: Function, xs: Seq<N>, v: N)
    requires
        is_applied(f, xs, v),
    ensures
        match f {
            Function::First(op) => if xs.len() > 0 {
                call_ensures(N::unary, (op, xs[0]), v)
            } else {
                exists|z: N|
                    call_ensures(N::constant, (Constant::NotANumber,), z) && #[trigger] call_ensures(
                        N::unary,
                        (op, z),
                        v,
                    )
            },
            Function::Fold(op, c) => exists|steps: Seq<N>| #[trigger]
                folded(op, xs, steps) && call_ensures(N::constant, (c,), steps[0]) && v
                    == steps.last(),
        },
{
    match f {
        Function::First(op) => {
            if xs.len() == 0 {
                let z = choose|z: N| #[trigger]
                    is_constant(Constant::NotANumber, z) && is_unary(op, z, v);
                assert(call_ensures(N::unary, (op, z), v));
            }
        },
        Function::Fold(op, c) => {
            let z = choose|z: N| #[trigger] is_constant(c, z) && is_fold(op, z, xs, v);
            let steps = lemma_fold_steps(op, z, xs, v);
            assert(folded(op, xs, steps));
        },
    }
}

} // verus!
