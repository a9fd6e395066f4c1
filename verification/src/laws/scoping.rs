//! Laws of names: an expression uses the variables that are there, and no others.
use vstd::prelude::*;

use crate::error::Fault;
use crate::grammar::{
    arguments, atom, chain, chain_rest, evaluates, evaluation, is_applied, lemma_atom_progress,
    lemma_chain_progress, op_at, operand, operator_at, parse, power, unary, Ast, Level,
};
use crate::lexer::{tokens, Symbol};
use crate::number::{is_binary, is_unary, Real};

verus! {

/// Whether all variables of an expression are among `names`.
pub open spec fn bound(a: Ast, names: Set<Seq<char>>) -> bool
    decreases a,
{
    match a {
        Ast::Num(_) | Ast::Const(_) => true,
        Ast::Var(name) => names.contains(name),
        Ast::Unary(_, x) => bound(*x, names),
        Ast::Binary(_, x, y) => bound(*x, names) && bound(*y, names),
        Ast::Call(_, args) => forall|i: int| 0 <= i < args.len() ==> bound(#[trigger] args[i], names),
    }
}

proof fn lemma_chain_bound(level: Level, t: Seq<Symbol>, i: int, names: Set<Seq<char>>)
    requires
        0 <= i,
    ensures
        chain(level, t, i, names) matches Ok((a, _)) ==> bound(a, names),
        operand(level, t, i, names) matches Ok((a, _)) ==> bound(a, names),
    decreases t.len() - i, (if level == Level::Sum { 6int } else { 4int }),
{
    match level {
        Level::Sum => lemma_chain_bound(Level::Product, t, i, names),
        Level::Product => lemma_unary_bound(t, i, names),
    }
    lemma_chain_progress(level, t, i, names);
    if let Ok((a, j)) = operand(level, t, i, names) {
        lemma_rest_bound(level, t, j, a, names);
    }
}

proof fn lemma_rest_bound(level: Level, t: Seq<Symbol>, i: int, a: Ast, names: Set<Seq<char>>)
    requires
        0 <= i <= t.len(),
        bound(a, names),
    ensures
        chain_rest(level, t, i, a, names) matches Ok((b, _)) ==> bound(b, names),
    decreases t.len() - i, 0int,
{
    if let Some(op) = operator_at(level, t, i) {
        lemma_chain_bound(level, t, i + 1, names);
        lemma_chain_progress(level, t, i + 1, names);
        if let Ok((b, j)) = operand(level, t, i + 1, names) {
            lemma_rest_bound(level, t, j, Ast::Binary(op, Box::new(a), Box::new(b)), names);
        }
    }
}

proof fn lemma_unary_bound(t: Seq<Symbol>, i: int, names: Set<Seq<char>>)
    requires
        0 <= i,
    ensures
        unary(t, i, names) matches Ok((a, _)) ==> bound(a, names),
        power(t, i, names) matches Ok((a, _)) ==> bound(a, names),
    decreases t.len() - i, 2int,
{
    if op_at(t, i, '-') || op_at(t, i, '+') {
        lemma_unary_bound(t, i + 1, names);
    }
    lemma_atom_bound(t, i, names);
    lemma_atom_progress(t, i, names);
    if let Ok((a, j)) = atom(t, i, names) {
        if op_at(t, j, '^') {
            lemma_unary_bound(t, j + 1, names);
        }
    }
}

proof fn lemma_atom_bound(t: Seq<Symbol>, i: int, names: Set<Seq<char>>)
    requires
        0 <= i,
    ensures
        atom(t, i, names) matches Ok((a, _)) ==> bound(a, names),
    decreases t.len() - i, 0int,
{
    if i < t.len() {
        if op_at(t, i + 1, '(') {
            lemma_arguments_bound(t, i + 2, Seq::empty(), names);
        }
        if t[i] == Symbol::Op('(') {
            lemma_chain_bound(Level::Sum, t, i + 1, names);
        }
    }
}

proof fn lemma_arguments_bound(t: Seq<Symbol>, i: int, args: Seq<Ast>, names: Set<Seq<char>>)
    requires
        0 <= i,
        forall|k: int| 0 <= k < args.len() ==> bound(#[trigger] args[k], names),
    ensures
        arguments(t, i, args, names) matches Ok((all, _)) ==> forall|k: int|
            0 <= k < all.len() ==> bound(#[trigger] all[k], names),
    decreases t.len() - i, 7int,
{
    lemma_chain_bound(Level::Sum, t, i, names);
    lemma_chain_progress(Level::Sum, t, i, names);
    if let Ok((a, j)) = chain(Level::Sum, t, i, names) {
        if op_at(t, j, ',') {
            lemma_arguments_bound(t, j + 1, args.push(a), names);
        }
    }
}

/// An expression that parses uses no variable that is not there: any other name is a fault.
pub proof fn law_names_are_bound(src: Seq<char>, names: Set<Seq<char>>)
    ensures
        parse(src, names) matches Ok(a) ==> bound(a, names),
{
    if let Ok(t) = tokens(src) {
        lemma_chain_bound(Level::Sum, t, 0, names);
    }
}

/// What an expression evaluates to rests on the values of its own variables alone.
pub proof fn law_other_variables_do_not_count<N: Real>(
    a: Ast,
    names: Set<Seq<char>>,
    env: Map<Seq<char>, N>,
    other: Map<Seq<char>, N>,
    v: N,
)
    requires
        bound(a, names),
        evaluates(a, env, v),
        forall|name: Seq<char>| #[trigger]
            names.contains(name) && env.contains_key(name) ==> other.contains_key(name)
                && other[name] == env[name],
    ensures
        evaluates(a, other, v),
    decreases a,
{
    match a {
        Ast::Num(_) | Ast::Const(_) | Ast::Var(_) => {},
        Ast::Unary(op, x) => {
            let p = choose|p: N| #[trigger] is_unary(op, p, v) && evaluates(*x, env, p);
            law_other_variables_do_not_count(*x, names, env, other, p);
        },
        Ast::Binary(op, x, y) => {
            let (p, q) = choose|p: N, q: N| #[trigger]
                is_binary(op, p, q, v) && evaluates(*x, env, p) && evaluates(*y, env, q);
            law_other_variables_do_not_count(*x, names, env, other, p);
            law_other_variables_do_not_count(*y, names, env, other, q);
        },
        Ast::Call(f, args) => {
            let xs = choose|xs: Seq<N>| #[trigger]
                is_applied(f, xs, v) && xs.len() == args.len() && forall|i: int|
                    0 <= i < args.len() ==> evaluates(#[trigger] args[i], env, xs[i]);
            assert forall|i: int| 0 <= i < args.len() implies evaluates(
                #[trigger] args[i],
                other,
                xs[i],
            ) by {
                law_other_variables_do_not_count(args[i], names, env, other, xs[i]);
            }
        },
    }
}

/// Whether two sets of names tell the names among the tokens apart in the same way.
spec fn alike(t: Seq<Symbol>, names: Set<Seq<char>>, others: Set<Seq<char>>) -> bool {
    forall|i: int|
        0 <= i < t.len() ==> (#[trigger] t[i] matches Symbol::Id(id) ==> names.contains(id)
            == others.contains(id))
}

proof fn lemma_chain_alike(
    level: Level,
    t: Seq<Symbol>,
    i: int,
    names: Set<Seq<char>>,
    others: Set<Seq<char>>,
)
    requires
        0 <= i,
        alike(t, names, others),
    ensures
        chain(level, t, i, names) == chain(level, t, i, others),
        operand(level, t, i, names) == operand(level, t, i, others),
    decreases t.len() - i, (if level == Level::Sum { 6int } else { 4int }),
{
    match level {
        Level::Sum => lemma_chain_alike(Level::Product, t, i, names, others),
        Level::Product => lemma_unary_alike(t, i, names, others),
    }
    lemma_chain_progress(level, t, i, names);
    if let Ok((a, j)) = operand(level, t, i, names) {
        lemma_rest_alike(level, t, j, a, names, others);
    }
}

proof fn lemma_rest_alike(
    level: Level,
    t: Seq<Symbol>,
    i: int,
    a: Ast,
    names: Set<Seq<char>>,
    others: Set<Seq<char>>,
)
    requires
        0 <= i <= t.len(),
        alike(t, names, others),
    ensures
        chain_rest(level, t, i, a, names) == chain_rest(level, t, i, a, others),
    decreases t.len() - i, 0int,
{
    if let Some(op) = operator_at(level, t, i) {
        lemma_chain_alike(level, t, i + 1, names, others);
        lemma_chain_progress(level, t, i + 1, names);
        if let Ok((b, j)) = operand(level, t, i + 1, names) {
            let next = Ast::Binary(op, Box::new(a), Box::new(b));
            lemma_rest_alike(level, t, j, next, names, others);
        }
    }
}

proof fn lemma_unary_alike(
    t: Seq<Symbol>,
    i: int,
    names: Set<Seq<char>>,
    others: Set<Seq<char>>,
)
    requires
        0 <= i,
        alike(t, names, others),
    ensures
        unary(t, i, names) == unary(t, i, others),
        power(t, i, names) == power(t, i, others),
    decreases t.len() - i, 2int,
{
    if op_at(t, i, '-') || op_at(t, i, '+') {
        lemma_unary_alike(t, i + 1, names, others);
    }
    lemma_atom_alike(t, i, names, others);
    lemma_atom_progress(t, i, names);
    if let Ok((_, j)) = atom(t, i, names) {
        if op_at(t, j, '^') {
            lemma_unary_alike(t, j + 1, names, others);
        }
    }
}

proof fn lemma_atom_alike(
    t: Seq<Symbol>,
    i: int,
    names: Set<Seq<char>>,
    others: Set<Seq<char>>,
)
    requires
        0 <= i,
        alike(t, names, others),
    ensures
        atom(t, i, names) == atom(t, i, others),
    decreases t.len() - i, 0int,
{
    if i < t.len() {
        if op_at(t, i + 1, '(') {
            lemma_arguments_alike(t, i + 2, Seq::empty(), names, others);
        }
        if t[i] == Symbol::Op('(') {
            lemma_chain_alike(Level::Sum, t, i + 1, names, others);
        }
    }
}

proof fn lemma_arguments_alike(
    t: Seq<Symbol>,
    i: int,
    args: Seq<Ast>,
    names: Set<Seq<char>>,
    others: Set<Seq<char>>,
)
    requires
        0 <= i,
        alike(t, names, others),
    ensures
        arguments(t, i, args, names) == arguments(t, i, args, others),
    decreases t.len() - i, 7int,
{
    lemma_chain_alike(Level::Sum, t, i, names, others);
    lemma_chain_progress(Level::Sum, t, i, names);
    if let Ok((a, j)) = chain(Level::Sum, t, i, names) {
        if op_at(t, j, ',') {
            lemma_arguments_alike(t, j + 1, args.push(a), names, others);
        }
    }
}

/// Whether `name` is one of the tokens of a text.
pub open spec fn occurs(name: Seq<char>, src: Seq<char>) -> bool {
    tokens(src) matches Ok(t) && t.contains(Symbol::Id(name))
}

/// A variable that does not occur in an expression does not count: with it and without it, and
/// whatever its value, the outcomes are the same.
pub proof fn law_unused_variable<N: Real>(
    src: Seq<char>,
    env: Map<Seq<char>, N>,
    name: Seq<char>,
    w: N,
    r: Result<N, Fault>,
)
    requires
        !occurs(name, src),
    ensures
        evaluation(src, env.insert(name, w), r) == evaluation(src, env, r),
        evaluation(src, env.remove(name), r) == evaluation(src, env, r),
{
    let names = env.dom().remove(name);
    lemma_unused(src, names, env.dom(), name);
    lemma_unused(src, names, env.insert(name, w).dom(), name);
    lemma_unused(src, names, env.remove(name).dom(), name);
    law_names_are_bound(src, names);
    if let Ok(a) = parse(src, names) {
        assert forall|v: N| #[trigger] evaluates(a, env.insert(name, w), v) == evaluates(
            a,
            env,
            v,
        ) by {
            lemma_same_values(a, names, env.insert(name, w), env, v);
        }
        assert forall|v: N| #[trigger] evaluates(a, env.remove(name), v) == evaluates(
            a,
            env,
            v,
        ) by {
            lemma_same_values(a, names, env.remove(name), env, v);
        }
    }
}

proof fn lemma_unused(
    src: Seq<char>,
    names: Set<Seq<char>>,
    others: Set<Seq<char>>,
    name: Seq<char>,
)
    requires
        !occurs(name, src),
        forall|n: Seq<char>| n != name ==> #[trigger] names.contains(n) == others.contains(n),
    ensures
        parse(src, names) == parse(src, others),
{
    if let Ok(t) = tokens(src) {
        assert(alike(t, names, others)) by {
            assert forall|i: int| 0 <= i < t.len() implies (#[trigger] t[i] matches Symbol::Id(id)
                ==> names.contains(id) == others.contains(id)) by {
                assert(t.contains(t[i]));
            }
        }
        lemma_chain_alike(Level::Sum, t, 0, names, others);
    }
}

proof fn lemma_same_values<N: Real>(
    a: Ast,
    names: Set<Seq<char>>,
    env: Map<Seq<char>, N>,
    other: Map<Seq<char>, N>,
    v: N,
)
    requires
        bound(a, names),
        forall|name: Seq<char>| #[trigger]
            names.contains(name) ==> env.contains_key(name) && other.contains_key(name)
                && other[name] == env[name],
    ensures
        evaluates(a, env, v) == evaluates(a, other, v),
{
    if evaluates(a, env, v) {
        law_other_variables_do_not_count(a, names, env, other, v);
    }
    if evaluates(a, other, v) {
        law_other_variables_do_not_count(a, names, other, env, v);
    }
}

} // verus!
