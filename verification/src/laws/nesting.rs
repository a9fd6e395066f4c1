//! Laws of parentheses: an expression keeps its meaning inside them, whatever it is.
use vstd::prelude::*;

use crate::error::Fault;
use crate::grammar::{
    arguments, atom, chain, chain_rest, lemma_arguments_progress, lemma_atom_progress,
    lemma_chain_progress, lemma_rest_progress, lemma_unary_progress, op_at, operand, operator_at,
    parse, parse_tokens, power, unary, Ast, Level,
};
use crate::laws::lexing::{law_tokens_part, lemma_leading_space};
use crate::laws::precedence::{
    lemma_joined, lemma_negated, lemma_operand, lemma_parenthesis, lemma_unary_is_all, sign_of,
};
use crate::lexer::{first_token, is_op, tokens, Symbol};
use crate::number::{BinaryOp, UnaryOp};
use crate::text::{blank, is_space};

verus! {

/// `s` in parentheses.
pub open spec fn enclosed(s: Seq<char>) -> Seq<char> {
    seq!['('] + s + seq![')']
}

/// The tokens `t` stand in `u` at `d`.
pub open spec fn within(t: Seq<Symbol>, u: Seq<Symbol>, d: int) -> bool {
    &&& 0 <= d
    &&& d + t.len() <= u.len()
    &&& forall|k: int| 0 <= k < t.len() ==> #[trigger] t[k] == u[d + k]
}

/// What stands in `u` at `e` does not go on with an atom, a power, a product, a sum or a list of
/// arguments, for `rank` from zero to four.
pub open spec fn ends(u: Seq<Symbol>, e: int, rank: int) -> bool {
    &&& !op_at(u, e, '(')
    &&& rank >= 1 ==> !op_at(u, e, '^')
    &&& rank >= 2 ==> operator_at(Level::Product, u, e) is None
    &&& rank >= 3 ==> operator_at(Level::Sum, u, e) is None
    &&& rank >= 4 ==> !op_at(u, e, ',')
}

/// The rank at which a sum or a product ends.
pub open spec fn level_rank(level: Level) -> int {
    if level == Level::Sum {
        3
    } else {
        2
    }
}

proof fn lemma_same_token(t: Seq<Symbol>, u: Seq<Symbol>, d: int, i: int)
    requires
        within(t, u, d),
        0 <= i < t.len(),
    ensures
        forall|c: char| #[trigger] op_at(t, i, c) == op_at(u, d + i, c),
        forall|level: Level| #[trigger] operator_at(level, t, i) == operator_at(level, u, d + i),
{
    assert(t[i] == u[d + i]);
}

/// What tokens stand for does not depend on what stands around them, where that does not go on
/// with them.
pub proof fn lemma_chain_within(
    level: Level,
    t: Seq<Symbol>,
    i: int,
    u: Seq<Symbol>,
    d: int,
    names: Set<Seq<char>>,
)
    requires
        within(t, u, d),
        0 <= i,
    ensures
        chain(level, t, i, names) matches Ok((a, j)) ==> (j < t.len() || ends(
            u,
            d + t.len(),
            level_rank(level),
        )) ==> chain(level, u, d + i, names) == Ok::<(Ast, int), Fault>((a, d + j)),
        operand(level, t, i, names) matches Ok((a, j)) ==> (j < t.len() || ends(
            u,
            d + t.len(),
            level_rank(level) - 1,
        )) ==> operand(level, u, d + i, names) == Ok::<(Ast, int), Fault>((a, d + j)),
    decreases t.len() - i, (if level == Level::Sum { 6int } else { 4int }),
{
    match level {
        Level::Sum => lemma_chain_within(Level::Product, t, i, u, d, names),
        Level::Product => lemma_unary_within(t, i, u, d, names),
    }
    lemma_chain_progress(level, t, i, names);
    if let Ok((a, j)) = operand(level, t, i, names) {
        lemma_rest_progress(level, t, j, a, names);
        lemma_rest_within(level, t, j, a, u, d, names);
    }
}

pub proof fn lemma_rest_within(
    level: Level,
    t: Seq<Symbol>,
    i: int,
    a: Ast,
    u: Seq<Symbol>,
    d: int,
    names: Set<Seq<char>>,
)
    requires
        within(t, u, d),
        0 <= i <= t.len(),
    ensures
        chain_rest(level, t, i, a, names) matches Ok((b, j)) ==> (j < t.len() || ends(
            u,
            d + t.len(),
            level_rank(level) - 1,
        )) ==> chain_rest(level, u, d + i, a, names) == chain_rest(level, u, d + j, b, names),
        chain_rest(level, t, i, a, names) matches Ok((b, j)) ==> (j < t.len() || ends(
            u,
            d + t.len(),
            level_rank(level),
        )) ==> chain_rest(level, u, d + i, a, names) == Ok::<(Ast, int), Fault>((b, d + j)),
    decreases t.len() - i, 0int,
{
    if i < t.len() {
        lemma_same_token(t, u, d, i);
        assert(operator_at(level, t, i) == operator_at(level, u, d + i));
    }
    if let Some(op) = operator_at(level, t, i) {
        lemma_chain_within(level, t, i + 1, u, d, names);
        lemma_chain_progress(level, t, i + 1, names);
        if let Ok((b, j)) = operand(level, t, i + 1, names) {
            let next = Ast::Binary(op, Box::new(a), Box::new(b));
            lemma_rest_progress(level, t, j, next, names);
            lemma_rest_within(level, t, j, next, u, d, names);
        }
    }
}

pub proof fn lemma_unary_within(
    t: Seq<Symbol>,
    i: int,
    u: Seq<Symbol>,
    d: int,
    names: Set<Seq<char>>,
)
    requires
        within(t, u, d),
        0 <= i,
    ensures
        unary(t, i, names) matches Ok((a, j)) ==> (j < t.len() || ends(u, d + t.len(), 1))
            ==> unary(u, d + i, names) == Ok::<(Ast, int), Fault>((a, d + j)),
    decreases t.len() - i, 2int,
{
    if i < t.len() {
        lemma_same_token(t, u, d, i);
        assert(op_at(t, i, '-') == op_at(u, d + i, '-'));
        assert(op_at(t, i, '+') == op_at(u, d + i, '+'));
        if op_at(t, i, '-') || op_at(t, i, '+') {
            lemma_unary_within(t, i + 1, u, d, names);
        } else {
            lemma_atom_within(t, i, u, d, names);
            lemma_atom_progress(t, i, names);
            if let Ok((a, j)) = atom(t, i, names) {
                if j < t.len() {
                    lemma_same_token(t, u, d, j);
                    assert(op_at(t, j, '^') == op_at(u, d + j, '^'));
                    if op_at(t, j, '^') {
                        lemma_unary_within(t, j + 1, u, d, names);
                        lemma_unary_progress(t, j + 1, names);
                    }
                }
                assert(power(t, i, names) matches Ok((b, k)) ==> (k < t.len() || ends(
                    u,
                    d + t.len(),
                    1,
                )) ==> power(u, d + i, names) == Ok::<(Ast, int), Fault>((b, d + k)));
            }
        }
    }
}

pub proof fn lemma_atom_within(
    t: Seq<Symbol>,
    i: int,
    u: Seq<Symbol>,
    d: int,
    names: Set<Seq<char>>,
)
    requires
        within(t, u, d),
        0 <= i,
    ensures
        atom(t, i, names) matches Ok((a, j)) ==> (j < t.len() || ends(u, d + t.len(), 0)) ==> atom(
            u,
            d + i,
            names,
        ) == Ok::<(Ast, int), Fault>((a, d + j)),
    decreases t.len() - i, 0int,
{
    if i < t.len() {
        assert(t[i] == u[d + i]);
        if i + 1 < t.len() {
            lemma_same_token(t, u, d, i + 1);
            assert(op_at(t, i + 1, '(') == op_at(u, d + i + 1, '('));
        }
        if op_at(t, i + 1, '(') {
            lemma_arguments_within(t, i + 2, Seq::empty(), u, d, names);
            lemma_arguments_progress(t, i + 2, Seq::empty(), names);
            if let Ok((_, j)) = arguments(t, i + 2, Seq::empty(), names) {
                assert(j < t.len() ==> t[j] == u[d + j]);
            }
        }
        if t[i] == Symbol::Op('(') {
            lemma_chain_within(Level::Sum, t, i + 1, u, d, names);
            lemma_chain_progress(Level::Sum, t, i + 1, names);
            if let Ok((_, j)) = chain(Level::Sum, t, i + 1, names) {
                assert(j < t.len() ==> t[j] == u[d + j]);
            }
        }
    }
}

pub proof fn lemma_arguments_within(
    t: Seq<Symbol>,
    i: int,
    args: Seq<Ast>,
    u: Seq<Symbol>,
    d: int,
    names: Set<Seq<char>>,
)
    requires
        within(t, u, d),
        0 <= i,
    ensures
        arguments(t, i, args, names) matches Ok((all, j)) ==> (j < t.len() || ends(
            u,
            d + t.len(),
            4,
        )) ==> arguments(u, d + i, args, names) == Ok::<(Seq<Ast>, int), Fault>((all, d + j)),
    decreases t.len() - i, 7int,
{
    lemma_chain_within(Level::Sum, t, i, u, d, names);
    lemma_chain_progress(Level::Sum, t, i, names);
    if let Ok((a, j)) = chain(Level::Sum, t, i, names) {
        if j < t.len() {
            lemma_same_token(t, u, d, j);
            assert(op_at(t, j, ',') == op_at(u, d + j, ','));
            if op_at(t, j, ',') {
                lemma_arguments_within(t, j + 1, args.push(a), u, d, names);
                lemma_arguments_progress(t, j + 1, args.push(a), names);
            }
        }
    }
}

/// Tokens that stand for an expression make an atom of it where parentheses stand around them.
proof fn lemma_enclosed(a: Ast, t: Seq<Symbol>, u: Seq<Symbol>, d: int, names: Set<Seq<char>>)
    requires
        parse_tokens(t, names) == Ok::<Ast, Fault>(a),
        op_at(u, d, '('),
        within(t, u, d + 1),
        op_at(u, d + 1 + t.len(), ')'),
    ensures
        atom(u, d, names) == Ok::<(Ast, int), Fault>((a, d + t.len() + 2)),
{
    lemma_chain_within(Level::Sum, t, 0, u, d + 1, names);
    lemma_parenthesis(a, u, d, d + 1 + t.len(), names);
}

/// Parentheses around a text add one token on either side, whatever follows them.
pub proof fn lemma_enclosed_tokens(s: Seq<char>, b: Seq<char>)
    requires
        tokens(s) is Ok,
        tokens(b) is Ok,
    ensures
        !blank(enclosed(s) + b),
        tokens(enclosed(s) + b) == Ok::<Seq<Symbol>, Fault>(
            seq![Symbol::Op('(')] + tokens(s)->Ok_0 + seq![Symbol::Op(')')] + tokens(b)->Ok_0,
        ),
{
    let p = enclosed(s) + b;
    let t = tokens(s)->Ok_0;
    let end = seq![')'] + b;
    assert(p[0] == '(' && !is_space(p[0]));
    assert(p.skip(1) =~= s + seq![')'] + b);
    law_tokens_part(s, ')', b);
    assert(end.skip(1) =~= b);
    assert(first_token(end) == Ok::<(Symbol, nat), Fault>((Symbol::Op(')'), 1)));
    assert(first_token(p) == Ok::<(Symbol, nat), Fault>((Symbol::Op('('), 1)));
    assert(seq![Symbol::Op('(')] + (t + (seq![Symbol::Op(')')] + tokens(b)->Ok_0))
        =~= seq![Symbol::Op('(')] + t + seq![Symbol::Op(')')] + tokens(b)->Ok_0);
}

/// An expression in parentheses is that expression.
pub proof fn law_parentheses(s: Seq<char>, names: Set<Seq<char>>)
    ensures
        parse(s, names) matches Ok(a) ==> parse(enclosed(s), names) == Ok::<Ast, Fault>(a),
{
    if let Ok(a) = parse(s, names) {
        let t = tokens(s)->Ok_0;
        let u = seq![Symbol::Op('(')] + t + seq![Symbol::Op(')')];
        lemma_enclosed_tokens(s, Seq::empty());
        assert(enclosed(s) + Seq::<char>::empty() =~= enclosed(s));
        assert(u + Seq::<Symbol>::empty() =~= u);
        lemma_enclosed(a, t, u, 0, names);
        lemma_operand(a, u, 0, u.len() as int, names);
    }
}

/// A sign before an expression in parentheses: a minus negates it, a plus changes nothing.
pub proof fn law_signed_parentheses(s: Seq<char>, names: Set<Seq<char>>)
    ensures
        parse(s, names) matches Ok(a) ==> {
            &&& parse(seq!['-'] + enclosed(s), names) == Ok::<Ast, Fault>(
                Ast::Unary(UnaryOp::Neg, Box::new(a)),
            )
            &&& parse(seq!['+'] + enclosed(s), names) == Ok::<Ast, Fault>(a)
        },
{
    if let Ok(a) = parse(s, names) {
        lemma_signed(a, '-', s, names);
        lemma_signed(a, '+', s, names);
    }
}

proof fn lemma_signed(a: Ast, c: char, s: Seq<char>, names: Set<Seq<char>>)
    requires
        c == '-' || c == '+',
        parse(s, names) == Ok::<Ast, Fault>(a),
    ensures
        parse(seq![c] + enclosed(s), names) == Ok::<Ast, Fault>(
            if c == '-' {
                Ast::Unary(UnaryOp::Neg, Box::new(a))
            } else {
                a
            },
        ),
{
    let t = tokens(s)->Ok_0;
    let u1 = seq![Symbol::Op('(')] + t + seq![Symbol::Op(')')];
    let u = seq![Symbol::Op(c)] + u1;
    let l = u.len() as int;
    let p = seq![c] + enclosed(s);
    lemma_enclosed_tokens(s, Seq::empty());
    assert(enclosed(s) + Seq::<char>::empty() =~= enclosed(s));
    assert(u1 + Seq::<Symbol>::empty() =~= u1);
    assert(p.skip(1) =~= enclosed(s));
    assert(p[0] == c && !is_space(p[0]));
    assert(first_token(p) == Ok::<(Symbol, nat), Fault>((Symbol::Op(c), 1)));
    assert(tokens(p) == Ok::<Seq<Symbol>, Fault>(u));
    lemma_enclosed(a, t, u, 1, names);
    if c == '-' {
        lemma_negated(a, u, 0, l, names);
    } else {
        lemma_operand(a, u, 1, l, names);
        assert(unary(u, 0, names) == Ok::<(Ast, int), Fault>((a, l)));
        lemma_unary_is_all(a, u, 0, l, names);
    }
}

/// A sign between two texts in parentheses, perhaps with white space around it, is one token.
proof fn lemma_operand_tokens(
    c: char,
    s1: Seq<char>,
    left: Seq<char>,
    right: Seq<char>,
    s2: Seq<char>,
)
    requires
        is_op(c),
        blank(left),
        blank(right),
        tokens(s1) is Ok,
        tokens(s2) is Ok,
    ensures
        !blank(enclosed(s1) + left + seq![c] + right + enclosed(s2)),
        tokens(enclosed(s1) + left + seq![c] + right + enclosed(s2)) == Ok::<Seq<Symbol>, Fault>(
            (seq![Symbol::Op('(')] + tokens(s1)->Ok_0 + seq![Symbol::Op(')')]) + (seq![
                Symbol::Op(c),
            ] + (seq![Symbol::Op('(')] + tokens(s2)->Ok_0 + seq![Symbol::Op(')')])),
        ),
{
    let last = right + enclosed(s2);
    let mid = seq![c] + last;
    let tail = left + mid;
    let u2 = seq![Symbol::Op('(')] + tokens(s2)->Ok_0 + seq![Symbol::Op(')')];
    lemma_enclosed_tokens(s2, Seq::empty());
    assert(enclosed(s2) + Seq::<char>::empty() =~= enclosed(s2));
    assert(u2 + Seq::<Symbol>::empty() =~= u2);
    lemma_blank_before(right, enclosed(s2));
    assert(mid.skip(1) =~= last);
    assert(first_token(mid) == Ok::<(Symbol, nat), Fault>((Symbol::Op(c), 1)));
    assert(tokens(mid) == Ok::<Seq<Symbol>, Fault>(seq![Symbol::Op(c)] + u2));
    lemma_blank_before(left, mid);
    lemma_enclosed_tokens(s1, tail);
    assert(enclosed(s1) + left + seq![c] + right + enclosed(s2) =~= enclosed(s1) + tail);
}

/// White space before a text adds no token.
pub proof fn lemma_blank_before(w: Seq<char>, s: Seq<char>)
    requires
        blank(w),
    ensures
        tokens(w + s) == tokens(s),
{
    let p = w + s;
    assert forall|i: int| 0 <= i < w.len() implies is_space(#[trigger] p[i]) by {
        assert(p[i] == w[i]);
    }
    lemma_leading_space(p, w.len() as int);
    assert(p.skip(w.len() as int) =~= s);
}

/// Two expressions in parentheses with an operator between them, and white space around it or
/// none, are its operands.
pub proof fn law_parenthesised_operands(
    op: BinaryOp,
    s1: Seq<char>,
    left: Seq<char>,
    right: Seq<char>,
    s2: Seq<char>,
    names: Set<Seq<char>>,
)
    requires
        sign_of(op) is Some,
        blank(left),
        blank(right),
    ensures
        parse(s1, names) matches Ok(a) ==> (parse(s2, names) matches Ok(b) ==> parse(
            enclosed(s1) + left + seq![sign_of(op).unwrap()] + right + enclosed(s2),
            names,
        ) == Ok::<Ast, Fault>(Ast::Binary(op, Box::new(a), Box::new(b)))),
{
    if let (Ok(a), Ok(b)) = (parse(s1, names), parse(s2, names)) {
        let c = sign_of(op).unwrap();
        let t1 = tokens(s1)->Ok_0;
        let t2 = tokens(s2)->Ok_0;
        let u1 = seq![Symbol::Op('(')] + t1 + seq![Symbol::Op(')')];
        let u2 = seq![Symbol::Op('(')] + t2 + seq![Symbol::Op(')')];
        lemma_operand_tokens(c, s1, left, right, s2);
        lemma_operands(op, a, b, t1, t2, u1 + (seq![Symbol::Op(c)] + u2), names);
    }
}

/// Tokens of two expressions, each in parentheses, with an operator between them.
proof fn lemma_operands(
    op: BinaryOp,
    a: Ast,
    b: Ast,
    t1: Seq<Symbol>,
    t2: Seq<Symbol>,
    u: Seq<Symbol>,
    names: Set<Seq<char>>,
)
    requires
        sign_of(op) is Some,
        parse_tokens(t1, names) == Ok::<Ast, Fault>(a),
        parse_tokens(t2, names) == Ok::<Ast, Fault>(b),
        u == (seq![Symbol::Op('(')] + t1 + seq![Symbol::Op(')')]) + (seq![
            Symbol::Op(sign_of(op).unwrap()),
        ] + (seq![Symbol::Op('(')] + t2 + seq![Symbol::Op(')')])),
    ensures
        parse_tokens(u, names) == Ok::<Ast, Fault>(Ast::Binary(op, Box::new(a), Box::new(b))),
{
    let j: int = t1.len() as int + 2;
    assert(u[j] == Symbol::Op(sign_of(op).unwrap()));
    lemma_enclosed(a, t1, u, 0, names);
    lemma_enclosed(b, t2, u, j + 1, names);
    lemma_joined(op, a, b, u, 0, j, u.len() as int, names);
}

} // verus!
