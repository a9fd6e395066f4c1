//! Laws of composition: what two expressions, one after the other with an operator between them,
//! stand for as a text.
use vstd::prelude::*;

use crate::error::Fault;
use crate::grammar::{
    arguments, atom, chain, chain_rest, lemma_arguments_progress, lemma_atom_progress,
    lemma_chain_progress, lemma_rest_progress, lemma_unary_progress, op_at, operand, operator_at,
    parse, parse_tokens, power, unary, Ast, Level,
};
use crate::laws::lexing::{cut, law_tokens_part};
use crate::laws::nesting::{
    enclosed, lemma_atom_within, lemma_blank_before, lemma_chain_within, lemma_enclosed_tokens,
    lemma_rest_within, lemma_unary_within,
};
use crate::laws::precedence::{
    lemma_chain_end, lemma_chain_step, lemma_power, lemma_product_is_all, lemma_unary_is_all,
};
use crate::lexer::{first_token, is_op, tokens, Symbol};
use crate::number::{BinaryOp, UnaryOp};
use crate::text::{blank, is_space};

verus! {

/// How many parentheses are open before the token at `i`.
pub open spec fn depth(t: Seq<Symbol>, i: int) -> int
    decreases i,
{
    if i <= 0 {
        0
    } else if t[i - 1] == Symbol::Op('(') {
        depth(t, i - 1) + 1
    } else if t[i - 1] == Symbol::Op(')') {
        depth(t, i - 1) - 1
    } else {
        depth(t, i - 1)
    }
}

/// Whether none of the operators `ops` is among the tokens but inside parentheses.
pub open spec fn lacks(t: Seq<Symbol>, ops: Set<char>) -> bool {
    forall|i: int|
        0 <= i < t.len() ==> (#[trigger] t[i] matches Symbol::Op(c) ==> ops.contains(c) ==> depth(
            t,
            i,
        ) != 0)
}

/// Whether `s` is a text with tokens that lack `ops`.
pub open spec fn without(s: Seq<char>, ops: Set<char>) -> bool {
    tokens(s) matches Ok(t) && lacks(t, ops)
}

/// From `i` to `j` as many parentheses are closed as opened, and none that were open before.
pub open spec fn balanced(t: Seq<Symbol>, i: int, j: int) -> bool {
    &&& depth(t, j) == depth(t, i)
    &&& forall|k: int| i <= k <= j ==> #[trigger] depth(t, k) >= depth(t, i)
}

pub proof fn lemma_chain_balanced(level: Level, t: Seq<Symbol>, i: int, names: Set<Seq<char>>)
    requires
        0 <= i,
    ensures
        chain(level, t, i, names) matches Ok((_, j)) ==> balanced(t, i, j),
        operand(level, t, i, names) matches Ok((_, j)) ==> balanced(t, i, j),
    decreases t.len() - i, (if level == Level::Sum { 6int } else { 4int }),
{
    match level {
        Level::Sum => lemma_chain_balanced(Level::Product, t, i, names),
        Level::Product => lemma_unary_balanced(t, i, names),
    }
    lemma_chain_progress(level, t, i, names);
    if let Ok((a, j)) = operand(level, t, i, names) {
        lemma_rest_balanced(level, t, j, a, names);
        lemma_rest_progress(level, t, j, a, names);
    }
}

pub proof fn lemma_rest_balanced(level: Level, t: Seq<Symbol>, i: int, a: Ast, names: Set<Seq<char>>)
    requires
        0 <= i <= t.len(),
    ensures
        chain_rest(level, t, i, a, names) matches Ok((_, j)) ==> balanced(t, i, j),
    decreases t.len() - i, 0int,
{
    if let Some(op) = operator_at(level, t, i) {
        lemma_chain_balanced(level, t, i + 1, names);
        lemma_chain_progress(level, t, i + 1, names);
        assert(depth(t, i + 1) == depth(t, i));
        if let Ok((b, j)) = operand(level, t, i + 1, names) {
            let next = Ast::Binary(op, Box::new(a), Box::new(b));
            lemma_rest_balanced(level, t, j, next, names);
            lemma_rest_progress(level, t, j, next, names);
        }
    }
}

pub proof fn lemma_unary_balanced(t: Seq<Symbol>, i: int, names: Set<Seq<char>>)
    requires
        0 <= i,
    ensures
        unary(t, i, names) matches Ok((_, j)) ==> balanced(t, i, j),
        power(t, i, names) matches Ok((_, j)) ==> balanced(t, i, j),
    decreases t.len() - i, 2int,
{
    if op_at(t, i, '-') || op_at(t, i, '+') {
        lemma_unary_balanced(t, i + 1, names);
        lemma_unary_progress(t, i + 1, names);
        assert(depth(t, i + 1) == depth(t, i));
    }
    lemma_atom_balanced(t, i, names);
    lemma_atom_progress(t, i, names);
    if let Ok((_, j)) = atom(t, i, names) {
        if op_at(t, j, '^') {
            lemma_unary_balanced(t, j + 1, names);
            lemma_unary_progress(t, j + 1, names);
            assert(depth(t, j + 1) == depth(t, j));
        }
    }
}

pub proof fn lemma_atom_balanced(t: Seq<Symbol>, i: int, names: Set<Seq<char>>)
    requires
        0 <= i,
    ensures
        atom(t, i, names) matches Ok((_, j)) ==> balanced(t, i, j),
    decreases t.len() - i, 0int,
{
    if i < t.len() {
        if let Symbol::Id(id) = t[i] {
            assert(depth(t, i + 1) == depth(t, i));
            if op_at(t, i + 1, '(') {
                assert(depth(t, i + 2) == depth(t, i) + 1);
                lemma_arguments_balanced(t, i + 2, Seq::empty(), names);
                lemma_arguments_progress(t, i + 2, Seq::empty(), names);
                if let Ok((_, j)) = arguments(t, i + 2, Seq::empty(), names) {
                    if op_at(t, j, ')') {
                        assert(depth(t, j + 1) == depth(t, i));
                    }
                }
            }
        }
        if let Symbol::Num(_) = t[i] {
            assert(depth(t, i + 1) == depth(t, i));
        }
        if t[i] == Symbol::Op('(') {
            assert(depth(t, i + 1) == depth(t, i) + 1);
            lemma_chain_balanced(Level::Sum, t, i + 1, names);
            lemma_chain_progress(Level::Sum, t, i + 1, names);
            if let Ok((_, j)) = chain(Level::Sum, t, i + 1, names) {
                if op_at(t, j, ')') {
                    assert(depth(t, j + 1) == depth(t, i));
                }
            }
        }
    }
}

pub proof fn lemma_arguments_balanced(t: Seq<Symbol>, i: int, args: Seq<Ast>, names: Set<Seq<char>>)
    requires
        0 <= i,
    ensures
        arguments(t, i, args, names) matches Ok((_, j)) ==> balanced(t, i, j),
    decreases t.len() - i, 7int,
{
    lemma_chain_balanced(Level::Sum, t, i, names);
    lemma_chain_progress(Level::Sum, t, i, names);
    if let Ok((a, j)) = chain(Level::Sum, t, i, names) {
        if op_at(t, j, ',') {
            lemma_arguments_balanced(t, j + 1, args.push(a), names);
            lemma_arguments_progress(t, j + 1, args.push(a), names);
            assert(depth(t, j + 1) == depth(t, j));
        }
    }
}

/// In an expression as many parentheses are closed as opened, and none is closed before it is
/// opened.
pub proof fn law_parentheses_match(s: Seq<char>, names: Set<Seq<char>>, i: int)
    requires
        parse(s, names) is Ok,
        0 <= i <= tokens(s)->Ok_0.len(),
    ensures
        depth(tokens(s)->Ok_0, i) >= 0,
        depth(tokens(s)->Ok_0, tokens(s)->Ok_0.len() as int) == 0,
{
    let t = tokens(s)->Ok_0;
    lemma_chain_balanced(Level::Sum, t, 0, names);
    assert(depth(t, i) >= depth(t, 0));
}

/// An expression in parentheses has no operator but inside parentheses.
pub proof fn law_parentheses_hide_operators(s: Seq<char>, ops: Set<char>, names: Set<Seq<char>>)
    requires
        parse(s, names) is Ok,
        !ops.contains('('),
        !ops.contains(')'),
    ensures
        without(enclosed(s), ops),
{
    let t = tokens(s)->Ok_0;
    let u = seq![Symbol::Op('(')] + t + seq![Symbol::Op(')')];
    lemma_enclosed_tokens(s, Seq::empty());
    assert(enclosed(s) + Seq::<char>::empty() =~= enclosed(s));
    assert(u + Seq::<Symbol>::empty() =~= u);
    lemma_chain_balanced(Level::Sum, t, 0, names);
    assert forall|i: int| 0 <= i < u.len() implies (#[trigger] u[i] matches Symbol::Op(c)
        ==> ops.contains(c) ==> depth(u, i) != 0) by {
        if 0 < i <= t.len() {
            lemma_depth_inside(t, u, i - 1);
            assert(depth(t, i - 1) >= depth(t, 0));
        }
    }
}

proof fn lemma_depth_inside(t: Seq<Symbol>, u: Seq<Symbol>, i: int)
    requires
        u == seq![Symbol::Op('(')] + t + seq![Symbol::Op(')')],
        0 <= i <= t.len(),
    ensures
        depth(u, i + 1) == depth(t, i) + 1,
    decreases i,
{
    if i == 0 {
        assert(u[0] == Symbol::Op('('));
        assert(depth(u, 0) == 0);
        assert(depth(u, 1) == 1);
    } else {
        lemma_depth_inside(t, u, i - 1);
        assert(u[i] == t[i - 1]);
    }
}

/// An expression without plus and minus is one product.
proof fn lemma_is_product(a: Ast, t: Seq<Symbol>, names: Set<Seq<char>>)
    requires
        parse_tokens(t, names) == Ok::<Ast, Fault>(a),
        lacks(t, set!['+', '-']),
    ensures
        chain(Level::Product, t, 0, names) == Ok::<(Ast, int), Fault>((a, t.len() as int)),
{
    lemma_chain_balanced(Level::Sum, t, 0, names);
    lemma_chain_progress(Level::Sum, t, 0, names);
    if let Ok((x, j)) = operand(Level::Sum, t, 0, names) {
        if j < t.len() {
            assert(depth(t, j) == 0);
            assert(operator_at(Level::Sum, t, j) is None);
            lemma_chain_end(Level::Sum, x, t, j, names);
        }
        assert(j == t.len());
        lemma_chain_end(Level::Sum, x, t, j, names);
    }
}

/// An expression without operators of sums and products is one signed power; it has no sign.
proof fn lemma_is_power(a: Ast, t: Seq<Symbol>, names: Set<Seq<char>>)
    requires
        parse_tokens(t, names) == Ok::<Ast, Fault>(a),
        lacks(t, set!['+', '-', '*', '/', '%']),
    ensures
        unary(t, 0, names) == Ok::<(Ast, int), Fault>((a, t.len() as int)),
        power(t, 0, names) == Ok::<(Ast, int), Fault>((a, t.len() as int)),
{
    assert(lacks(t, set!['+', '-']));
    lemma_is_product(a, t, names);
    lemma_chain_balanced(Level::Product, t, 0, names);
    lemma_chain_progress(Level::Product, t, 0, names);
    if let Ok((x, j)) = operand(Level::Product, t, 0, names) {
        if j < t.len() {
            assert(depth(t, j) == 0);
            assert(operator_at(Level::Product, t, j) is None);
            lemma_chain_end(Level::Product, x, t, j, names);
        }
        assert(j == t.len());
        lemma_chain_end(Level::Product, x, t, j, names);
        assert(depth(t, 0) == 0);
        assert(!op_at(t, 0, '-') && !op_at(t, 0, '+'));
    }
}

/// An expression without operators is one atom.
proof fn lemma_is_atom(a: Ast, t: Seq<Symbol>, names: Set<Seq<char>>)
    requires
        parse_tokens(t, names) == Ok::<Ast, Fault>(a),
        lacks(t, set!['+', '-', '*', '/', '%', '^']),
    ensures
        atom(t, 0, names) == Ok::<(Ast, int), Fault>((a, t.len() as int)),
{
    assert(lacks(t, set!['+', '-', '*', '/', '%']));
    lemma_is_power(a, t, names);
    lemma_atom_balanced(t, 0, names);
    lemma_atom_progress(t, 0, names);
    if let Ok((x, j)) = atom(t, 0, names) {
        if j < t.len() {
            assert(depth(t, j) == depth(t, 0));
            assert(!op_at(t, j, '^'));
        }
    }
}

/// Tokens of an expression, a sign, and tokens of a product.
proof fn lemma_sum_tokens(
    op: BinaryOp,
    c: char,
    a: Ast,
    b: Ast,
    t: Seq<Symbol>,
    u: Seq<Symbol>,
    names: Set<Seq<char>>,
)
    requires
        parse_tokens(t, names) == Ok::<Ast, Fault>(a),
        chain(Level::Product, u, 0, names) == Ok::<(Ast, int), Fault>((b, u.len() as int)),
        (op == BinaryOp::Add && c == '+') || (op == BinaryOp::Sub && c == '-'),
    ensures
        parse_tokens(t + seq![Symbol::Op(c)] + u, names) == Ok::<Ast, Fault>(
            Ast::Binary(op, Box::new(a), Box::new(b)),
        ),
{
    let all = t + seq![Symbol::Op(c)] + u;
    let n = t.len() as int;
    let l = all.len() as int;
    assert(all[n] == Symbol::Op(c));
    lemma_chain_progress(Level::Sum, t, 0, names);
    lemma_chain_progress(Level::Product, u, 0, names);
    lemma_chain_within(Level::Sum, t, 0, all, 0, names);
    lemma_chain_within(Level::Product, u, 0, all, n + 1, names);
    let (x, j) = operand(Level::Sum, t, 0, names)->Ok_0;
    lemma_rest_within(Level::Sum, t, j, x, all, 0, names);
    assert(operand(Level::Sum, all, n + 1, names) == Ok::<(Ast, int), Fault>((b, l)));
    lemma_chain_step(Level::Sum, op, a, b, all, n, l, names);
    lemma_chain_end(Level::Sum, Ast::Binary(op, Box::new(a), Box::new(b)), all, l, names);
}

/// Tokens of a product, an operator of products, and tokens of a signed power.
proof fn lemma_product_tokens(
    op: BinaryOp,
    c: char,
    a: Ast,
    b: Ast,
    t: Seq<Symbol>,
    u: Seq<Symbol>,
    names: Set<Seq<char>>,
)
    requires
        chain(Level::Product, t, 0, names) == Ok::<(Ast, int), Fault>((a, t.len() as int)),
        unary(u, 0, names) == Ok::<(Ast, int), Fault>((b, u.len() as int)),
        (op == BinaryOp::Mul && c == '*') || (op == BinaryOp::Div && c == '/') || (op
            == BinaryOp::Rem && c == '%'),
    ensures
        parse_tokens(t + seq![Symbol::Op(c)] + u, names) == Ok::<Ast, Fault>(
            Ast::Binary(op, Box::new(a), Box::new(b)),
        ),
{
    let all = t + seq![Symbol::Op(c)] + u;
    let n = t.len() as int;
    let l = all.len() as int;
    assert(all[n] == Symbol::Op(c));
    lemma_chain_progress(Level::Product, t, 0, names);
    lemma_unary_progress(u, 0, names);
    lemma_chain_within(Level::Product, t, 0, all, 0, names);
    lemma_unary_within(u, 0, all, n + 1, names);
    let (x, j) = operand(Level::Product, t, 0, names)->Ok_0;
    lemma_rest_within(Level::Product, t, j, x, all, 0, names);
    assert(operand(Level::Product, all, n + 1, names) == Ok::<(Ast, int), Fault>((b, l)));
    lemma_chain_step(Level::Product, op, a, b, all, n, l, names);
    lemma_product_is_all(
        x,
        Ast::Binary(op, Box::new(a), Box::new(b)),
        all,
        0,
        j,
        l,
        names,
    );
}

/// Tokens of an atom, the operator of powers, and tokens of a signed power.
proof fn lemma_power_tokens(a: Ast, b: Ast, t: Seq<Symbol>, u: Seq<Symbol>, names: Set<Seq<char>>)
    requires
        atom(t, 0, names) == Ok::<(Ast, int), Fault>((a, t.len() as int)),
        unary(u, 0, names) == Ok::<(Ast, int), Fault>((b, u.len() as int)),
    ensures
        parse_tokens(t + seq![Symbol::Op('^')] + u, names) == Ok::<Ast, Fault>(
            Ast::Binary(BinaryOp::Pow, Box::new(a), Box::new(b)),
        ),
{
    let all = t + seq![Symbol::Op('^')] + u;
    let n = t.len() as int;
    let l = all.len() as int;
    assert(all[n] == Symbol::Op('^'));
    lemma_atom_progress(t, 0, names);
    lemma_unary_progress(u, 0, names);
    lemma_atom_within(t, 0, all, 0, names);
    lemma_unary_within(u, 0, all, n + 1, names);
    assert(all[0] == t[0]);
    assert(!op_at(all, 0, '-') && !op_at(all, 0, '+'));
    lemma_power(a, b, all, 0, n, l, names);
    lemma_unary_is_all(
        Ast::Binary(BinaryOp::Pow, Box::new(a), Box::new(b)),
        all,
        0,
        l,
        names,
    );
}

/// The tokens of two texts with an operator between them, and perhaps white space around it.
proof fn lemma_glued(s: Seq<char>, left: Seq<char>, c: char, right: Seq<char>, w: Seq<char>)
    requires
        is_op(c),
        blank(left),
        blank(right),
        left.len() > 0 || cut(s, c),
        tokens(s) is Ok,
        tokens(w) is Ok,
    ensures
        tokens(s + left + seq![c] + right + w) == Ok::<Seq<Symbol>, Fault>(
            tokens(s)->Ok_0 + seq![Symbol::Op(c)] + tokens(w)->Ok_0,
        ),
{
    let t = tokens(s)->Ok_0;
    let u = tokens(w)->Ok_0;
    let last = right + w;
    let mid = seq![c] + last;
    let tail = left + mid;
    lemma_blank_before(right, w);
    assert(mid.skip(1) =~= last);
    assert(first_token(mid) == Ok::<(Symbol, nat), Fault>((Symbol::Op(c), 1)));
    assert(tokens(mid) == Ok::<Seq<Symbol>, Fault>(seq![Symbol::Op(c)] + u));
    lemma_blank_before(left, mid);
    let d = tail[0];
    assert(cut(s, d)) by {
        if left.len() > 0 {
            assert(d == left[0]);
        }
    }
    law_tokens_part(s, d, tail.skip(1));
    assert(tail =~= seq![d] + tail.skip(1));
    assert(s + left + seq![c] + right + w =~= s + seq![d] + tail.skip(1));
    assert(t + (seq![Symbol::Op(c)] + u) =~= t + seq![Symbol::Op(c)] + u);
}

/// A text with an operator in it is not blank.
proof fn lemma_not_blank(a: Seq<char>, c: char, b: Seq<char>)
    requires
        is_op(c),
    ensures
        !blank(a + seq![c] + b),
{
    let s = a + seq![c] + b;
    assert(s[a.len() as int] == c);
}

/// A plus or a minus between an expression and a product takes the whole of either for its
/// operands: it binds less tightly than anything before it, and than the operators of products
/// after it.
pub proof fn law_sums(
    s: Seq<char>,
    left: Seq<char>,
    right: Seq<char>,
    w: Seq<char>,
    names: Set<Seq<char>>,
)
    requires
        parse(s, names) is Ok,
        parse(w, names) is Ok,
        without(w, set!['+', '-']),
        blank(left),
        blank(right),
        left.len() > 0 || (s.last() != 'e' && s.last() != 'E'),
    ensures
        parse(s + left + seq!['+'] + right + w, names) == Ok::<Ast, Fault>(
            Ast::Binary(
                BinaryOp::Add,
                Box::new(parse(s, names)->Ok_0),
                Box::new(parse(w, names)->Ok_0),
            ),
        ),
        parse(s + left + seq!['-'] + right + w, names) == Ok::<Ast, Fault>(
            Ast::Binary(
                BinaryOp::Sub,
                Box::new(parse(s, names)->Ok_0),
                Box::new(parse(w, names)->Ok_0),
            ),
        ),
{
    let (a, b) = (parse(s, names)->Ok_0, parse(w, names)->Ok_0);
    let (t, u) = (tokens(s)->Ok_0, tokens(w)->Ok_0);
    lemma_is_product(b, u, names);
    lemma_glued(s, left, '+', right, w);
    lemma_glued(s, left, '-', right, w);
    assert(s + left + seq!['+'] + right + w =~= (s + left) + seq!['+'] + (right + w));
    assert(s + left + seq!['-'] + right + w =~= (s + left) + seq!['-'] + (right + w));
    lemma_not_blank(s + left, '+', right + w);
    lemma_not_blank(s + left, '-', right + w);
    lemma_sum_tokens(BinaryOp::Add, '+', a, b, t, u, names);
    lemma_sum_tokens(BinaryOp::Sub, '-', a, b, t, u, names);
}

/// An operator of products between a product and a power takes the whole of either for its
/// operands: operators that bind as tightly group from the left, and `^` binds tighter.
pub proof fn law_products(
    op: BinaryOp,
    c: char,
    s: Seq<char>,
    left: Seq<char>,
    right: Seq<char>,
    w: Seq<char>,
    names: Set<Seq<char>>,
)
    requires
        (op == BinaryOp::Mul && c == '*') || (op == BinaryOp::Div && c == '/') || (op
            == BinaryOp::Rem && c == '%'),
        parse(s, names) is Ok,
        parse(w, names) is Ok,
        without(s, set!['+', '-']),
        without(w, set!['+', '-', '*', '/', '%']),
        blank(left),
        blank(right),
    ensures
        parse(s + left + seq![c] + right + w, names) == Ok::<Ast, Fault>(
            Ast::Binary(op, Box::new(parse(s, names)->Ok_0), Box::new(parse(w, names)->Ok_0)),
        ),
{
    let (a, b) = (parse(s, names)->Ok_0, parse(w, names)->Ok_0);
    let (t, u) = (tokens(s)->Ok_0, tokens(w)->Ok_0);
    lemma_is_product(a, t, names);
    lemma_is_power(b, u, names);
    lemma_glued(s, left, c, right, w);
    assert(s + left + seq![c] + right + w =~= (s + left) + seq![c] + (right + w));
    lemma_not_blank(s + left, c, right + w);
    lemma_product_tokens(op, c, a, b, t, u, names);
}

/// The operator `^` between an expression without operators and a power takes the whole of either
/// for its operands: powers group from the right.
pub proof fn law_powers(
    s: Seq<char>,
    left: Seq<char>,
    right: Seq<char>,
    w: Seq<char>,
    names: Set<Seq<char>>,
)
    requires
        parse(s, names) is Ok,
        parse(w, names) is Ok,
        without(s, set!['+', '-', '*', '/', '%', '^']),
        without(w, set!['+', '-', '*', '/', '%']),
        blank(left),
        blank(right),
    ensures
        parse(s + left + seq!['^'] + right + w, names) == Ok::<Ast, Fault>(
            Ast::Binary(
                BinaryOp::Pow,
                Box::new(parse(s, names)->Ok_0),
                Box::new(parse(w, names)->Ok_0),
            ),
        ),
{
    let (a, b) = (parse(s, names)->Ok_0, parse(w, names)->Ok_0);
    let (t, u) = (tokens(s)->Ok_0, tokens(w)->Ok_0);
    lemma_is_atom(a, t, names);
    lemma_is_power(b, u, names);
    lemma_glued(s, left, '^', right, w);
    assert(s + left + seq!['^'] + right + w =~= (s + left) + seq!['^'] + (right + w));
    lemma_not_blank(s + left, '^', right + w);
    lemma_power_tokens(a, b, t, u, names);
}

/// A minus before a power negates the whole of it; a plus changes nothing. A signed power may stand
/// alone, or after an operator of products or `^`, which takes it for its second operand.
pub proof fn law_signs(
    op: BinaryOp,
    c: char,
    s: Seq<char>,
    left: Seq<char>,
    right: Seq<char>,
    gap: Seq<char>,
    w: Seq<char>,
    names: Set<Seq<char>>,
)
    requires
        parse(w, names) is Ok,
        without(w, set!['+', '-', '*', '/', '%']),
        blank(gap),
    ensures
        parse(seq!['-'] + gap + w, names) == Ok::<Ast, Fault>(
            Ast::Unary(UnaryOp::Neg, Box::new(parse(w, names)->Ok_0)),
        ),
        parse(seq!['+'] + gap + w, names) == parse(w, names),
        parse(s, names) is Ok && blank(left) && blank(right) && without(s, set!['+', '-']) && ((op
            == BinaryOp::Mul && c == '*') || (op == BinaryOp::Div && c == '/') || (op
            == BinaryOp::Rem && c == '%')) ==> parse(
            s + left + seq![c] + right + (seq!['-'] + gap + w),
            names,
        ) == Ok::<Ast, Fault>(
            Ast::Binary(
                op,
                Box::new(parse(s, names)->Ok_0),
                Box::new(Ast::Unary(UnaryOp::Neg, Box::new(parse(w, names)->Ok_0))),
            ),
        ),
        parse(s, names) is Ok && blank(left) && blank(right) && without(
            s,
            set!['+', '-', '*', '/', '%', '^'],
        ) ==> parse(s + left + seq!['^'] + right + (seq!['-'] + gap + w), names) == Ok::<
            Ast,
            Fault,
        >(
            Ast::Binary(
                BinaryOp::Pow,
                Box::new(parse(s, names)->Ok_0),
                Box::new(Ast::Unary(UnaryOp::Neg, Box::new(parse(w, names)->Ok_0))),
            ),
        ),
{
    let b = parse(w, names)->Ok_0;
    let u = tokens(w)->Ok_0;
    let neg = Ast::Unary(UnaryOp::Neg, Box::new(b));
    lemma_is_power(b, u, names);
    lemma_signed_tokens('-', gap, b, w, names);
    lemma_signed_tokens('+', gap, b, w, names);
    let minus = seq!['-'] + gap + w;
    if parse(s, names) is Ok && blank(left) && blank(right) {
        let a = parse(s, names)->Ok_0;
        let t = tokens(s)->Ok_0;
        let v = tokens(minus)->Ok_0;
        if without(s, set!['+', '-']) && ((op == BinaryOp::Mul && c == '*') || (op == BinaryOp::Div
            && c == '/') || (op == BinaryOp::Rem && c == '%')) {
            lemma_is_product(a, t, names);
            lemma_glued(s, left, c, right, minus);
            assert(s + left + seq![c] + right + minus =~= (s + left) + seq![c] + (right + minus));
            lemma_not_blank(s + left, c, right + minus);
            lemma_product_tokens(op, c, a, neg, t, v, names);
        }
        if without(s, set!['+', '-', '*', '/', '%', '^']) {
            lemma_is_atom(a, t, names);
            lemma_glued(s, left, '^', right, minus);
            assert(s + left + seq!['^'] + right + minus =~= (s + left) + seq!['^'] + (right
                + minus));
            lemma_not_blank(s + left, '^', right + minus);
            lemma_power_tokens(a, neg, t, v, names);
        }
    }
}

proof fn lemma_signed_tokens(
    c: char,
    gap: Seq<char>,
    b: Ast,
    w: Seq<char>,
    names: Set<Seq<char>>,
)
    requires
        c == '-' || c == '+',
        blank(gap),
        tokens(w) is Ok,
        unary(tokens(w)->Ok_0, 0, names) == Ok::<(Ast, int), Fault>(
            (b, tokens(w)->Ok_0.len() as int),
        ),
    ensures
        ({
            let signed = if c == '-' {
                Ast::Unary(UnaryOp::Neg, Box::new(b))
            } else {
                b
            };
            let s = seq![c] + gap + w;
            &&& tokens(s) == Ok::<Seq<Symbol>, Fault>(seq![Symbol::Op(c)] + tokens(w)->Ok_0)
            &&& unary(tokens(s)->Ok_0, 0, names) == Ok::<(Ast, int), Fault>(
                (signed, tokens(s)->Ok_0.len() as int),
            )
            &&& parse(s, names) == Ok::<Ast, Fault>(signed)
        }),
{
    let u = tokens(w)->Ok_0;
    let s = seq![c] + gap + w;
    let v = seq![Symbol::Op(c)] + u;
    let signed = if c == '-' {
        Ast::Unary(UnaryOp::Neg, Box::new(b))
    } else {
        b
    };
    assert(s[0] == c && !is_space(s[0]));
    assert(s.skip(1) =~= gap + w);
    lemma_blank_before(gap, w);
    assert(first_token(s) == Ok::<(Symbol, nat), Fault>((Symbol::Op(c), 1)));
    lemma_unary_progress(u, 0, names);
    lemma_unary_within(u, 0, v, 1, names);
    assert(unary(v, 1, names) == Ok::<(Ast, int), Fault>((b, v.len() as int)));
    assert(unary(v, 0, names) == Ok::<(Ast, int), Fault>((signed, v.len() as int)));
    lemma_unary_is_all(signed, v, 0, v.len() as int, names);
}

} // verus!
