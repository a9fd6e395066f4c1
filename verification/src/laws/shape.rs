//! Laws of shape: which tokens an expression can be made of, and that none of them is lost.
use vstd::prelude::*;

use crate::grammar::{
    arguments, atom, chain, chain_rest, lemma_arguments_progress, lemma_atom_progress,
    lemma_chain_progress, lemma_rest_progress, lemma_unary_progress, op_at, operand, operator_at,
    parse, power, unary, Ast, Level,
};
use crate::laws::composition::{
    depth, lemma_arguments_balanced, lemma_atom_balanced, lemma_chain_balanced,
};
use crate::lexer::{tokens, Symbol};
use crate::number::BinaryOp;

verus! {

/// A token that an operand can end with: a numeral, a name or a closing parenthesis.
pub open spec fn closes(x: Symbol) -> bool {
    x is Num || x is Id || x == Symbol::Op(')')
}

/// A token that an operand can start with: a numeral, a name, an opening parenthesis or a sign.
pub open spec fn begins(x: Symbol) -> bool {
    x is Num || x is Id || x == Symbol::Op('(') || x == Symbol::Op('-') || x == Symbol::Op('+')
}

/// Whether `y` can stand after `x`: an operator, a comma or a closing parenthesis after the end of
/// an operand, or an opening parenthesis after a name; after anything else, the start of an
/// operand.
pub open spec fn follows(x: Symbol, y: Symbol) -> bool {
    if closes(x) {
        y is Op && (y == Symbol::Op('(') ==> x is Id)
    } else {
        begins(y)
    }
}

/// The tokens from `i` to `j` start and end as an operand does, and each can stand where it stands.
spec fn shaped(t: Seq<Symbol>, i: int, j: int) -> bool {
    &&& 0 <= i < j <= t.len()
    &&& begins(t[i])
    &&& closes(t[j - 1])
    &&& forall|k: int| #![trigger t[k]] i <= k && k + 1 < j ==> follows(t[k], t[k + 1])
}

/// The tokens from `i` to `j` go on with an operand that ends before `i`.
spec fn goes_on(t: Seq<Symbol>, i: int, j: int) -> bool {
    &&& 0 < i <= j <= t.len()
    &&& closes(t[j - 1])
    &&& forall|k: int| #![trigger t[k]] i - 1 <= k && k + 1 < j ==> follows(t[k], t[k + 1])
}

proof fn lemma_chain_shaped(level: Level, t: Seq<Symbol>, i: int, names: Set<Seq<char>>)
    requires
        0 <= i,
    ensures
        chain(level, t, i, names) matches Ok((_, j)) ==> shaped(t, i, j),
        operand(level, t, i, names) matches Ok((_, j)) ==> shaped(t, i, j),
    decreases t.len() - i, (if level == Level::Sum { 6int } else { 4int }),
{
    match level {
        Level::Sum => lemma_chain_shaped(Level::Product, t, i, names),
        Level::Product => lemma_unary_shaped(t, i, names),
    }
    lemma_chain_progress(level, t, i, names);
    if let Ok((a, j)) = operand(level, t, i, names) {
        lemma_rest_shaped(level, t, j, a, names);
    }
}

proof fn lemma_rest_shaped(level: Level, t: Seq<Symbol>, i: int, a: Ast, names: Set<Seq<char>>)
    requires
        0 < i <= t.len(),
        closes(t[i - 1]),
    ensures
        chain_rest(level, t, i, a, names) matches Ok((_, j)) ==> goes_on(t, i, j),
    decreases t.len() - i, 0int,
{
    if let Some(op) = operator_at(level, t, i) {
        lemma_chain_shaped(level, t, i + 1, names);
        lemma_chain_progress(level, t, i + 1, names);
        if let Ok((b, j)) = operand(level, t, i + 1, names) {
            lemma_rest_shaped(level, t, j, Ast::Binary(op, Box::new(a), Box::new(b)), names);
        }
    }
}

proof fn lemma_unary_shaped(t: Seq<Symbol>, i: int, names: Set<Seq<char>>)
    requires
        0 <= i,
    ensures
        unary(t, i, names) matches Ok((_, j)) ==> shaped(t, i, j),
        power(t, i, names) matches Ok((_, j)) ==> shaped(t, i, j),
    decreases t.len() - i, 2int,
{
    if op_at(t, i, '-') || op_at(t, i, '+') {
        lemma_unary_shaped(t, i + 1, names);
    }
    lemma_atom_shaped(t, i, names);
    lemma_atom_progress(t, i, names);
    if let Ok((_, j)) = atom(t, i, names) {
        if op_at(t, j, '^') {
            lemma_unary_shaped(t, j + 1, names);
        }
    }
}

proof fn lemma_atom_shaped(t: Seq<Symbol>, i: int, names: Set<Seq<char>>)
    requires
        0 <= i,
    ensures
        atom(t, i, names) matches Ok((_, j)) ==> shaped(t, i, j),
    decreases t.len() - i, 0int,
{
    if i < t.len() {
        if op_at(t, i + 1, '(') {
            lemma_arguments_shaped(t, i + 2, Seq::empty(), names);
        }
        if t[i] == Symbol::Op('(') {
            lemma_chain_shaped(Level::Sum, t, i + 1, names);
        }
    }
}

proof fn lemma_arguments_shaped(t: Seq<Symbol>, i: int, args: Seq<Ast>, names: Set<Seq<char>>)
    requires
        0 <= i,
    ensures
        arguments(t, i, args, names) matches Ok((_, j)) ==> shaped(t, i, j),
    decreases t.len() - i, 7int,
{
    lemma_chain_shaped(Level::Sum, t, i, names);
    lemma_chain_progress(Level::Sum, t, i, names);
    if let Ok((a, j)) = chain(Level::Sum, t, i, names) {
        if op_at(t, j, ',') {
            lemma_arguments_shaped(t, j + 1, args.push(a), names);
        }
    }
}

/// An expression starts and ends with an operand, and between any two operands stands an operator
/// or a comma: no operand is missing, and no operator.
pub proof fn law_expressions_are_shaped(s: Seq<char>, names: Set<Seq<char>>, k: int)
    requires
        parse(s, names) is Ok,
    ensures
        tokens(s) matches Ok(t) && t.len() > 0 && begins(t[0]) && closes(t.last()) && (0 <= k && k
            + 1 < t.len() ==> follows(t[k], t[k + 1])),
{
    let t = tokens(s)->Ok_0;
    lemma_chain_shaped(Level::Sum, t, 0, names);
    if 0 <= k && k + 1 < t.len() {
        assert(follows(t[k], t[k + 1]));
    }
}

/// The numerals and operators among the tokens from `i` to `j`, in order, but for the plus.
pub open spec fn kept(t: Seq<Symbol>, i: int, j: int) -> Seq<Symbol>
    decreases j - i,
{
    if i >= j {
        Seq::empty()
    } else {
        kept(t, i, j - 1) + counted(t[j - 1])
    }
}

/// A numeral or an operator but for the plus, alone; nothing for any other token.
pub open spec fn counted(x: Symbol) -> Seq<Symbol> {
    if x is Num || x == Symbol::Op('-') || x == Symbol::Op('*') || x == Symbol::Op('/') || x
        == Symbol::Op('%') || x == Symbol::Op('^') {
        seq![x]
    } else {
        Seq::empty()
    }
}

/// The numerals and operators of an expression, from left to right, but for the plus.
pub open spec fn spelled(a: Ast) -> Seq<Symbol>
    decreases a,
{
    match a {
        Ast::Num(m) => seq![Symbol::Num(m)],
        Ast::Var(_) | Ast::Const(_) => Seq::empty(),
        Ast::Unary(_, x) => seq![Symbol::Op('-')] + spelled(*x),
        Ast::Binary(op, x, y) => spelled(*x) + (match op {
            BinaryOp::Sub => seq![Symbol::Op('-')],
            BinaryOp::Mul => seq![Symbol::Op('*')],
            BinaryOp::Div => seq![Symbol::Op('/')],
            BinaryOp::Rem => seq![Symbol::Op('%')],
            BinaryOp::Pow => seq![Symbol::Op('^')],
            _ => Seq::empty(),
        }) + spelled(*y),
        Ast::Call(_, args) => spelled_all(args),
    }
}

/// The numerals and operators of expressions, from left to right, but for the plus.
pub open spec fn spelled_all(args: Seq<Ast>) -> Seq<Symbol>
    decreases args,
{
    if args.len() == 0 {
        Seq::empty()
    } else {
        spelled_all(args.subrange(0, args.len() - 1)) + spelled(args[args.len() - 1])
    }
}

proof fn lemma_kept_splits(t: Seq<Symbol>, i: int, j: int, k: int)
    requires
        i <= j <= k,
    ensures
        kept(t, i, k) == kept(t, i, j) + kept(t, j, k),
    decreases k - j,
{
    if j < k {
        lemma_kept_splits(t, i, j, k - 1);
        assert(kept(t, i, j) + (kept(t, j, k - 1) + counted(t[k - 1])) =~= (kept(t, i, j) + kept(
            t,
            j,
            k - 1,
        )) + counted(t[k - 1]));
    } else {
        assert(kept(t, i, j) + Seq::<Symbol>::empty() =~= kept(t, i, j));
    }
}

proof fn lemma_kept_one(t: Seq<Symbol>, i: int)
    ensures
        kept(t, i, i + 1) == counted(t[i]),
{
    assert(kept(t, i, i) == Seq::<Symbol>::empty());
    assert(kept(t, i, i + 1) == kept(t, i, i) + counted(t[i]));
    assert(Seq::<Symbol>::empty() + counted(t[i]) =~= counted(t[i]));
}

proof fn lemma_spelled_push(args: Seq<Ast>, a: Ast)
    ensures
        spelled_all(args.push(a)) == spelled_all(args) + spelled(a),
{
    let all = args.push(a);
    assert(all.subrange(0, all.len() - 1) =~= args);
}

proof fn lemma_chain_kept(level: Level, t: Seq<Symbol>, i: int, names: Set<Seq<char>>)
    requires
        0 <= i,
    ensures
        chain(level, t, i, names) matches Ok((a, j)) ==> kept(t, i, j) == spelled(a),
        operand(level, t, i, names) matches Ok((a, j)) ==> kept(t, i, j) == spelled(a),
    decreases t.len() - i, (if level == Level::Sum { 6int } else { 4int }),
{
    match level {
        Level::Sum => lemma_chain_kept(Level::Product, t, i, names),
        Level::Product => lemma_unary_kept(t, i, names),
    }
    lemma_chain_progress(level, t, i, names);
    if let Ok((a, j)) = operand(level, t, i, names) {
        lemma_rest_kept(level, t, j, a, names);
        lemma_rest_progress(level, t, j, a, names);
        if let Ok((_, k)) = chain_rest(level, t, j, a, names) {
            lemma_kept_splits(t, i, j, k);
        }
    }
}

proof fn lemma_rest_kept(level: Level, t: Seq<Symbol>, i: int, a: Ast, names: Set<Seq<char>>)
    requires
        0 <= i <= t.len(),
    ensures
        chain_rest(level, t, i, a, names) matches Ok((b, j)) ==> spelled(b) == spelled(a) + kept(
            t,
            i,
            j,
        ),
    decreases t.len() - i, 0int,
{
    if let Some(op) = operator_at(level, t, i) {
        lemma_chain_kept(level, t, i + 1, names);
        lemma_chain_progress(level, t, i + 1, names);
        if let Ok((b, j)) = operand(level, t, i + 1, names) {
            let next = Ast::Binary(op, Box::new(a), Box::new(b));
            lemma_rest_kept(level, t, j, next, names);
            lemma_rest_progress(level, t, j, next, names);
            if let Ok((c, k)) = chain_rest(level, t, j, next, names) {
                lemma_kept_one(t, i);
                lemma_kept_splits(t, i, i + 1, j);
                lemma_kept_splits(t, i, j, k);
                assert(spelled(next) == spelled(a) + counted(t[i]) + spelled(b));
                assert(spelled(a) + counted(t[i]) + spelled(b) + kept(t, j, k) =~= spelled(a)
                    + ((counted(t[i]) + spelled(b)) + kept(t, j, k)));
            }
        }
    } else {
        assert(spelled(a) + kept(t, i, i) =~= spelled(a));
    }
}

proof fn lemma_unary_kept(t: Seq<Symbol>, i: int, names: Set<Seq<char>>)
    requires
        0 <= i,
    ensures
        unary(t, i, names) matches Ok((a, j)) ==> kept(t, i, j) == spelled(a),
        power(t, i, names) matches Ok((a, j)) ==> kept(t, i, j) == spelled(a),
    decreases t.len() - i, 2int,
{
    if op_at(t, i, '-') || op_at(t, i, '+') {
        lemma_unary_kept(t, i + 1, names);
        lemma_unary_progress(t, i + 1, names);
        if let Ok((a, j)) = unary(t, i + 1, names) {
            lemma_kept_one(t, i);
            lemma_kept_splits(t, i, i + 1, j);
            assert(Seq::<Symbol>::empty() + spelled(a) =~= spelled(a));
        }
    }
    lemma_atom_kept(t, i, names);
    lemma_atom_progress(t, i, names);
    if let Ok((a, j)) = atom(t, i, names) {
        if op_at(t, j, '^') {
            lemma_unary_kept(t, j + 1, names);
            lemma_unary_progress(t, j + 1, names);
            if let Ok((b, k)) = unary(t, j + 1, names) {
                lemma_kept_one(t, j);
                lemma_kept_splits(t, i, j, k);
                lemma_kept_splits(t, j, j + 1, k);
                assert(spelled(a) + (counted(t[j]) + spelled(b)) =~= spelled(a) + counted(t[j])
                    + spelled(b));
            }
        }
    }
}

proof fn lemma_atom_kept(t: Seq<Symbol>, i: int, names: Set<Seq<char>>)
    requires
        0 <= i,
    ensures
        atom(t, i, names) matches Ok((a, j)) ==> kept(t, i, j) == spelled(a),
    decreases t.len() - i, 0int,
{
    if i < t.len() {
        lemma_kept_one(t, i);
        if t[i] is Id && op_at(t, i + 1, '(') {
            lemma_arguments_kept(t, i + 2, Seq::empty(), names);
            lemma_arguments_progress(t, i + 2, Seq::empty(), names);
            if let Ok((args, j)) = arguments(t, i + 2, Seq::empty(), names) {
                if op_at(t, j, ')') {
                    lemma_kept_one(t, i + 1);
                    lemma_kept_one(t, j);
                    lemma_kept_splits(t, i, i + 1, j + 1);
                    lemma_kept_splits(t, i + 1, i + 2, j + 1);
                    lemma_kept_splits(t, i + 2, j, j + 1);
                    assert(kept(t, i, j + 1) =~= spelled_all(args));
                }
            }
        }
        if t[i] == Symbol::Op('(') {
            lemma_chain_kept(Level::Sum, t, i + 1, names);
            lemma_chain_progress(Level::Sum, t, i + 1, names);
            if let Ok((a, j)) = chain(Level::Sum, t, i + 1, names) {
                if op_at(t, j, ')') {
                    lemma_kept_one(t, j);
                    lemma_kept_splits(t, i, i + 1, j + 1);
                    lemma_kept_splits(t, i + 1, j, j + 1);
                    assert(kept(t, i, j + 1) =~= spelled(a));
                }
            }
        }
    }
}

proof fn lemma_arguments_kept(t: Seq<Symbol>, i: int, args: Seq<Ast>, names: Set<Seq<char>>)
    requires
        0 <= i,
    ensures
        arguments(t, i, args, names) matches Ok((all, j)) ==> spelled_all(all) == spelled_all(args)
            + kept(t, i, j),
    decreases t.len() - i, 7int,
{
    lemma_chain_kept(Level::Sum, t, i, names);
    lemma_chain_progress(Level::Sum, t, i, names);
    if let Ok((a, j)) = chain(Level::Sum, t, i, names) {
        lemma_spelled_push(args, a);
        if op_at(t, j, ',') {
            lemma_arguments_kept(t, j + 1, args.push(a), names);
            lemma_arguments_progress(t, j + 1, args.push(a), names);
            if let Ok((_, k)) = arguments(t, j + 1, args.push(a), names) {
                lemma_kept_one(t, j);
                lemma_kept_splits(t, i, j, k);
                lemma_kept_splits(t, j, j + 1, k);
                assert(spelled_all(args) + spelled(a) + kept(t, j + 1, k) =~= spelled_all(args)
                    + (spelled(a) + (Seq::<Symbol>::empty() + kept(t, j + 1, k))));
            }
        }
    }
}

/// No numeral and no operator of a text is lost or added: those of the expression that it stands
/// for are those of its tokens, from left to right. Only the plus, which may be a sign that does
/// nothing, is left out of the count.
pub proof fn law_nothing_is_left_out(s: Seq<char>, names: Set<Seq<char>>)
    ensures
        parse(s, names) matches Ok(a) ==> (tokens(s) matches Ok(t) && spelled(a) == kept(
            t,
            0,
            t.len() as int,
        )),
{
    if parse(s, names) is Ok {
        lemma_chain_kept(Level::Sum, tokens(s)->Ok_0, 0, names);
    }
}

/// The token at `k` stands directly in the parentheses of a call, which open at `o`.
pub open spec fn in_call(t: Seq<Symbol>, o: int, k: int) -> bool {
    &&& 0 < o < k < t.len()
    &&& t[o] == Symbol::Op('(')
    &&& t[o - 1] is Id
    &&& depth(t, k) == depth(t, o) + 1
    &&& forall|m: int| o < m <= k ==> #[trigger] depth(t, m) > depth(t, o)
}

/// Every comma from `i` to `j` stands in a call, or, where `top`, at the depth of `i`.
spec fn commas(t: Seq<Symbol>, i: int, j: int, top: bool) -> bool {
    forall|k: int|
        i <= k < j && #[trigger] t[k] == Symbol::Op(',') ==> (top && depth(t, k) == depth(t, i))
            || exists|o: int| i < o && #[trigger] in_call(t, o, k)
}

proof fn lemma_commas_join(t: Seq<Symbol>, i: int, j: int, k: int, top: bool)
    requires
        i <= j <= k,
        commas(t, i, j, top),
        commas(t, j, k, top),
        depth(t, j) == depth(t, i),
    ensures
        commas(t, i, k, top),
{
    assert forall|m: int| i <= m < k && #[trigger] t[m] == Symbol::Op(',') implies (top && depth(
        t,
        m,
    ) == depth(t, i)) || exists|o: int| i < o && #[trigger] in_call(t, o, m) by {
        if m >= j && !(top && depth(t, m) == depth(t, i)) {
            let o = choose|o: int| j < o && #[trigger] in_call(t, o, m);
            assert(i < o && in_call(t, o, m));
        }
    }
}

proof fn lemma_commas_one(t: Seq<Symbol>, i: int, top: bool)
    requires
        t[i] != Symbol::Op(',') || top,
    ensures
        commas(t, i, i + 1, top),
{
}

proof fn lemma_chain_commas(level: Level, t: Seq<Symbol>, i: int, names: Set<Seq<char>>)
    requires
        0 <= i,
    ensures
        chain(level, t, i, names) matches Ok((_, j)) ==> commas(t, i, j, false),
        operand(level, t, i, names) matches Ok((_, j)) ==> commas(t, i, j, false),
    decreases t.len() - i, (if level == Level::Sum { 6int } else { 4int }),
{
    match level {
        Level::Sum => lemma_chain_commas(Level::Product, t, i, names),
        Level::Product => lemma_unary_commas(t, i, names),
    }
    lemma_chain_progress(level, t, i, names);
    lemma_chain_balanced(level, t, i, names);
    if let Ok((a, j)) = operand(level, t, i, names) {
        lemma_rest_commas(level, t, j, a, names);
        lemma_rest_progress(level, t, j, a, names);
        if let Ok((_, k)) = chain_rest(level, t, j, a, names) {
            lemma_commas_join(t, i, j, k, false);
        }
    }
}

proof fn lemma_rest_commas(level: Level, t: Seq<Symbol>, i: int, a: Ast, names: Set<Seq<char>>)
    requires
        0 <= i <= t.len(),
    ensures
        chain_rest(level, t, i, a, names) matches Ok((_, j)) ==> commas(t, i, j, false),
    decreases t.len() - i, 0int,
{
    if let Some(op) = operator_at(level, t, i) {
        lemma_chain_commas(level, t, i + 1, names);
        lemma_chain_progress(level, t, i + 1, names);
        lemma_chain_balanced(level, t, i + 1, names);
        if let Ok((b, j)) = operand(level, t, i + 1, names) {
            let next = Ast::Binary(op, Box::new(a), Box::new(b));
            lemma_rest_commas(level, t, j, next, names);
            lemma_rest_progress(level, t, j, next, names);
            if let Ok((_, k)) = chain_rest(level, t, j, next, names) {
                assert(depth(t, i + 1) == depth(t, i));
                lemma_commas_one(t, i, false);
                lemma_commas_join(t, i, i + 1, j, false);
                lemma_commas_join(t, i, j, k, false);
            }
        }
    }
}

proof fn lemma_unary_commas(t: Seq<Symbol>, i: int, names: Set<Seq<char>>)
    requires
        0 <= i,
    ensures
        unary(t, i, names) matches Ok((_, j)) ==> commas(t, i, j, false),
        power(t, i, names) matches Ok((_, j)) ==> commas(t, i, j, false),
    decreases t.len() - i, 2int,
{
    if op_at(t, i, '-') || op_at(t, i, '+') {
        lemma_unary_commas(t, i + 1, names);
        lemma_unary_progress(t, i + 1, names);
        if let Ok((_, j)) = unary(t, i + 1, names) {
            assert(depth(t, i + 1) == depth(t, i));
            lemma_commas_one(t, i, false);
            lemma_commas_join(t, i, i + 1, j, false);
        }
    }
    lemma_atom_commas(t, i, names);
    lemma_atom_progress(t, i, names);
    lemma_atom_balanced(t, i, names);
    if let Ok((_, j)) = atom(t, i, names) {
        if op_at(t, j, '^') {
            lemma_unary_commas(t, j + 1, names);
            lemma_unary_progress(t, j + 1, names);
            if let Ok((_, k)) = unary(t, j + 1, names) {
                assert(depth(t, j + 1) == depth(t, j));
                lemma_commas_one(t, j, false);
                lemma_commas_join(t, j, j + 1, k, false);
                lemma_commas_join(t, i, j, k, false);
            }
        }
    }
}

proof fn lemma_atom_commas(t: Seq<Symbol>, i: int, names: Set<Seq<char>>)
    requires
        0 <= i,
    ensures
        atom(t, i, names) matches Ok((_, j)) ==> commas(t, i, j, false),
    decreases t.len() - i, 0int,
{
    if i < t.len() {
        if t[i] is Id && op_at(t, i + 1, '(') {
            lemma_arguments_commas(t, i + 2, Seq::empty(), names);
            lemma_arguments_progress(t, i + 2, Seq::empty(), names);
            lemma_arguments_balanced(t, i + 2, Seq::empty(), names);
            assert(depth(t, i + 1) == depth(t, i));
            assert(depth(t, i + 2) == depth(t, i + 1) + 1);
            if let Ok((_, j)) = arguments(t, i + 2, Seq::empty(), names) {
                if op_at(t, j, ')') {
                    assert forall|k: int|
                        i <= k < j + 1 && #[trigger] t[k] == Symbol::Op(',') implies exists|o: int|
                        i < o && #[trigger] in_call(t, o, k) by {
                        assert(i + 2 <= k < j);
                        if depth(t, k) == depth(t, i + 2) {
                            assert forall|m: int| i + 1 < m <= k implies #[trigger] depth(t, m)
                                > depth(t, i + 1) by {
                                assert(depth(t, m) >= depth(t, i + 2));
                            }
                            assert(in_call(t, i + 1, k));
                        } else {
                            let o = choose|o: int| i + 2 < o && #[trigger] in_call(t, o, k);
                            assert(i < o && in_call(t, o, k));
                        }
                    }
                }
            }
        }
        if t[i] == Symbol::Op('(') {
            lemma_chain_commas(Level::Sum, t, i + 1, names);
            lemma_chain_progress(Level::Sum, t, i + 1, names);
            if let Ok((_, j)) = chain(Level::Sum, t, i + 1, names) {
                if op_at(t, j, ')') {
                    assert forall|k: int|
                        i <= k < j + 1 && #[trigger] t[k] == Symbol::Op(',') implies exists|o: int|
                        i < o && #[trigger] in_call(t, o, k) by {
                        let o = choose|o: int| i + 1 < o && #[trigger] in_call(t, o, k);
                        assert(i < o && in_call(t, o, k));
                    }
                }
            }
        }
    }
}

proof fn lemma_arguments_commas(t: Seq<Symbol>, i: int, args: Seq<Ast>, names: Set<Seq<char>>)
    requires
        0 <= i,
    ensures
        arguments(t, i, args, names) matches Ok((_, j)) ==> commas(t, i, j, true),
    decreases t.len() - i, 7int,
{
    lemma_chain_commas(Level::Sum, t, i, names);
    lemma_chain_progress(Level::Sum, t, i, names);
    lemma_chain_balanced(Level::Sum, t, i, names);
    if let Ok((a, j)) = chain(Level::Sum, t, i, names) {
        if op_at(t, j, ',') {
            lemma_arguments_commas(t, j + 1, args.push(a), names);
            lemma_arguments_progress(t, j + 1, args.push(a), names);
            if let Ok((_, k)) = arguments(t, j + 1, args.push(a), names) {
                assert(depth(t, j + 1) == depth(t, j));
                lemma_commas_one(t, j, true);
                lemma_commas_join(t, j, j + 1, k, true);
                lemma_commas_join(t, i, j, k, true);
            }
        }
    }
}

/// A comma stands only directly in the parentheses of a call.
pub proof fn law_commas_separate_arguments(s: Seq<char>, names: Set<Seq<char>>, k: int)
    requires
        parse(s, names) is Ok,
        0 <= k < tokens(s)->Ok_0.len(),
        tokens(s)->Ok_0[k] == Symbol::Op(','),
    ensures
        exists|o: int| #[trigger] in_call(tokens(s)->Ok_0, o, k),
{
    lemma_chain_commas(Level::Sum, tokens(s)->Ok_0, 0, names);
}

} // verus!
