//! Laws of the grammar: how operators bind, and that every expression can be written.
use vstd::prelude::*;

use crate::error::Fault;
use crate::grammar::{
    arguments, atom, chain, chain_rest, constant_named, function_named, op_at, operand, operator,
    operator_at, parse_tokens, power, unary, Ast, Function, Level,
};
use crate::lexer::Symbol;
use crate::number::{BinaryOp, Constant, UnaryOp};
use crate::text::lower;

verus! {

/// The character of an operation that is written between its operands.
pub open spec fn sign_of(op: BinaryOp) -> Option<char> {
    match op {
        BinaryOp::Add => Some('+'),
        BinaryOp::Sub => Some('-'),
        BinaryOp::Mul => Some('*'),
        BinaryOp::Div => Some('/'),
        BinaryOp::Rem => Some('%'),
        BinaryOp::Pow => Some('^'),
        _ => None,
    }
}

/// The name by which a function is called.
pub open spec fn name_of(f: Function) -> Option<Seq<char>> {
    match f {
        Function::First(op) => match op {
            UnaryOp::Neg => None,
            UnaryOp::Abs => Some("abs"@),
            UnaryOp::Sqrt => Some("sqrt"@),
            UnaryOp::Sin => Some("sin"@),
            UnaryOp::Cos => Some("cos"@),
            UnaryOp::Tan => Some("tan"@),
            UnaryOp::Ln => Some("ln"@),
            UnaryOp::Log10 => Some("log"@),
            UnaryOp::Exp => Some("exp"@),
            UnaryOp::Floor => Some("floor"@),
            UnaryOp::Ceil => Some("ceil"@),
            UnaryOp::Round => Some("round"@),
        },
        Function::Fold(op, c) => if op == BinaryOp::Min && c == Constant::Infinity {
            Some("min"@)
        } else if op == BinaryOp::Max && c == Constant::NegInfinity {
            Some("max"@)
        } else {
            None
        },
    }
}

/// The name of a constant.
pub open spec fn constant_name(c: Constant) -> Option<Seq<char>> {
    match c {
        Constant::Pi => Some("pi"@),
        Constant::E => Some("e"@),
        _ => None,
    }
}

/// Whether an expression can be written where `names` are the variables: it uses variables among
/// them, and functions and constants that have a name which no variable hides.
pub open spec fn writable(a: Ast, names: Set<Seq<char>>) -> bool
    decreases a,
{
    match a {
        Ast::Num(_) => true,
        Ast::Var(name) => names.contains(name),
        Ast::Const(c) => constant_name(c) matches Some(name) && !names.contains(name),
        Ast::Unary(op, x) => op == UnaryOp::Neg && writable(*x, names),
        Ast::Binary(op, x, y) => sign_of(op) is Some && writable(*x, names) && writable(*y, names),
        Ast::Call(f, args) => {
            &&& name_of(f) matches Some(name) && !names.contains(name)
            &&& args.len() > 0
            &&& forall|i: int| 0 <= i < args.len() ==> writable(#[trigger] args[i], names)
        },
    }
}

/// An expression written with every operation in parentheses.
pub open spec fn written(a: Ast) -> Seq<Symbol>
    decreases a,
{
    match a {
        Ast::Num(text) => seq![Symbol::Num(text)],
        Ast::Var(name) => seq![Symbol::Id(name)],
        Ast::Const(c) => seq![Symbol::Id(constant_name(c).unwrap())],
        Ast::Unary(_, x) => seq![Symbol::Op('('), Symbol::Op('-')] + written(*x) + seq![
            Symbol::Op(')'),
        ],
        Ast::Binary(op, x, y) => seq![Symbol::Op('(')] + written(*x) + seq![
            Symbol::Op(sign_of(op).unwrap()),
        ] + written(*y) + seq![Symbol::Op(')')],
        Ast::Call(f, args) => seq![Symbol::Id(name_of(f).unwrap()), Symbol::Op('(')]
            + written_list(args) + seq![Symbol::Op(')')],
    }
}

/// Arguments with commas between them.
pub open spec fn written_list(args: Seq<Ast>) -> Seq<Symbol>
    decreases args,
{
    if args.len() == 0 {
        Seq::empty()
    } else if args.len() == 1 {
        written(args[0])
    } else {
        written(args[0]) + seq![Symbol::Op(',')] + written_list(args.subrange(1, args.len() as int))
    }
}

/// `part` stands in `t` at `i`.
pub open spec fn stands(t: Seq<Symbol>, i: int, part: Seq<Symbol>) -> bool {
    &&& 0 <= i
    &&& i + part.len() <= t.len()
    &&& forall|k: int| 0 <= k < part.len() ==> t[i + k] == #[trigger] part[k]
}

/// A name of a function or a constant is its own lower case, and finds what it names.
pub proof fn lemma_names(f: Function, c: Constant)
    ensures
        name_of(f) matches Some(name) ==> lower(name) == name && function_named(name) == Some(f),
        constant_name(c) matches Some(name) ==> lower(name) == name && constant_named(name) == Some(
            c,
        ),
{
    reveal_strlit("abs");
    reveal_strlit("sqrt");
    reveal_strlit("sin");
    reveal_strlit("cos");
    reveal_strlit("tan");
    reveal_strlit("ln");
    reveal_strlit("log");
    reveal_strlit("exp");
    reveal_strlit("floor");
    reveal_strlit("ceil");
    reveal_strlit("round");
    reveal_strlit("min");
    reveal_strlit("max");
    reveal_strlit("pi");
    reveal_strlit("e");
    if let Some(name) = name_of(f) {
        assert(lower(name) =~= name);
        // The first two characters, or the length, tell the names apart.
        let _ = (name[0], name[1]);
    }
    if let Some(name) = constant_name(c) {
        assert(lower(name) =~= name);
    }
}

/// What an atom that is followed by no operator of a level amounts to at that level.
pub proof fn lemma_operand(x: Ast, t: Seq<Symbol>, i: int, j: int, names: Set<Seq<char>>)
    requires
        atom(t, i, names) == Ok::<(Ast, int), Fault>((x, j)),
        i < j <= t.len(),
        !op_at(t, i, '-'),
        !op_at(t, i, '+'),
        !op_at(t, j, '^'),
    ensures
        unary(t, i, names) == Ok::<(Ast, int), Fault>((x, j)),
        operand(Level::Product, t, i, names) == Ok::<(Ast, int), Fault>((x, j)),
        operator_at(Level::Product, t, j) is None ==> {
            &&& chain(Level::Product, t, i, names) == Ok::<(Ast, int), Fault>((x, j))
            &&& operand(Level::Sum, t, i, names) == Ok::<(Ast, int), Fault>((x, j))
        },
        operator_at(Level::Product, t, j) is None && operator_at(Level::Sum, t, j) is None ==> chain(
            Level::Sum,
            t,
            i,
            names,
        ) == Ok::<(Ast, int), Fault>((x, j)),
{
    assert(power(t, i, names) == Ok::<(Ast, int), Fault>((x, j)));
    assert(unary(t, i, names) == Ok::<(Ast, int), Fault>((x, j)));
    assert(operand(Level::Product, t, i, names) == Ok::<(Ast, int), Fault>((x, j)));
    if operator_at(Level::Product, t, j) is None {
        assert(chain_rest(Level::Product, t, j, x, names) == Ok::<(Ast, int), Fault>((x, j)));
        assert(chain(Level::Product, t, i, names) == Ok::<(Ast, int), Fault>((x, j)));
        assert(operand(Level::Sum, t, i, names) == Ok::<(Ast, int), Fault>((x, j)));
        if operator_at(Level::Sum, t, j) is None {
            assert(chain_rest(Level::Sum, t, j, x, names) == Ok::<(Ast, int), Fault>((x, j)));
        }
    }
}

/// A power of two atoms.
pub proof fn lemma_power(
    x: Ast,
    y: Ast,
    t: Seq<Symbol>,
    i: int,
    j: int,
    k: int,
    names: Set<Seq<char>>,
)
    requires
        atom(t, i, names) == Ok::<(Ast, int), Fault>((x, j)),
        i < j,
        op_at(t, j, '^'),
        unary(t, j + 1, names) == Ok::<(Ast, int), Fault>((y, k)),
        j + 1 < k <= t.len(),
        !op_at(t, i, '-'),
        !op_at(t, i, '+'),
    ensures
        unary(t, i, names) == Ok::<(Ast, int), Fault>(
            (Ast::Binary(BinaryOp::Pow, Box::new(x), Box::new(y)), k),
        ),
{
    assert(power(t, i, names) == Ok::<(Ast, int), Fault>(
        (Ast::Binary(BinaryOp::Pow, Box::new(x), Box::new(y)), k),
    ));
}

/// A signed power, in a place where no operator follows, is a product and a sum.
pub proof fn lemma_unary_is_all(x: Ast, t: Seq<Symbol>, i: int, j: int, names: Set<Seq<char>>)
    requires
        unary(t, i, names) == Ok::<(Ast, int), Fault>((x, j)),
        i < j <= t.len(),
        operator_at(Level::Product, t, j) is None,
    ensures
        chain(Level::Product, t, i, names) == Ok::<(Ast, int), Fault>((x, j)),
        operand(Level::Sum, t, i, names) == Ok::<(Ast, int), Fault>((x, j)),
        operator_at(Level::Sum, t, j) is None ==> chain(Level::Sum, t, i, names) == Ok::<
            (Ast, int),
            Fault,
        >((x, j)),
{
    assert(operand(Level::Product, t, i, names) == Ok::<(Ast, int), Fault>((x, j)));
    assert(chain_rest(Level::Product, t, j, x, names) == Ok::<(Ast, int), Fault>((x, j)));
    assert(chain(Level::Product, t, i, names) == Ok::<(Ast, int), Fault>((x, j)));
    assert(operand(Level::Sum, t, i, names) == Ok::<(Ast, int), Fault>((x, j)));
    if operator_at(Level::Sum, t, j) is None {
        assert(chain_rest(Level::Sum, t, j, x, names) == Ok::<(Ast, int), Fault>((x, j)));
    }
}

/// One step of a chain: the operator at `j` takes in the operand after it.
pub proof fn lemma_chain_step(
    level: Level,
    op: BinaryOp,
    a: Ast,
    y: Ast,
    t: Seq<Symbol>,
    j: int,
    k: int,
    names: Set<Seq<char>>,
)
    requires
        operator_at(level, t, j) == Some(op),
        operand(level, t, j + 1, names) == Ok::<(Ast, int), Fault>((y, k)),
        j < k <= t.len(),
    ensures
        chain_rest(level, t, j, a, names) == chain_rest(
            level,
            t,
            k,
            Ast::Binary(op, Box::new(a), Box::new(y)),
            names,
        ),
{
}

/// A chain ends where no operator of its level follows.
pub proof fn lemma_chain_end(level: Level, a: Ast, t: Seq<Symbol>, j: int, names: Set<Seq<char>>)
    requires
        operator_at(level, t, j) is None,
    ensures
        chain_rest(level, t, j, a, names) == Ok::<(Ast, int), Fault>((a, j)),
{
}

/// A minus before an atom.
pub proof fn lemma_negated(x: Ast, t: Seq<Symbol>, i: int, j: int, names: Set<Seq<char>>)
    requires
        op_at(t, i, '-'),
        atom(t, i + 1, names) == Ok::<(Ast, int), Fault>((x, j)),
        i + 1 < j <= t.len(),
        !op_at(t, i + 1, '-'),
        !op_at(t, i + 1, '+'),
        !op_at(t, j, '^'),
        operator_at(Level::Product, t, j) is None,
        operator_at(Level::Sum, t, j) is None,
    ensures
        chain(Level::Sum, t, i, names) == Ok::<(Ast, int), Fault>(
            (Ast::Unary(UnaryOp::Neg, Box::new(x)), j),
        ),
{
    let a = Ast::Unary(UnaryOp::Neg, Box::new(x));
    lemma_operand(x, t, i + 1, j, names);
    assert(unary(t, i, names) == Ok::<(Ast, int), Fault>((a, j)));
    lemma_unary_is_all(a, t, i, j, names);
}

/// Two atoms with an operator between them.
pub proof fn lemma_joined(
    op: BinaryOp,
    x: Ast,
    y: Ast,
    t: Seq<Symbol>,
    i: int,
    j: int,
    k: int,
    names: Set<Seq<char>>,
)
    requires
        atom(t, i, names) == Ok::<(Ast, int), Fault>((x, j)),
        atom(t, j + 1, names) == Ok::<(Ast, int), Fault>((y, k)),
        0 <= i < j < t.len(),
        j + 1 < k <= t.len(),
        sign_of(op) matches Some(c) && t[j] == Symbol::Op(c),
        !op_at(t, i, '-'),
        !op_at(t, i, '+'),
        !op_at(t, j + 1, '-'),
        !op_at(t, j + 1, '+'),
        !op_at(t, k, '^'),
        operator_at(Level::Product, t, k) is None,
        operator_at(Level::Sum, t, k) is None,
    ensures
        chain(Level::Sum, t, i, names) == Ok::<(Ast, int), Fault>(
            (Ast::Binary(op, Box::new(x), Box::new(y)), k),
        ),
{
    let a = Ast::Binary(op, Box::new(x), Box::new(y));
    lemma_operand(y, t, j + 1, k, names);
    if op == BinaryOp::Pow {
        lemma_power(x, y, t, i, j, k, names);
        lemma_unary_is_all(a, t, i, k, names);
    } else {
        lemma_operand(x, t, i, j, names);
        if operator_at(Level::Product, t, j) is Some {
            assert(operator_at(Level::Product, t, j) == Some(op));
            lemma_chain_step(Level::Product, op, x, y, t, j, k, names);
            lemma_chain_end(Level::Product, a, t, k, names);
            assert(chain(Level::Product, t, i, names) == Ok::<(Ast, int), Fault>((a, k)));
            lemma_chain_end(Level::Sum, a, t, k, names);
            assert(operand(Level::Sum, t, i, names) == Ok::<(Ast, int), Fault>((a, k)));
        } else {
            assert(operator_at(Level::Sum, t, j) == Some(op));
            lemma_chain_step(Level::Sum, op, x, y, t, j, k, names);
            lemma_chain_end(Level::Sum, a, t, k, names);
        }
    }
}

/// Of two parts that stand one after the other, each stands in its place.
proof fn lemma_parts_stand(t: Seq<Symbol>, i: int, p: Seq<Symbol>, q: Seq<Symbol>)
    requires
        stands(t, i, p + q),
    ensures
        stands(t, i, p),
        stands(t, i + p.len(), q),
{
    assert forall|k: int| 0 <= k < p.len() implies t[i + k] == #[trigger] p[k] by {
        assert((p + q)[k] == p[k]);
    }
    assert forall|k: int| 0 <= k < q.len() implies t[i + p.len() + k] == #[trigger] q[k] by {
        assert((p + q)[p.len() + k] == q[k]);
    }
}

/// A sum in parentheses is an atom.
pub proof fn lemma_parenthesis(a: Ast, t: Seq<Symbol>, i: int, j: int, names: Set<Seq<char>>)
    requires
        op_at(t, i, '('),
        chain(Level::Sum, t, i + 1, names) == Ok::<(Ast, int), Fault>((a, j)),
        op_at(t, j, ')'),
    ensures
        atom(t, i, names) == Ok::<(Ast, int), Fault>((a, j + 1)),
{
}

/// A name that no variable has, and arguments in parentheses, make a call.
proof fn lemma_call(
    f: Function,
    args: Seq<Ast>,
    t: Seq<Symbol>,
    i: int,
    j: int,
    names: Set<Seq<char>>,
)
    requires
        0 <= i < t.len(),
        name_of(f) matches Some(name) && t[i] == Symbol::Id(name) && !names.contains(name),
        op_at(t, i + 1, '('),
        arguments(t, i + 2, Seq::empty(), names) == Ok::<(Seq<Ast>, int), Fault>((args, j)),
        op_at(t, j, ')'),
    ensures
        atom(t, i, names) == Ok::<(Ast, int), Fault>((Ast::Call(f, args), j + 1)),
{
    lemma_names(f, Constant::Pi);
}

/// The written form of an expression starts with no sign, and reads as an atom.
proof fn lemma_written(a: Ast, t: Seq<Symbol>, i: int, names: Set<Seq<char>>)
    requires
        writable(a, names),
        stands(t, i, written(a)),
        !op_at(t, i + written(a).len(), '('),
    ensures
        written(a).len() > 0,
        !op_at(t, i, '-'),
        !op_at(t, i, '+'),
        atom(t, i, names) == Ok::<(Ast, int), Fault>((a, i + written(a).len())),
    decreases a, 1int,
{
    match a {
        Ast::Num(_) | Ast::Var(_) => {
            assert(t[i] == written(a)[0]);
        },
        Ast::Const(c) => {
            assert(t[i] == written(a)[0]);
            lemma_names(Function::First(UnaryOp::Abs), c);
        },
        Ast::Unary(_, x) => lemma_written_negation(a, *x, t, i, names),
        Ast::Binary(op, x, y) => lemma_written_joined(a, op, *x, *y, t, i, names),
        Ast::Call(f, args) => lemma_written_call(a, f, args, t, i, names),
    }
}

proof fn lemma_written_negation(a: Ast, x: Ast, t: Seq<Symbol>, i: int, names: Set<Seq<char>>)
    requires
        a == Ast::Unary(UnaryOp::Neg, Box::new(x)),
        writable(x, names),
        stands(t, i, written(a)),
    ensures
        written(a).len() > 0,
        op_at(t, i, '('),
        atom(t, i, names) == Ok::<(Ast, int), Fault>((a, i + written(a).len())),
    decreases a, 0int,
{
    let open = seq![Symbol::Op('('), Symbol::Op('-')];
    let close = seq![Symbol::Op(')')];
    let end = i + 2 + written(x).len();
    lemma_parts_stand(t, i, open + written(x), close);
    lemma_parts_stand(t, i, open, written(x));
    assert(t[i] == open[0]);
    assert(t[i + 1] == open[1]);
    assert(t[end] == close[0]);
    lemma_written(x, t, i + 2, names);
    lemma_negated(x, t, i + 1, end, names);
    lemma_parenthesis(a, t, i, end, names);
}

proof fn lemma_written_joined(
    a: Ast,
    op: BinaryOp,
    x: Ast,
    y: Ast,
    t: Seq<Symbol>,
    i: int,
    names: Set<Seq<char>>,
)
    requires
        a == Ast::Binary(op, Box::new(x), Box::new(y)),
        writable(a, names),
        stands(t, i, written(a)),
    ensures
        written(a).len() > 0,
        op_at(t, i, '('),
        atom(t, i, names) == Ok::<(Ast, int), Fault>((a, i + written(a).len())),
    decreases a, 0int,
{
    let open = seq![Symbol::Op('(')];
    let sign = seq![Symbol::Op(sign_of(op).unwrap())];
    let close = seq![Symbol::Op(')')];
    let j = i + 1 + written(x).len();
    let end = j + 1 + written(y).len();
    lemma_parts_stand(t, i, open + written(x) + sign + written(y), close);
    lemma_parts_stand(t, i, open + written(x) + sign, written(y));
    lemma_parts_stand(t, i, open + written(x), sign);
    lemma_parts_stand(t, i, open, written(x));
    assert(t[i] == open[0]);
    assert(t[j] == sign[0]);
    assert(t[end] == close[0]);
    lemma_written(x, t, i + 1, names);
    lemma_written(y, t, j + 1, names);
    lemma_joined(op, x, y, t, i + 1, j, end, names);
    lemma_parenthesis(a, t, i, end, names);
}

proof fn lemma_written_call(
    a: Ast,
    f: Function,
    args: Seq<Ast>,
    t: Seq<Symbol>,
    i: int,
    names: Set<Seq<char>>,
)
    requires
        a == Ast::Call(f, args),
        writable(a, names),
        stands(t, i, written(a)),
    ensures
        written(a).len() > 0,
        0 <= i < t.len() && t[i] is Id,
        atom(t, i, names) == Ok::<(Ast, int), Fault>((a, i + written(a).len())),
    decreases args, 1int,
{
    let open = seq![Symbol::Id(name_of(f).unwrap()), Symbol::Op('(')];
    let close = seq![Symbol::Op(')')];
    let end = i + 2 + written_list(args).len();
    lemma_parts_stand(t, i, open + written_list(args), close);
    lemma_parts_stand(t, i, open, written_list(args));
    assert(t[i] == open[0]);
    assert(t[i + 1] == open[1]);
    assert(t[end] == close[0]);
    lemma_written_list(args, Seq::empty(), t, i + 2, names);
    assert(Seq::<Ast>::empty() + args =~= args);
    lemma_call(f, args, t, i, end, names);
}

/// Written arguments read as those arguments.
proof fn lemma_written_list(
    args: Seq<Ast>,
    seen: Seq<Ast>,
    t: Seq<Symbol>,
    i: int,
    names: Set<Seq<char>>,
)
    requires
        args.len() > 0,
        forall|k: int| 0 <= k < args.len() ==> writable(#[trigger] args[k], names),
        stands(t, i, written_list(args)),
        op_at(t, i + written_list(args).len(), ')'),
    ensures
        arguments(t, i, seen, names) == Ok::<(Seq<Ast>, int), Fault>(
            (seen + args, i + written_list(args).len()),
        ),
    decreases args, 0int,
{
    let a = args[0];
    let j = i + written(a).len();
    if args.len() == 1 {
        lemma_written(a, t, i, names);
        lemma_operand(a, t, i, j, names);
        assert(seen.push(a) =~= seen + args);
    } else {
        let rest = args.subrange(1, args.len() as int);
        let comma = seq![Symbol::Op(',')];
        lemma_parts_stand(t, i, written(a) + comma, written_list(rest));
        lemma_parts_stand(t, i, written(a), comma);
        assert(t[j] == comma[0]);
        lemma_written(a, t, i, names);
        lemma_operand(a, t, i, j, names);
        assert forall|k: int| 0 <= k < rest.len() implies writable(#[trigger] rest[k], names) by {
            assert(rest[k] == args[k + 1]);
        }
        lemma_written_list(rest, seen.push(a), t, j + 1, names);
        assert(seen.push(a) + rest =~= seen + args);
    }
}

/// How tightly an operator binds.
pub open spec fn rank(op: BinaryOp) -> int {
    match op {
        BinaryOp::Add | BinaryOp::Sub => 0,
        BinaryOp::Mul | BinaryOp::Div | BinaryOp::Rem => 1,
        _ => 2,
    }
}

/// Whether in `x op1 y op2 z` the first operator takes `y`: it binds tighter than the second, or
/// as tightly and groups from the left, as all but `^` do.
pub open spec fn first_takes(op1: BinaryOp, op2: BinaryOp) -> bool {
    rank(op1) > rank(op2) || (rank(op1) == rank(op2) && op1 != BinaryOp::Pow)
}

/// Three atoms with operators between them.
#[verifier::spinoff_prover]
proof fn lemma_two_joined(
    op1: BinaryOp,
    op2: BinaryOp,
    x: Ast,
    y: Ast,
    z: Ast,
    t: Seq<Symbol>,
    i: int,
    j: int,
    k: int,
    names: Set<Seq<char>>,
)
    requires
        atom(t, i, names) == Ok::<(Ast, int), Fault>((x, j)),
        atom(t, j + 1, names) == Ok::<(Ast, int), Fault>((y, k)),
        atom(t, k + 1, names) == Ok::<(Ast, int), Fault>((z, t.len() as int)),
        0 <= i < j,
        j + 1 < k,
        k + 1 < t.len(),
        sign_of(op1) matches Some(c) && t[j] == Symbol::Op(c),
        sign_of(op2) matches Some(c) && t[k] == Symbol::Op(c),
        !op_at(t, i, '-'),
        !op_at(t, i, '+'),
        !op_at(t, j + 1, '-'),
        !op_at(t, j + 1, '+'),
        !op_at(t, k + 1, '-'),
        !op_at(t, k + 1, '+'),
    ensures
        chain(Level::Sum, t, i, names) == Ok::<(Ast, int), Fault>(
            (
                if first_takes(op1, op2) {
                    Ast::Binary(
                        op2,
                        Box::new(Ast::Binary(op1, Box::new(x), Box::new(y))),
                        Box::new(z),
                    )
                } else {
                    Ast::Binary(
                        op1,
                        Box::new(x),
                        Box::new(Ast::Binary(op2, Box::new(y), Box::new(z))),
                    )
                },
                t.len() as int,
            ),
        ),
{
    let l = t.len() as int;
    let xy = Ast::Binary(op1, Box::new(x), Box::new(y));
    let yz = Ast::Binary(op2, Box::new(y), Box::new(z));
    let left = Ast::Binary(op2, Box::new(xy), Box::new(z));
    let right = Ast::Binary(op1, Box::new(x), Box::new(yz));
    lemma_operand(z, t, k + 1, l, names);
    if op2 == BinaryOp::Pow {
        lemma_power(y, z, t, j + 1, k, l, names);
        lemma_unary_is_all(yz, t, j + 1, l, names);
        if op1 == BinaryOp::Pow {
            lemma_power(x, yz, t, i, j, l, names);
            lemma_unary_is_all(right, t, i, l, names);
        } else {
            lemma_operand(x, t, i, j, names);
            if rank(op1) == 1 {
                assert(operand(Level::Product, t, j + 1, names) == Ok::<(Ast, int), Fault>((yz, l)));
                lemma_chain_step(Level::Product, op1, x, yz, t, j, l, names);
                lemma_product_is_all(x, right, t, i, j, l, names);
            } else {
                lemma_chain_step(Level::Sum, op1, x, yz, t, j, l, names);
                lemma_chain_end(Level::Sum, right, t, l, names);
            }
        }
    } else if op1 == BinaryOp::Pow {
        lemma_operand(y, t, j + 1, k, names);
        lemma_power(x, y, t, i, j, k, names);
        assert(operand(Level::Product, t, i, names) == Ok::<(Ast, int), Fault>((xy, k)));
        if rank(op2) == 1 {
            lemma_chain_step(Level::Product, op2, xy, z, t, k, l, names);
            lemma_product_is_all(xy, left, t, i, k, l, names);
        } else {
            lemma_unary_is_all(xy, t, i, k, names);
            lemma_chain_step(Level::Sum, op2, xy, z, t, k, l, names);
            lemma_chain_end(Level::Sum, left, t, l, names);
        }
    } else {
        lemma_operand(x, t, i, j, names);
        lemma_operand(y, t, j + 1, k, names);
        if rank(op1) == 1 {
            lemma_chain_step(Level::Product, op1, x, y, t, j, k, names);
            if rank(op2) == 1 {
                lemma_chain_step(Level::Product, op2, xy, z, t, k, l, names);
                lemma_product_is_all(x, left, t, i, j, l, names);
            } else {
                lemma_chain_end(Level::Product, xy, t, k, names);
                assert(chain(Level::Product, t, i, names) == Ok::<(Ast, int), Fault>((xy, k)));
                assert(operand(Level::Sum, t, i, names) == Ok::<(Ast, int), Fault>((xy, k)));
                lemma_chain_step(Level::Sum, op2, xy, z, t, k, l, names);
                lemma_chain_end(Level::Sum, left, t, l, names);
            }
        } else if rank(op2) == 1 {
            lemma_chain_step(Level::Product, op2, y, z, t, k, l, names);
            lemma_chain_end(Level::Product, yz, t, l, names);
            assert(chain(Level::Product, t, j + 1, names) == Ok::<(Ast, int), Fault>((yz, l)));
            assert(operand(Level::Sum, t, j + 1, names) == Ok::<(Ast, int), Fault>((yz, l)));
            lemma_chain_step(Level::Sum, op1, x, yz, t, j, l, names);
            lemma_chain_end(Level::Sum, right, t, l, names);
        } else {
            lemma_chain_step(Level::Sum, op1, x, y, t, j, k, names);
            lemma_chain_step(Level::Sum, op2, xy, z, t, k, l, names);
            lemma_chain_end(Level::Sum, left, t, l, names);
        }
    }
}

/// A product that takes all the tokens is a sum.
pub proof fn lemma_product_is_all(
    x: Ast,
    a: Ast,
    t: Seq<Symbol>,
    i: int,
    j: int,
    k: int,
    names: Set<Seq<char>>,
)
    requires
        0 <= i < j <= t.len(),
        j <= k <= t.len(),
        operand(Level::Product, t, i, names) == Ok::<(Ast, int), Fault>((x, j)),
        chain_rest(Level::Product, t, j, x, names) == chain_rest(Level::Product, t, k, a, names),
        operator_at(Level::Product, t, k) is None,
        operator_at(Level::Sum, t, k) is None,
    ensures
        chain(Level::Sum, t, i, names) == Ok::<(Ast, int), Fault>((a, k)),
{
    lemma_chain_end(Level::Product, a, t, k, names);
    assert(chain(Level::Product, t, i, names) == Ok::<(Ast, int), Fault>((a, k)));
    lemma_chain_end(Level::Sum, a, t, k, names);
    assert(operand(Level::Sum, t, i, names) == Ok::<(Ast, int), Fault>((a, k)));
}

/// Every expression that can be written is read back from its written form.
pub proof fn law_written_form_reads_back(a: Ast, names: Set<Seq<char>>)
    requires
        writable(a, names),
    ensures
        parse_tokens(written(a), names) == Ok::<Ast, Fault>(a),
{
    let t = written(a);
    lemma_written(a, t, 0, names);
    lemma_operand(a, t, 0, t.len() as int, names);
}

/// In `x op1 y op2 z` the operator that binds tighter takes `y`; of operators that bind as
/// tightly, the first one does, but of two `^` the second.
pub proof fn law_precedence(
    op1: BinaryOp,
    op2: BinaryOp,
    x: Ast,
    y: Ast,
    z: Ast,
    names: Set<Seq<char>>,
)
    requires
        writable(x, names),
        writable(y, names),
        writable(z, names),
        sign_of(op1) is Some,
        sign_of(op2) is Some,
    ensures
        parse_tokens(
            written(x) + seq![Symbol::Op(sign_of(op1).unwrap())] + written(y) + seq![
                Symbol::Op(sign_of(op2).unwrap()),
            ] + written(z),
            names,
        ) == Ok::<Ast, Fault>(
            if first_takes(op1, op2) {
                Ast::Binary(
                    op2,
                    Box::new(Ast::Binary(op1, Box::new(x), Box::new(y))),
                    Box::new(z),
                )
            } else {
                Ast::Binary(
                    op1,
                    Box::new(x),
                    Box::new(Ast::Binary(op2, Box::new(y), Box::new(z))),
                )
            },
        ),
{
    let sign1 = seq![Symbol::Op(sign_of(op1).unwrap())];
    let sign2 = seq![Symbol::Op(sign_of(op2).unwrap())];
    let t = written(x) + sign1 + written(y) + sign2 + written(z);
    let j = written(x).len() as int;
    let k = j + 1 + written(y).len();
    assert(stands(t, 0, t));
    lemma_parts_stand(t, 0, written(x) + sign1 + written(y) + sign2, written(z));
    lemma_parts_stand(t, 0, written(x) + sign1 + written(y), sign2);
    lemma_parts_stand(t, 0, written(x) + sign1, written(y));
    lemma_parts_stand(t, 0, written(x), sign1);
    assert(t[j] == sign1[0]);
    assert(t[k] == sign2[0]);
    lemma_written(x, t, 0, names);
    lemma_written(y, t, j + 1, names);
    lemma_written(z, t, k + 1, names);
    lemma_two_joined(op1, op2, x, y, z, t, 0, j, k, names);
}

/// A minus, and two atoms with an operator between them.
#[verifier::spinoff_prover]
proof fn lemma_minus_joined(
    op: BinaryOp,
    x: Ast,
    y: Ast,
    t: Seq<Symbol>,
    j: int,
    names: Set<Seq<char>>,
)
    requires
        op_at(t, 0, '-'),
        atom(t, 1, names) == Ok::<(Ast, int), Fault>((x, j)),
        atom(t, j + 1, names) == Ok::<(Ast, int), Fault>((y, t.len() as int)),
        1 < j,
        j + 1 < t.len(),
        sign_of(op) matches Some(c) && t[j] == Symbol::Op(c),
        !op_at(t, 1, '-'),
        !op_at(t, 1, '+'),
        !op_at(t, j + 1, '-'),
        !op_at(t, j + 1, '+'),
    ensures
        chain(Level::Sum, t, 0, names) == Ok::<(Ast, int), Fault>(
            (
                if op == BinaryOp::Pow {
                    Ast::Unary(UnaryOp::Neg, Box::new(Ast::Binary(op, Box::new(x), Box::new(y))))
                } else {
                    Ast::Binary(op, Box::new(Ast::Unary(UnaryOp::Neg, Box::new(x))), Box::new(y))
                },
                t.len() as int,
            ),
        ),
{
    let l = t.len() as int;
    let neg = Ast::Unary(UnaryOp::Neg, Box::new(x));
    lemma_operand(y, t, j + 1, l, names);
    if op == BinaryOp::Pow {
        let a = Ast::Binary(op, Box::new(x), Box::new(y));
        lemma_power(x, y, t, 1, j, l, names);
        assert(unary(t, 0, names) == Ok::<(Ast, int), Fault>(
            (Ast::Unary(UnaryOp::Neg, Box::new(a)), l),
        ));
        lemma_unary_is_all(Ast::Unary(UnaryOp::Neg, Box::new(a)), t, 0, l, names);
    } else {
        let a = Ast::Binary(op, Box::new(neg), Box::new(y));
        lemma_operand(x, t, 1, j, names);
        assert(unary(t, 0, names) == Ok::<(Ast, int), Fault>((neg, j)));
        assert(operand(Level::Product, t, 0, names) == Ok::<(Ast, int), Fault>((neg, j)));
        if rank(op) == 1 {
            lemma_chain_step(Level::Product, op, neg, y, t, j, l, names);
            lemma_product_is_all(neg, a, t, 0, j, l, names);
        } else {
            lemma_unary_is_all(neg, t, 0, j, names);
            lemma_chain_step(Level::Sum, op, neg, y, t, j, l, names);
            lemma_chain_end(Level::Sum, a, t, l, names);
        }
    }
}

/// Two atoms with an operator and a minus between them.
#[verifier::spinoff_prover]
proof fn lemma_joined_minus(
    op: BinaryOp,
    x: Ast,
    y: Ast,
    t: Seq<Symbol>,
    j: int,
    names: Set<Seq<char>>,
)
    requires
        atom(t, 0, names) == Ok::<(Ast, int), Fault>((x, j)),
        atom(t, j + 2, names) == Ok::<(Ast, int), Fault>((y, t.len() as int)),
        0 < j,
        j + 2 < t.len(),
        sign_of(op) matches Some(c) && t[j] == Symbol::Op(c),
        op_at(t, j + 1, '-'),
        !op_at(t, 0, '-'),
        !op_at(t, 0, '+'),
        !op_at(t, j + 2, '-'),
        !op_at(t, j + 2, '+'),
    ensures
        chain(Level::Sum, t, 0, names) == Ok::<(Ast, int), Fault>(
            (
                Ast::Binary(op, Box::new(x), Box::new(Ast::Unary(UnaryOp::Neg, Box::new(y)))),
                t.len() as int,
            ),
        ),
{
    let l = t.len() as int;
    lemma_operand(y, t, j + 2, l, names);
    let neg = Ast::Unary(UnaryOp::Neg, Box::new(y));
    let a = Ast::Binary(op, Box::new(x), Box::new(neg));
    assert(unary(t, j + 1, names) == Ok::<(Ast, int), Fault>((neg, l)));
    lemma_unary_is_all(neg, t, j + 1, l, names);
    if op == BinaryOp::Pow {
        lemma_power(x, neg, t, 0, j, l, names);
        lemma_unary_is_all(a, t, 0, l, names);
    } else {
        lemma_operand(x, t, 0, j, names);
        if rank(op) == 1 {
            assert(operand(Level::Product, t, j + 1, names) == Ok::<(Ast, int), Fault>((neg, l)));
            lemma_chain_step(Level::Product, op, x, neg, t, j, l, names);
            lemma_product_is_all(x, a, t, 0, j, l, names);
        } else {
            lemma_chain_step(Level::Sum, op, x, neg, t, j, l, names);
            lemma_chain_end(Level::Sum, a, t, l, names);
        }
    }
}

/// A minus before `x op y` takes `x ^ y` whole, and of other operators `x` alone.
pub proof fn law_minus_before(op: BinaryOp, x: Ast, y: Ast, names: Set<Seq<char>>)
    requires
        writable(x, names),
        writable(y, names),
        sign_of(op) is Some,
    ensures
        parse_tokens(
            seq![Symbol::Op('-')] + written(x) + seq![Symbol::Op(sign_of(op).unwrap())] + written(
                y,
            ),
            names,
        ) == Ok::<Ast, Fault>(
            if op == BinaryOp::Pow {
                Ast::Unary(UnaryOp::Neg, Box::new(Ast::Binary(op, Box::new(x), Box::new(y))))
            } else {
                Ast::Binary(op, Box::new(Ast::Unary(UnaryOp::Neg, Box::new(x))), Box::new(y))
            },
        ),
{
    let minus = seq![Symbol::Op('-')];
    let sign = seq![Symbol::Op(sign_of(op).unwrap())];
    let t = minus + written(x) + sign + written(y);
    let j = 1 + written(x).len() as int;
    assert(stands(t, 0, t));
    lemma_parts_stand(t, 0, minus + written(x) + sign, written(y));
    lemma_parts_stand(t, 0, minus + written(x), sign);
    lemma_parts_stand(t, 0, minus, written(x));
    assert(t[0] == minus[0]);
    assert(t[j] == sign[0]);
    lemma_written(x, t, 1, names);
    lemma_written(y, t, j + 1, names);
    lemma_minus_joined(op, x, y, t, j, names);
}

/// An operator may be followed by a minus, which its second operand then takes.
pub proof fn law_minus_after(op: BinaryOp, x: Ast, y: Ast, names: Set<Seq<char>>)
    requires
        writable(x, names),
        writable(y, names),
        sign_of(op) is Some,
    ensures
        parse_tokens(
            written(x) + seq![Symbol::Op(sign_of(op).unwrap()), Symbol::Op('-')] + written(y),
            names,
        ) == Ok::<Ast, Fault>(
            Ast::Binary(op, Box::new(x), Box::new(Ast::Unary(UnaryOp::Neg, Box::new(y)))),
        ),
{
    let signs = seq![Symbol::Op(sign_of(op).unwrap()), Symbol::Op('-')];
    let t = written(x) + signs + written(y);
    let j = written(x).len() as int;
    assert(stands(t, 0, t));
    lemma_parts_stand(t, 0, written(x) + signs, written(y));
    lemma_parts_stand(t, 0, written(x), signs);
    assert(t[j] == signs[0]);
    assert(t[j + 1] == signs[1]);
    lemma_written(x, t, 0, names);
    lemma_written(y, t, j + 2, names);
    lemma_joined_minus(op, x, y, t, j, names);
}

/// A plus before an expression changes nothing.
pub proof fn law_plus_before(x: Ast, names: Set<Seq<char>>)
    requires
        writable(x, names),
    ensures
        parse_tokens(seq![Symbol::Op('+')] + written(x), names) == Ok::<Ast, Fault>(x),
{
    let plus = seq![Symbol::Op('+')];
    let t = plus + written(x);
    assert(stands(t, 0, t));
    lemma_parts_stand(t, 0, plus, written(x));
    assert(t[0] == plus[0]);
    lemma_written(x, t, 1, names);
    lemma_operand(x, t, 1, t.len() as int, names);
    assert(unary(t, 0, names) == Ok::<(Ast, int), Fault>((x, t.len() as int)));
    lemma_unary_is_all(x, t, 0, t.len() as int, names);
}

} // verus!
