//! Laws of values: what texts come to, in terms of what the number type returns.
use vstd::prelude::*;

use crate::error::Fault;
use crate::grammar::{evaluates, evaluation, parse, Function};
use crate::laws::arithmetic::{
    folded, law_binary_value, law_constant_value, law_evaluation_outcomes,
    law_first_argument_value, law_folded_value, law_numeral_value, law_unary_value,
    law_variable_value,
};
use crate::laws::atoms::{
    identifier, law_calls, law_names, law_numerals, listed, numeral, spells,
};
use crate::laws::composition::{
    law_parentheses_hide_operators, law_powers, law_products, law_signs, law_sums, without,
};
use crate::laws::nesting::{enclosed, law_parentheses};
use crate::laws::precedence::name_of;
use crate::number::{BinaryOp, Constant, Real, UnaryOp};
use crate::text::blank;

verus! {

/// The character by which an operation is written between its operands.
pub open spec fn written_as(op: BinaryOp, c: char) -> bool {
    ||| op == BinaryOp::Add && c == '+'
    ||| op == BinaryOp::Sub && c == '-'
    ||| op == BinaryOp::Mul && c == '*'
    ||| op == BinaryOp::Div && c == '/'
    ||| op == BinaryOp::Rem && c == '%'
    ||| op == BinaryOp::Pow && c == '^'
}

/// `v` is a value of the expression `s`, finite or not.
pub open spec fn denotes<N: Real>(s: Seq<char>, env: Map<Seq<char>, N>, v: N) -> bool {
    parse(s, env.dom()) matches Ok(a) && evaluates(a, env, v)
}

/// A text evaluates to a number only where that is a value of it and finite.
pub proof fn law_texts_evaluate_to_their_values<N: Real>(
    s: Seq<char>,
    env: Map<Seq<char>, N>,
    v: N,
)
    requires
        evaluation(s, env, Ok::<N, Fault>(v)),
    ensures
        denotes(s, env, v),
        call_ensures(N::is_finite, (v,), true),
{
    law_evaluation_outcomes(s, env, Ok::<N, Fault>(v));
}

/// A numeral has the value that the number type reads it as, from its first character to its last,
/// and no other.
pub proof fn law_value_of_numeral<N: Real>(m: Seq<char>, k: int, env: Map<Seq<char>, N>, v: N)
    requires
        numeral(m, k),
    ensures
        denotes(m, env, v) <==> exists|s: &str|
            s@ == m && #[trigger] call_ensures(N::literal, (s,), v),
{
    law_numerals(m, k, env.dom());
    law_numeral_value(m, env, v);
}

/// A name has the value of the variable of that name, where there is one, and no other. Where there
/// is none, `pi` and `e` have the values that the number type returns for them.
pub proof fn law_value_of_name<N: Real>(n: Seq<char>, env: Map<Seq<char>, N>, v: N)
    requires
        identifier(n),
    ensures
        env.contains_key(n) ==> (denotes(n, env, v) <==> v == env[n]),
        !env.contains_key(n) && spells(n, seq!['p', 'i']) ==> (denotes(n, env, v) <==> call_ensures(
            N::constant,
            (Constant::Pi,),
            v,
        )),
        !env.contains_key(n) && spells(n, seq!['e']) ==> (denotes(n, env, v) <==> call_ensures(
            N::constant,
            (Constant::E,),
            v,
        )),
        !env.contains_key(n) && !spells(n, seq!['p', 'i']) && !spells(n, seq!['e']) ==> !denotes(
            n,
            env,
            v,
        ),
{
    law_names(n, env.dom());
    law_variable_value(n, env, v);
    law_constant_value(Constant::Pi, env, v);
    law_constant_value(Constant::E, env, v);
}

/// An expression in parentheses has the values that it has without them.
pub proof fn law_value_in_parentheses<N: Real>(s: Seq<char>, env: Map<Seq<char>, N>, v: N)
    requires
        parse(s, env.dom()) is Ok,
    ensures
        denotes(enclosed(s), env, v) == denotes(s, env, v),
{
    law_parentheses(s, env.dom());
}

/// What binds at least as tightly as `op` wants of its first operand.
pub open spec fn fits_before(op: BinaryOp, s: Seq<char>) -> bool {
    match op {
        BinaryOp::Add | BinaryOp::Sub => true,
        BinaryOp::Mul | BinaryOp::Div | BinaryOp::Rem => without(s, set!['+', '-']),
        _ => without(s, set!['+', '-', '*', '/', '%', '^']),
    }
}

/// What binds at least as tightly as `op` wants of its second operand.
pub open spec fn fits_after(op: BinaryOp, w: Seq<char>) -> bool {
    match op {
        BinaryOp::Add | BinaryOp::Sub => without(w, set!['+', '-']),
        _ => without(w, set!['+', '-', '*', '/', '%']),
    }
}

/// Two expressions with an operator between them have the values that the number type returns for
/// the operation at a value of the first and a value of the second, and no others: nothing is done
/// to them afterwards. Each expression must bind at least as tightly as the operator wants.
pub proof fn law_value_of_operation<N: Real>(
    op: BinaryOp,
    c: char,
    s: Seq<char>,
    left: Seq<char>,
    right: Seq<char>,
    w: Seq<char>,
    env: Map<Seq<char>, N>,
    v: N,
)
    requires
        written_as(op, c),
        parse(s, env.dom()) is Ok,
        parse(w, env.dom()) is Ok,
        fits_before(op, s),
        fits_after(op, w),
        blank(left),
        blank(right),
        left.len() > 0 || (s.last() != 'e' && s.last() != 'E'),
    ensures
        denotes(s + left + seq![c] + right + w, env, v) <==> exists|p: N, q: N|
            denotes(s, env, p) && denotes(w, env, q) && #[trigger] call_ensures(
                N::binary,
                (op, p, q),
                v,
            ),
{
    let names = env.dom();
    let (a, b) = (parse(s, names)->Ok_0, parse(w, names)->Ok_0);
    match op {
        BinaryOp::Add | BinaryOp::Sub => law_sums(s, left, right, w, names),
        BinaryOp::Pow => law_powers(s, left, right, w, names),
        _ => law_products(op, c, s, left, right, w, names),
    }
    law_binary_value(op, a, b, env, v);
    if exists|p: N, q: N|
        evaluates(a, env, p) && evaluates(b, env, q) && #[trigger] call_ensures(
            N::binary,
            (op, p, q),
            v,
        ) {
        let (p, q) = choose|p: N, q: N|
            evaluates(a, env, p) && evaluates(b, env, q) && #[trigger] call_ensures(
                N::binary,
                (op, p, q),
                v,
            );
        assert(denotes(s, env, p) && denotes(w, env, q));
    }
}

/// Any two expressions, each in parentheses, may be the operands of any operator.
pub proof fn law_value_of_enclosed_operands<N: Real>(
    op: BinaryOp,
    c: char,
    s: Seq<char>,
    w: Seq<char>,
    env: Map<Seq<char>, N>,
    v: N,
)
    requires
        written_as(op, c),
        parse(s, env.dom()) is Ok,
        parse(w, env.dom()) is Ok,
    ensures
        denotes(enclosed(s) + seq![c] + enclosed(w), env, v) <==> exists|p: N, q: N|
            denotes(s, env, p) && denotes(w, env, q) && #[trigger] call_ensures(
                N::binary,
                (op, p, q),
                v,
            ),
{
    let names = env.dom();
    let none = Seq::<char>::empty();
    law_parentheses(s, names);
    law_parentheses(w, names);
    law_parentheses_hide_operators(s, set!['+', '-'], names);
    law_parentheses_hide_operators(s, set!['+', '-', '*', '/', '%', '^'], names);
    law_parentheses_hide_operators(w, set!['+', '-'], names);
    law_parentheses_hide_operators(w, set!['+', '-', '*', '/', '%'], names);
    assert(enclosed(s).last() == ')');
    law_value_of_operation(op, c, enclosed(s), none, none, enclosed(w), env, v);
    assert(enclosed(s) + none + seq![c] + none + enclosed(w) =~= enclosed(s) + seq![c] + enclosed(
        w,
    ));
    if exists|p: N, q: N|
        denotes(s, env, p) && denotes(w, env, q) && #[trigger] call_ensures(N::binary, (op, p, q), v) {
        let (p, q) = choose|p: N, q: N|
            denotes(s, env, p) && denotes(w, env, q) && #[trigger] call_ensures(
                N::binary,
                (op, p, q),
                v,
            );
        assert(denotes(enclosed(s), env, p) && denotes(enclosed(w), env, q));
    }
    if exists|p: N, q: N|
        denotes(enclosed(s), env, p) && denotes(enclosed(w), env, q) && #[trigger] call_ensures(
            N::binary,
            (op, p, q),
            v,
        ) {
        let (p, q) = choose|p: N, q: N|
            denotes(enclosed(s), env, p) && denotes(enclosed(w), env, q) && #[trigger] call_ensures(
                N::binary,
                (op, p, q),
                v,
            );
        assert(denotes(s, env, p) && denotes(w, env, q));
    }
}

/// Two numerals with an operator between them evaluate only to what the number type returns for
/// the operation at what it reads the two numerals as: `a/b` is the quotient of `a` and `b`.
pub proof fn law_value_of_numerals<N: Real>(
    op: BinaryOp,
    c: char,
    m1: Seq<char>,
    k1: int,
    m2: Seq<char>,
    k2: int,
    env: Map<Seq<char>, N>,
    v: N,
)
    requires
        written_as(op, c),
        numeral(m1, k1),
        numeral(m2, k2),
        evaluation(m1 + seq![c] + m2, env, Ok::<N, Fault>(v)),
    ensures
        exists|s1: &str, s2: &str, p: N, q: N|
            s1@ == m1 && s2@ == m2 && #[trigger] call_ensures(N::literal, (s1,), p)
                && #[trigger] call_ensures(N::literal, (s2,), q) && call_ensures(
                N::binary,
                (op, p, q),
                v,
            ),
{
    let none = Seq::<char>::empty();
    law_numerals(m1, k1, env.dom());
    law_numerals(m2, k2, env.dom());
    law_texts_evaluate_to_their_values(m1 + seq![c] + m2, env, v);
    assert(m1 + none + seq![c] + none + m2 =~= m1 + seq![c] + m2);
    assert(m1.last() != 'e' && m1.last() != 'E') by {
        if k1 == m1.len() {
            assert('0' <= m1[k1 - 1] <= '9' || m1[k1 - 1] == '.');
        }
    }
    law_value_of_operation(op, c, m1, none, none, m2, env, v);
    let (p, q) = choose|p: N, q: N|
        denotes(m1, env, p) && denotes(m2, env, q) && #[trigger] call_ensures(
            N::binary,
            (op, p, q),
            v,
        );
    law_value_of_numeral(m1, k1, env, p);
    law_value_of_numeral(m2, k2, env, q);
    let s1 = choose|s: &str| s@ == m1 && #[trigger] call_ensures(N::literal, (s,), p);
    let s2 = choose|s: &str| s@ == m2 && #[trigger] call_ensures(N::literal, (s,), q);
    assert(call_ensures(N::literal, (s1,), p));
    assert(call_ensures(N::literal, (s2,), q));
}

/// A minus before a power has the values that the number type returns for the negation of a value
/// of the power, and no others; a plus changes no value.
pub proof fn law_value_of_sign<N: Real>(
    gap: Seq<char>,
    w: Seq<char>,
    env: Map<Seq<char>, N>,
    v: N,
)
    requires
        parse(w, env.dom()) is Ok,
        without(w, set!['+', '-', '*', '/', '%']),
        blank(gap),
    ensures
        denotes(seq!['-'] + gap + w, env, v) <==> exists|p: N|
            denotes(w, env, p) && #[trigger] call_ensures(N::unary, (UnaryOp::Neg, p), v),
        denotes(seq!['+'] + gap + w, env, v) == denotes(w, env, v),
{
    let none = Seq::<char>::empty();
    law_signs(BinaryOp::Mul, '*', w, none, none, gap, w, env.dom());
    let b = parse(w, env.dom())->Ok_0;
    law_unary_value(UnaryOp::Neg, b, env, v);
    if exists|p: N|
        evaluates(b, env, p) && #[trigger] call_ensures(N::unary, (UnaryOp::Neg, p), v) {
        let p = choose|p: N|
            evaluates(b, env, p) && #[trigger] call_ensures(N::unary, (UnaryOp::Neg, p), v);
        assert(denotes(w, env, p));
    }
}

/// A call of a function of one number has only the values that the number type returns for the
/// operation at a value of its first argument, however many there are.
pub proof fn law_value_of_call<N: Real>(
    id: Seq<char>,
    op: UnaryOp,
    ss: Seq<Seq<char>>,
    env: Map<Seq<char>, N>,
    v: N,
)
    requires
        identifier(id),
        !env.contains_key(id),
        ss.len() > 0,
        forall|i: int| 0 <= i < ss.len() ==> parse(#[trigger] ss[i], env.dom()) is Ok,
        name_of(Function::First(op)) matches Some(name) && spells(id, name),
        denotes(id + seq!['('] + listed(ss) + seq![')'], env, v),
    ensures
        exists|p: N| denotes(ss[0], env, p) && #[trigger] call_ensures(N::unary, (op, p), v),
{
    let names = env.dom();
    let args = ss.map_values(|s: Seq<char>| parse(s, names)->Ok_0);
    law_calls(id, ss, args, names);
    assert(name_of(Function::First(op)) is Some);
    law_first_argument_value(op, args, env, v);
    let p = choose|p: N|
        evaluates(args[0], env, p) && #[trigger] call_ensures(N::unary, (op, p), v);
    assert(denotes(ss[0], env, p));
}

/// A call of `min` or `max` has only the values that come of infinity, positive for the one and
/// negative for the other, and a value of each argument in turn, from the first to the last.
pub proof fn law_value_of_extremes<N: Real>(
    id: Seq<char>,
    op: BinaryOp,
    z: Constant,
    ss: Seq<Seq<char>>,
    env: Map<Seq<char>, N>,
    v: N,
)
    requires
        identifier(id),
        !env.contains_key(id),
        ss.len() > 0,
        forall|i: int| 0 <= i < ss.len() ==> parse(#[trigger] ss[i], env.dom()) is Ok,
        (op == BinaryOp::Min && z == Constant::Infinity && spells(id, seq!['m', 'i', 'n'])) || (op
            == BinaryOp::Max && z == Constant::NegInfinity && spells(id, seq!['m', 'a', 'x'])),
        denotes(id + seq!['('] + listed(ss) + seq![')'], env, v),
    ensures
        exists|xs: Seq<N>, steps: Seq<N>| #[trigger]
            folded(op, xs, steps) && xs.len() == ss.len() && call_ensures(
                N::constant,
                (z,),
                steps[0],
            ) && v == steps.last() && forall|i: int|
                0 <= i < ss.len() ==> denotes(#[trigger] ss[i], env, xs[i]),
{
    reveal_strlit("min");
    reveal_strlit("max");
    assert("min"@ =~= seq!['m', 'i', 'n']);
    assert("max"@ =~= seq!['m', 'a', 'x']);
    let names = env.dom();
    let args = ss.map_values(|s: Seq<char>| parse(s, names)->Ok_0);
    law_calls(id, ss, args, names);
    assert(name_of(Function::Fold(op, z)) is Some);
    law_folded_value(op, z, args, env, v);
    let (xs, steps) = choose|xs: Seq<N>, steps: Seq<N>| #[trigger]
        folded(op, xs, steps) && xs.len() == args.len() && call_ensures(
            N::constant,
            (z,),
            steps[0],
        ) && v == steps.last() && forall|i: int|
            0 <= i < args.len() ==> evaluates(#[trigger] args[i], env, xs[i]);
    assert forall|i: int| 0 <= i < ss.len() implies denotes(#[trigger] ss[i], env, xs[i]) by {
        assert(evaluates(args[i], env, xs[i]));
    }
    assert(folded(op, xs, steps));
}

} // verus!
