//! Laws of evaluation, programs and checks.
use vstd::prelude::*;

use crate::check::{checked, substituted, within_tolerance};
use crate::error::{fault, Fault};
use crate::grammar::{atom, evaluates, evaluation, parse, Ast};
use crate::laws::nesting::{enclosed, law_parentheses, law_parenthesised_operands};
use crate::laws::precedence::{lemma_negated, lemma_operand};
use crate::lexer::{
    denotes_number, first_token, in_mantissa, mantissa_len, number_len, tokens, Symbol,
};
use crate::number::{
    is_binary, is_display, is_finiteness, is_literal, is_unary, BinaryOp, Real, UnaryOp,
};
use crate::program::{expression_of, program_yields, runs, statements, Statement};
use crate::text::{blank, is_space};

verus! {

/// What evaluates to a number evaluates to a finite one.
pub proof fn law_values_are_finite<N: Real>(src: Seq<char>, env: Map<Seq<char>, N>, v: N)
    requires
        evaluation(src, env, Ok::<N, Fault>(v)),
    ensures
        is_finiteness(v, true),
{
}

/// The answer of a program is finite.
pub proof fn law_answers_are_finite<N: Real>(src: Seq<char>, v: N)
    requires
        program_yields(src, Ok::<N, Fault>(v)),
    ensures
        is_finiteness(v, true),
{
    lemma_runs_finite(statements(src), Map::<Seq<char>, N>::empty(), None, v);
}

proof fn lemma_runs_finite<N: Real>(
    sts: Seq<Statement>,
    env: Map<Seq<char>, N>,
    last: Option<N>,
    v: N,
)
    requires
        runs(sts, env, last, Ok::<N, Fault>(v)),
        env.contains_key("result"@) ==> is_finiteness(env["result"@], true),
        last matches Some(w) ==> is_finiteness(w, true),
    ensures
        is_finiteness(v, true),
    decreases sts.len(),
{
    if sts.len() > 0 {
        let o = choose|o: Result<N, Fault>| #[trigger]
            evaluation(expression_of(sts[0]), env, o) && match o {
                Err(f) => Ok::<N, Fault>(v) == Err::<N, Fault>(f),
                Ok(w) => match sts[0] {
                    Statement::Assign(name, _) => runs(
                        sts.skip(1),
                        env.insert(name, w),
                        last,
                        Ok::<N, Fault>(v),
                    ),
                    Statement::Value(_) => runs(sts.skip(1), env, Some(w), Ok::<N, Fault>(v)),
                },
            };
        let w = o->Ok_0;
        law_values_are_finite(expression_of(sts[0]), env, w);
        match sts[0] {
            Statement::Assign(name, _) => lemma_runs_finite(
                sts.skip(1),
                env.insert(name, w),
                last,
                v,
            ),
            Statement::Value(_) => lemma_runs_finite(sts.skip(1), env, Some(w), v),
        }
    }
}

/// The value of a check is finite.
pub proof fn law_check_values_are_finite<N: Real>(src: Seq<char>, answer: N, v: N, passed: bool)
    requires
        checked(src, answer, Ok::<(N, bool), Fault>((v, passed))),
    ensures
        is_finiteness(v, true),
{
}

/// A program that sets no variable `result` and has no expression for a statement has no answer:
/// it ends with the fault of one of its expressions, or with `PROGRAM_NO_RESULT`.
pub proof fn law_no_result_no_answer<N: Real>(src: Seq<char>, r: Result<N, Fault>)
    requires
        program_yields(src, r),
        forall|i: int|
            0 <= i < statements(src).len() ==> (#[trigger] statements(src)[i] matches
                Statement::Assign(name, _) && name != "result"@),
    ensures
        r is Err,
{
    if !blank(src) {
        lemma_no_result(statements(src), Map::<Seq<char>, N>::empty(), r);
    }
}

proof fn lemma_no_result<N: Real>(
    sts: Seq<Statement>,
    env: Map<Seq<char>, N>,
    r: Result<N, Fault>,
)
    requires
        runs(sts, env, None, r),
        !env.contains_key("result"@),
        forall|i: int|
            0 <= i < sts.len() ==> (#[trigger] sts[i] matches Statement::Assign(name, _) && name
                != "result"@),
    ensures
        r is Err,
    decreases sts.len(),
{
    if sts.len() > 0 {
        let o = choose|o: Result<N, Fault>| #[trigger]
            evaluation(expression_of(sts[0]), env, o) && match o {
                Err(f) => r == Err::<N, Fault>(f),
                Ok(w) => match sts[0] {
                    Statement::Assign(name, _) => runs(
                        sts.skip(1),
                        env.insert(name, w),
                        None,
                        r,
                    ),
                    Statement::Value(_) => runs(sts.skip(1), env, Some(w), r),
                },
            };
        assert(sts[0] is Assign);
        if let Ok(w) = o {
            let name = sts[0]->Assign_0;
            assert(name != "result"@);
            assert forall|i: int| 0 <= i < sts.skip(1).len() implies (
            #[trigger] sts.skip(1)[i] matches Statement::Assign(name, _) && name
                != "result"@) by {
                assert(sts.skip(1)[i] == sts[i + 1]);
            }
            lemma_no_result(sts.skip(1), env.insert(name, w), r);
        }
    }
}

/// The variable `result` has the last word: statements after it that do not set it again do not
/// change the answer, whatever they evaluate to.
pub proof fn law_result_has_the_last_word<N: Real>(
    sts: Seq<Statement>,
    env: Map<Seq<char>, N>,
    last: Option<N>,
    v: N,
)
    requires
        runs(sts, env, last, Ok::<N, Fault>(v)),
        env.contains_key("result"@),
        forall|i: int|
            0 <= i < sts.len() ==> !(#[trigger] sts[i] matches Statement::Assign(name, _) && name
                == "result"@),
    ensures
        v == env["result"@],
    decreases sts.len(),
{
    if sts.len() > 0 {
        let r = Ok::<N, Fault>(v);
        let o = choose|o: Result<N, Fault>| #[trigger]
            evaluation(expression_of(sts[0]), env, o) && match o {
                Err(f) => r == Err::<N, Fault>(f),
                Ok(w) => match sts[0] {
                    Statement::Assign(name, _) => runs(
                        sts.skip(1),
                        env.insert(name, w),
                        last,
                        r,
                    ),
                    Statement::Value(_) => runs(sts.skip(1), env, Some(w), r),
                },
            };
        let w = o->Ok_0;
        assert forall|i: int| 0 <= i < sts.skip(1).len() implies !(
        #[trigger] sts.skip(1)[i] matches Statement::Assign(name, _) && name == "result"@) by {
            assert(sts.skip(1)[i] == sts[i + 1]);
        }
        match sts[0] {
            Statement::Assign(name, _) => {
                assert(name != "result"@);
                law_result_has_the_last_word(sts.skip(1), env.insert(name, w), last, v);
            },
            Statement::Value(_) => {
                law_result_has_the_last_word(sts.skip(1), env, Some(w), v);
            },
        }
    }
}

/// The first fault of a program ends it: what follows is not run and cannot change the outcome.
pub proof fn law_first_fault_ends<N: Real>(
    st: Statement,
    rest: Seq<Statement>,
    env: Map<Seq<char>, N>,
    last: Option<N>,
    f: Fault,
)
    requires
        evaluation(expression_of(st), env, Err::<N, Fault>(f)),
    ensures
        runs(seq![st] + rest, env, last, Err::<N, Fault>(f)),
{
    assert((seq![st] + rest)[0] == st);
}

/// A check without an opening brace is evaluated as it stands.
pub proof fn law_no_placeholder_no_change(s: Seq<char>, by: Seq<char>)
    requires
        !s.contains('{'),
    ensures
        substituted(s, by) == s,
    decreases s.len(),
{
    reveal_strlit("{x}");
    if s.len() > 0 {
        assert(s[0] != '{');
        if "{x}"@.is_prefix_of(s) {
            assert("{x}"@[0] == s.subrange(0, 3)[0]);
        }
        assert(!s.skip(1).contains('{')) by {
            assert forall|i: int| 0 <= i < s.skip(1).len() implies s.skip(1)[i] != '{' by {
                assert(s.skip(1)[i] == s[i + 1]);
            }
        }
        law_no_placeholder_no_change(s.skip(1), by);
        assert(seq![s[0]] + s.skip(1) =~= s);
    }
}

/// Each placeholder in a check is replaced, and what stands around it stays.
pub proof fn law_placeholder_is_replaced(before: Seq<char>, after: Seq<char>, by: Seq<char>)
    requires
        !before.contains('{'),
    ensures
        substituted(before + "{x}"@ + after, by) == before + by + substituted(after, by),
    decreases before.len(),
{
    reveal_strlit("{x}");
    let s = before + "{x}"@ + after;
    if before.len() == 0 {
        assert(s =~= "{x}"@ + after);
        assert(s.subrange(0, 3) =~= "{x}"@);
        assert(s.skip(3) =~= after);
        assert(before + by =~= by);
    } else {
        assert(s[0] == before[0]);
        assert(before[0] != '{');
        if "{x}"@.is_prefix_of(s) {
            assert("{x}"@[0] == s.subrange(0, 3)[0]);
        }
        let tail = before.skip(1);
        assert(!tail.contains('{')) by {
            assert forall|i: int| 0 <= i < tail.len() implies tail[i] != '{' by {
                assert(tail[i] == before[i + 1]);
            }
        }
        law_placeholder_is_replaced(tail, after, by);
        assert(s.skip(1) =~= tail + "{x}"@ + after);
        assert(seq![s[0]] + (tail + by + substituted(after, by)) =~= before + by + substituted(
            after,
            by,
        ));
    }
}

/// Whether `x` is read back from how it is written: any numeral for it is an expression without
/// variables, and evaluates to `x` and to nothing else.
pub open spec fn reads_back<N: Real>(x: N) -> bool {
    let env = Map::<Seq<char>, N>::empty();
    forall|shown: Seq<char>| #[trigger]
        is_display(x, shown) ==> (parse(shown, env.dom()) matches Ok(a) && forall|v: N| #[trigger]
            evaluates(a, env, v) ==> v == x)
}

/// Whether a text is one numeral.
pub open spec fn is_numeral(s: Seq<char>) -> bool {
    &&& s.len() > 0
    &&& in_mantissa(s[0])
    &&& number_len(s) == s.len()
    &&& denotes_number(s.take(mantissa_len(s) as int))
}

/// `shown` is a numeral that denotes `x` and no other number, or a minus and a numeral such that
/// what it denotes, negated, is `x` and no other number.
pub open spec fn denotes_only<N: Real>(shown: Seq<char>, x: N) -> bool {
    ||| is_numeral(shown) && forall|v: N| #[trigger] is_literal(shown, v) ==> v == x
    ||| exists|m: Seq<char>|
        is_numeral(m) && shown == #[trigger] (seq!['-'] + m) && forall|p: N, v: N|
            is_literal(m, p) && #[trigger] is_unary(UnaryOp::Neg, p, v) ==> v == x
}

/// A number that is written as a numeral which denotes it alone, perhaps with a minus before it,
/// is read back: the grammar adds nothing to what the numerals denote.
pub proof fn law_numerals_read_back<N: Real>(x: N)
    requires
        forall|shown: Seq<char>| #[trigger] is_display(x, shown) ==> denotes_only(shown, x),
    ensures
        reads_back(x),
{
    let env = Map::<Seq<char>, N>::empty();
    assert forall|shown: Seq<char>| #[trigger] is_display(x, shown) implies (parse(
        shown,
        env.dom(),
    ) matches Ok(a) && forall|v: N| #[trigger] evaluates(a, env, v) ==> v == x) by {
        assert(denotes_only(shown, x));
        if is_numeral(shown) && forall|v: N| #[trigger] is_literal(shown, v) ==> v == x {
            lemma_numeral_parses(shown, env.dom());
        } else {
            let m = choose|m: Seq<char>|
                is_numeral(m) && shown == #[trigger] (seq!['-'] + m) && forall|p: N, v: N|
                    is_literal(m, p) && #[trigger] is_unary(UnaryOp::Neg, p, v) ==> v == x;
            let num = Ast::Num(m);
            let neg = Ast::Unary(UnaryOp::Neg, Box::new(num));
            lemma_numeral_parses(m, env.dom());
            assert forall|v: N| #[trigger] evaluates(neg, env, v) implies v == x by {
                let p = choose|p: N| #[trigger]
                    is_unary(UnaryOp::Neg, p, v) && evaluates(num, env, p);
                assert(is_literal(m, p));
            }
        }
    }
}

/// A numeral is an expression, and so is a minus before it.
pub proof fn lemma_numeral_parses(m: Seq<char>, names: Set<Seq<char>>)
    requires
        is_numeral(m),
    ensures
        parse(m, names) == Ok::<Ast, Fault>(Ast::Num(m)),
        parse(seq!['-'] + m, names) == Ok::<Ast, Fault>(
            Ast::Unary(UnaryOp::Neg, Box::new(Ast::Num(m))),
        ),
{
    let t = seq![Symbol::Num(m)];
    assert(!is_space(m[0]));
    assert(m.take(m.len() as int) =~= m);
    assert(m.skip(m.len() as int) =~= Seq::<char>::empty());
    assert(tokens(m.skip(m.len() as int)) == Ok::<Seq<Symbol>, Fault>(Seq::empty()));
    assert(t + Seq::<Symbol>::empty() =~= t);
    assert(tokens(m) == Ok::<Seq<Symbol>, Fault>(t));
    assert(atom(t, 0, names) == Ok::<(Ast, int), Fault>((Ast::Num(m), 1)));
    lemma_operand(Ast::Num(m), t, 0, 1, names);
    let s = seq!['-'] + m;
    let u = seq![Symbol::Op('-')] + t;
    assert(s[0] == '-' && !is_space(s[0]));
    assert(s.skip(1) =~= m);
    assert(first_token(s) == Ok::<(Symbol, nat), Fault>((Symbol::Op('-'), 1)));
    assert(tokens(s) == Ok::<Seq<Symbol>, Fault>(u));
    assert(u[1] == Symbol::Num(m));
    assert(atom(u, 1, names) == Ok::<(Ast, int), Fault>((Ast::Num(m), 2)));
    lemma_negated(Ast::Num(m), u, 0, 2, names);
}

/// The fault of a value that is not finite.
pub open spec fn non_finite() -> Fault {
    fault("EXPR_NON_FINITE", "expression evaluated to non-finite value"@)
}

/// Writing an answer into a check and reading it again loses nothing: the check `{x}` of a number
/// that is read back from how it is written has that number for its value, and fails only where
/// the number is not finite.
pub proof fn law_answer_reads_back<N: Real>(x: N, r: Result<(N, bool), Fault>)
    requires
        reads_back(x),
        checked("{x}"@, x, r),
    ensures
        match r {
            Ok((v, passed)) => v == x && within_tolerance(x, x, passed),
            Err(f) => f == non_finite() && is_finiteness(x, false),
        },
        !is_finiteness(x, false) ==> r is Ok,
{
    let env = Map::<Seq<char>, N>::empty();
    let (shown, o) = choose|shown: Seq<char>, o: Result<N, Fault>| #[trigger]
        is_display(x, shown) && #[trigger] evaluation(
            substituted("{x}"@, "("@ + shown + ")"@),
            env,
            o,
        ) && match o {
            Ok(value) => r matches Ok((v, passed)) && v == value && within_tolerance(
                value,
                x,
                passed,
            ),
            Err(f) => r == Err::<(N, bool), Fault>(f),
        };
    let by = "("@ + shown + ")"@;
    lemma_quoted(shown);
    lemma_lone_placeholder(by);
    law_parentheses(shown, env.dom());
}

/// A check that takes the answer from itself comes to that difference, of a number that is read
/// back from how it is written, and fails only where the difference is not finite.
pub proof fn law_answer_less_itself<N: Real>(x: N, r: Result<(N, bool), Fault>)
    requires
        reads_back(x),
        checked("{x} - {x}"@, x, r),
    ensures
        match r {
            Ok((v, passed)) => is_binary(BinaryOp::Sub, x, x, v) && within_tolerance(v, x, passed),
            Err(f) => f == non_finite() && exists|v: N| #[trigger]
                is_binary(BinaryOp::Sub, x, x, v) && is_finiteness(v, false),
        },
{
    let env = Map::<Seq<char>, N>::empty();
    let (shown, o) = choose|shown: Seq<char>, o: Result<N, Fault>| #[trigger]
        is_display(x, shown) && #[trigger] evaluation(
            substituted("{x} - {x}"@, "("@ + shown + ")"@),
            env,
            o,
        ) && match o {
            Ok(value) => r matches Ok((v, passed)) && v == value && within_tolerance(
                value,
                x,
                passed,
            ),
            Err(f) => r == Err::<(N, bool), Fault>(f),
        };
    let by = "("@ + shown + ")"@;
    let between = seq![' ', '-', ' '];
    lemma_quoted(shown);
    assert(substituted("{x} - {x}"@, by) == by + between + by) by {
        reveal_strlit("{x} - {x}");
        reveal_strlit("{x}");
        assert("{x} - {x}"@ =~= Seq::<char>::empty() + "{x}"@ + (between + "{x}"@));
        law_placeholder_is_replaced(Seq::empty(), between + "{x}"@, by);
        assert(between + "{x}"@ =~= between + "{x}"@ + Seq::<char>::empty());
        law_placeholder_is_replaced(between, Seq::empty(), by);
        assert(Seq::<char>::empty() + by + (between + by + Seq::<char>::empty()) =~= by + between
            + by);
    }
    let space = seq![' '];
    assert(by + between + by =~= by + space + seq!['-'] + space + by);
    law_parenthesised_operands(BinaryOp::Sub, shown, space, space, shown, env.dom());
    let a = parse(shown, env.dom())->Ok_0;
    let both = Ast::Binary(BinaryOp::Sub, Box::new(a), Box::new(a));
    assert forall|v: N| #[trigger] evaluates(both, env, v) implies is_binary(
        BinaryOp::Sub,
        x,
        x,
        v,
    ) by {
        let (p, q) = choose|p: N, q: N| #[trigger]
            is_binary(BinaryOp::Sub, p, q, v) && evaluates(a, env, p) && evaluates(a, env, q);
        assert(p == x && q == x);
    }
}

proof fn lemma_quoted(shown: Seq<char>)
    ensures
        "("@ + shown + ")"@ == enclosed(shown),
{
    reveal_strlit("(");
    reveal_strlit(")");
    assert("("@ =~= seq!['(']);
    assert(")"@ =~= seq![')']);
}

proof fn lemma_lone_placeholder(by: Seq<char>)
    ensures
        substituted("{x}"@, by) == by,
{
    let none = Seq::<char>::empty();
    assert("{x}"@ =~= none + "{x}"@ + none);
    law_placeholder_is_replaced(none, none, by);
    assert(none + by + none =~= by);
}

} // verus!
