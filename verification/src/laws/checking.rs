//! Laws of checks: what is put in for the placeholder, and when a check passes.
use vstd::prelude::*;

use crate::check::{checked, is_limit, substituted, within_tolerance};
use crate::error::Fault;
use crate::grammar::evaluation;
use crate::number::{
    is_at_most, is_binary, is_display, is_literal, is_unary, BinaryOp, Real, UnaryOp,
};

verus! {

/// The absolute value of a real number.
pub open spec fn magnitude(x: real) -> real {
    if x < 0real {
        0real - x
    } else {
        x
    }
}

/// The verdict on a check compares the absolute value of the check with the product of `1e-6` and
/// the greater of the absolute value of the answer and `1`, each as the number type has it, and
/// with nothing else.
pub proof fn law_verdict<N: Real>(value: N, answer: N, passed: bool)
    requires
        within_tolerance(value, answer, passed),
    ensures
        exists|distance: N, limit: N| #[trigger]
            call_ensures(N::at_most, (distance, limit), passed) && call_ensures(
                N::unary,
                (UnaryOp::Abs, value),
                distance,
            ) && exists|rate: N, scale: N, rate_text: &str|
                rate_text@ == "1e-6"@ && #[trigger] call_ensures(N::literal, (rate_text,), rate)
                    && #[trigger] call_ensures(N::binary, (BinaryOp::Mul, rate, scale), limit)
                    && exists|size: N, one: N, one_text: &str|
                    one_text@ == "1"@ && #[trigger] call_ensures(N::literal, (one_text,), one)
                        && #[trigger] call_ensures(N::binary, (BinaryOp::Max, size, one), scale)
                        && call_ensures(N::unary, (UnaryOp::Abs, answer), size),
{
    let (distance, limit) = choose|distance: N, limit: N| #[trigger]
        is_at_most(distance, limit, passed) && is_unary(UnaryOp::Abs, value, distance) && is_limit(
            answer,
            limit,
        );
    let (rate, size, one, scale) = choose|rate: N, size: N, one: N, scale: N| #[trigger]
        is_binary(BinaryOp::Mul, rate, scale, limit) && is_literal("1e-6"@, rate) && #[trigger]
        is_binary(BinaryOp::Max, size, one, scale) && is_unary(UnaryOp::Abs, answer, size)
            && is_literal("1"@, one);
    let rate_text = choose|s: &str| s@ == "1e-6"@ && #[trigger] call_ensures(N::literal, (s,), rate);
    let one_text = choose|s: &str| s@ == "1"@ && #[trigger] call_ensures(N::literal, (s,), one);
    assert(call_ensures(N::literal, (one_text,), one));
    assert(call_ensures(N::binary, (BinaryOp::Max, size, one), scale));
    assert(call_ensures(N::literal, (rate_text,), rate));
    assert(call_ensures(N::binary, (BinaryOp::Mul, rate, scale), limit));
    assert(call_ensures(N::at_most, (distance, limit), passed));
}

/// In a number type whose operations are those of the real numbers, a check passes exactly where
/// its absolute value is at most a millionth of the greater of the absolute value of the answer
/// and one.
pub proof fn law_verdict_over_the_reals<N: Real>(
    value: N,
    answer: N,
    passed: bool,
    val: spec_fn(N) -> real,
)
    requires
        within_tolerance(value, answer, passed),
        forall|x: N, v: N| #[trigger]
            call_ensures(N::unary, (UnaryOp::Abs, x), v) ==> val(v) == magnitude(val(x)),
        forall|x: N, y: N, v: N| #[trigger]
            call_ensures(N::binary, (BinaryOp::Mul, x, y), v) ==> val(v) == val(x) * val(y),
        forall|x: N, y: N, v: N| #[trigger]
            call_ensures(N::binary, (BinaryOp::Max, x, y), v) ==> val(v) == if val(x) < val(y) {
                val(y)
            } else {
                val(x)
            },
        forall|x: N, y: N, b: bool| #[trigger]
            call_ensures(N::at_most, (x, y), b) ==> b == (val(x) <= val(y)),
        forall|text: &str, v: N| #[trigger]
            call_ensures(N::literal, (text,), v) && text@ == "1"@ ==> val(v) == 1real,
        forall|text: &str, v: N| #[trigger]
            call_ensures(N::literal, (text,), v) && text@ == "1e-6"@ ==> val(v) * 1000000real
                == 1real,
    ensures
        passed <==> magnitude(val(value)) * 1000000real <= (if magnitude(val(answer)) < 1real {
            1real
        } else {
            magnitude(val(answer))
        }),
{
    law_verdict(value, answer, passed);
    let (distance, limit) = choose|distance: N, limit: N| #[trigger]
        call_ensures(N::at_most, (distance, limit), passed) && call_ensures(
            N::unary,
            (UnaryOp::Abs, value),
            distance,
        ) && exists|rate: N, scale: N, rate_text: &str|
            rate_text@ == "1e-6"@ && #[trigger] call_ensures(N::literal, (rate_text,), rate)
                && #[trigger] call_ensures(N::binary, (BinaryOp::Mul, rate, scale), limit)
                && exists|size: N, one: N, one_text: &str|
                one_text@ == "1"@ && #[trigger] call_ensures(N::literal, (one_text,), one)
                    && #[trigger] call_ensures(N::binary, (BinaryOp::Max, size, one), scale)
                    && call_ensures(N::unary, (UnaryOp::Abs, answer), size);
    let (rate, scale, rate_text) = choose|rate: N, scale: N, rate_text: &str|
        rate_text@ == "1e-6"@ && #[trigger] call_ensures(N::literal, (rate_text,), rate)
            && #[trigger] call_ensures(N::binary, (BinaryOp::Mul, rate, scale), limit) && exists|
            size: N,
            one: N,
            one_text: &str,
        |
            one_text@ == "1"@ && #[trigger] call_ensures(N::literal, (one_text,), one)
                && #[trigger] call_ensures(N::binary, (BinaryOp::Max, size, one), scale)
                && call_ensures(N::unary, (UnaryOp::Abs, answer), size);
    let (size, one, one_text) = choose|size: N, one: N, one_text: &str|
        one_text@ == "1"@ && #[trigger] call_ensures(N::literal, (one_text,), one)
            && #[trigger] call_ensures(N::binary, (BinaryOp::Max, size, one), scale)
            && call_ensures(N::unary, (UnaryOp::Abs, answer), size);
    let (r, m) = (val(rate), val(scale));
    assert(val(limit) == r * m);
    assert(r * m * 1000000real == m) by (nonlinear_arith)
        requires
            r * 1000000real == 1real,
    ;
}

/// A placeholder anywhere in a check is replaced; what stands before it and after it is treated as
/// if it stood alone.
pub proof fn law_every_placeholder_is_replaced(a: Seq<char>, b: Seq<char>, by: Seq<char>)
    ensures
        substituted(a + seq!['{', 'x', '}'] + b, by) == substituted(a, by) + by + substituted(b, by),
    decreases a.len(),
{
    reveal_strlit("{x}");
    let mark = seq!['{', 'x', '}'];
    assert("{x}"@ =~= mark);
    let s = a + mark + b;
    if a.len() == 0 {
        assert(s.subrange(0, 3) =~= mark);
        assert(s.skip(3) =~= b);
        assert(substituted(a, by) =~= a);
        assert(a + by + substituted(b, by) =~= by + substituted(b, by));
    } else if mark.is_prefix_of(s) {
        assert(s.subrange(0, 3)[1] == mark[1] && s.subrange(0, 3)[2] == mark[2]);
        assert(s[1] == 'x' && s[2] == '}');
        assert(a.len() >= 3);
        assert(a.subrange(0, 3) =~= s.subrange(0, 3));
        law_every_placeholder_is_replaced(a.skip(3), b, by);
        assert(s.skip(3) =~= a.skip(3) + mark + b);
        assert(by + (substituted(a.skip(3), by) + by + substituted(b, by)) =~= (by + substituted(
            a.skip(3),
            by,
        )) + by + substituted(b, by));
    } else {
        assert(!mark.is_prefix_of(a)) by {
            if mark.is_prefix_of(a) {
                assert(a.subrange(0, 3) =~= s.subrange(0, 3));
            }
        }
        law_every_placeholder_is_replaced(a.skip(1), b, by);
        assert(s.skip(1) =~= a.skip(1) + mark + b);
        assert(seq![a[0]] + (substituted(a.skip(1), by) + by + substituted(b, by)) =~= (seq![a[0]]
            + substituted(a.skip(1), by)) + by + substituted(b, by));
    }
}

/// A text in which no placeholder stands is left as it is.
pub proof fn law_nothing_else_is_replaced(s: Seq<char>, by: Seq<char>)
    requires
        forall|i: int|
            0 <= i && i + 2 < s.len() ==> !(#[trigger] s[i] == '{' && s[i + 1] == 'x' && s[i + 2]
                == '}'),
    ensures
        substituted(s, by) == s,
    decreases s.len(),
{
    reveal_strlit("{x}");
    if s.len() > 0 {
        if "{x}"@.is_prefix_of(s) {
            let p = s.subrange(0, 3);
            assert(p[0] == '{' && p[1] == 'x' && p[2] == '}');
            assert(s[0] == '{' && s[1] == 'x' && s[2] == '}');
        }
        let t = s.skip(1);
        assert forall|i: int| 0 <= i && i + 2 < t.len() implies !(#[trigger] t[i] == '{' && t[i + 1]
            == 'x' && t[i + 2] == '}') by {
            assert(t[i] == s[i + 1] && t[i + 1] == s[i + 2] && t[i + 2] == s[i + 3]);
        }
        law_nothing_else_is_replaced(t, by);
        assert(seq![s[0]] + t =~= s);
    }
}

/// A check is evaluated with the answer, as the number type writes it, in parentheses for each
/// placeholder and with no variables; its value and the verdict on that value are what it comes
/// to, or its fault.
pub proof fn law_checks_are_evaluated<N: Real>(
    src: Seq<char>,
    answer: N,
    r: Result<(N, bool), Fault>,
)
    requires
        checked(src, answer, r),
    ensures
        exists|shown: String, o: Result<N, Fault>| #[trigger]
            call_ensures(N::display, (answer,), shown) && #[trigger] evaluation(
                substituted(src, seq!['('] + shown@ + seq![')']),
                Map::<Seq<char>, N>::empty(),
                o,
            ) && match (o, r) {
                (Ok(value), Ok((v, passed))) => v == value && within_tolerance(v, answer, passed),
                (Err(f), Err(g)) => f == g,
                _ => false,
            },
{
    reveal_strlit("(");
    reveal_strlit(")");
    assert("("@ =~= seq!['(']);
    assert(")"@ =~= seq![')']);
    let (text, o) = choose|text: Seq<char>, o: Result<N, Fault>| #[trigger]
        is_display(answer, text) && #[trigger] evaluation(
            substituted(src, "("@ + text + ")"@),
            Map::<Seq<char>, N>::empty(),
            o,
        ) && match o {
            Ok(value) => r matches Ok((v, passed)) && v == value && within_tolerance(
                value,
                answer,
                passed,
            ),
            Err(f) => r == Err::<(N, bool), Fault>(f),
        };
    let shown = choose|s: String| s@ == text && #[trigger] call_ensures(N::display, (answer,), s);
    assert(call_ensures(N::display, (answer,), shown));
    assert(evaluation(
        substituted(src, seq!['('] + shown@ + seq![')']),
        Map::<Seq<char>, N>::empty(),
        o,
    ));
}

} // verus!
