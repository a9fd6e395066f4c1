//! Checks: expressions that an answer must bring to zero.
use vstd::prelude::*;
use vstd::slice::slice_subrange;
use vstd::string::*;

use crate::error::{outcome, Fault, SolverError};
use crate::eval::eval_expression;
use crate::grammar::evaluation;
use crate::number::{
    is_at_most, is_binary, is_display, is_literal, is_unary, BinaryOp, Real, UnaryOp,
};
use crate::text::{chars_of, join3, starts_with};

verus! {

/// `s` with each placeholder `{x}`, from the left, replaced by `by`.
pub open spec fn substituted(s: Seq<char>, by: Seq<char>) -> Seq<char>
    decreases s.len(),
{
    if s.len() == 0 {
        s
    } else if "{x}"@.is_prefix_of(s) {
        proof {
            reveal_strlit("{x}");
        }
        by + substituted(s.skip(3), by)
    } else {
        seq![s[0]] + substituted(s.skip(1), by)
    }
}

/// `passed` tells whether `value` is zero up to a millionth of the answer, or of one where the
/// answer is smaller: `|value| <= 1e-6 * max(|answer|, 1)`.
pub open spec fn within_tolerance<N: Real>(value: N, answer: N, passed: bool) -> bool {
    exists|size: N, limit: N| #[trigger]
        is_at_most(size, limit, passed) && is_unary(UnaryOp::Abs, value, size) && is_limit(
            answer,
            limit,
        )
}

/// `limit` is how far from zero a check of `answer` may be.
pub open spec fn is_limit<N: Real>(answer: N, limit: N) -> bool {
    exists|rate: N, size: N, one: N, scale: N| #[trigger]
        is_binary(BinaryOp::Mul, rate, scale, limit) && is_literal("1e-6"@, rate) && #[trigger]
        is_binary(BinaryOp::Max, size, one, scale) && is_unary(UnaryOp::Abs, answer, size)
            && is_literal("1"@, one)
}

/// `r` is the outcome of checking `answer` by `src`: the value of `src` with the answer put in
/// for the placeholder, and whether that is close enough to zero; or the fault in it.
pub open spec fn checked<N: Real>(src: Seq<char>, answer: N, r: Result<(N, bool), Fault>) -> bool {
    exists|shown: Seq<char>, o: Result<N, Fault>| #[trigger]
        is_display(answer, shown) && #[trigger] evaluation(
            substituted(src, "("@ + shown + ")"@),
            Map::<Seq<char>, N>::empty(),
            o,
        ) && match o {
            Ok(value) => r matches Ok((v, passed)) && v == value && within_tolerance(
                value,
                answer,
                passed,
            ),
            Err(f) => r == Err::<(N, bool), Fault>(f),
        }
}

/// `src` with each placeholder `{x}` replaced by `by`.
pub fn substitute(src: &str, by: &str) -> (r: String)
    ensures
        r@ == substituted(src@, by@),
{
    let chars = chars_of(src);
    let s = chars.as_slice();
    let mut out = String::new();
    let mut i: usize = 0;
    proof {
        reveal_strlit("{x}");
        assert(s@.skip(0) =~= s@);
        assert(out@ + substituted(s@, by@) =~= substituted(s@, by@));
    }
    while i < s.len()
        invariant
            s@ == src@,
            i <= s@.len(),
            "{x}"@.len() == 3,
            out@ + substituted(s@.skip(i as int), by@) == substituted(src@, by@),
        decreases s@.len() - i,
    {
        let rest = slice_subrange(s, i, s.len());
        let ghost before = out@;
        assert(rest@ =~= s@.skip(i as int));
        if starts_with(rest, "{x}") {
            assert(3 <= rest@.len());
            out.append(by);
            i = i + 3;
            proof {
                assert(rest@.skip(3) =~= s@.skip(i as int));
                let tail = substituted(s@.skip(i as int), by@);
                assert(before + (by@ + tail) =~= out@ + tail);
            }
        } else {
            out.push(s[i]);
            i = i + 1;
            proof {
                assert(rest@.skip(1) =~= s@.skip(i as int));
                let tail = substituted(s@.skip(i as int), by@);
                assert(before + (seq![s@[i - 1]] + tail) =~= out@ + tail);
            }
        }
    }
    assert(out@ + Seq::<char>::empty() =~= out@);
    out
}

/// Whether `value` is close enough to zero for a check of `answer`.
pub fn passes<N: Real>(value: N, answer: N) -> (r: bool)
    ensures
        within_tolerance(value, answer, r),
{
    let size = N::unary(UnaryOp::Abs, answer);
    let one = N::literal("1");
    let scale = N::binary(BinaryOp::Max, size, one);
    let rate = N::literal("1e-6");
    let limit = N::binary(BinaryOp::Mul, rate, scale);
    let distance = N::unary(UnaryOp::Abs, value);
    let r = N::at_most(distance, limit);
    proof {
        assert(is_literal("1"@, one));
        assert(is_literal("1e-6"@, rate));
        assert(is_binary(BinaryOp::Mul, rate, scale, limit));
        assert(is_binary(BinaryOp::Max, size, one, scale));
        assert(is_limit(answer, limit));
        assert(is_at_most(distance, limit, r));
    }
    r
}

/// Puts the answer in for the placeholder `{x}` of a check and evaluates it: its value, and
/// whether that is close enough to zero.
pub fn run_check<N: Real>(check_src: &str, answer: N) -> (r: Result<(N, bool), SolverError>)
    ensures
        checked(check_src@, answer, outcome(r)),
{
    let shown = N::display(answer);
    let quoted = join3("(", shown.as_str(), ")");
    let src = substitute(check_src, quoted.as_str());
    assert(is_display(answer, shown@));
    match eval_expression::<N>(src.as_str()) {
        Ok(value) => {
            assert(evaluation(src@, Map::<Seq<char>, N>::empty(), Ok::<N, Fault>(value)));
            let passed = passes(value, answer);
            Ok((value, passed))
        },
        Err(e) => {
            assert(evaluation(src@, Map::<Seq<char>, N>::empty(), Err::<N, Fault>(e@)));
            Err(e)
        },
    }
}

} // verus!
