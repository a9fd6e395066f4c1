//! Laws of text and tokens.
use vstd::prelude::*;

use crate::error::Fault;
use crate::grammar::parse;
use crate::lexer::{
    exponent_len, first_token, in_mantissa, in_name, lemma_first_token_len, mantissa_len, name_len,
    number_len, symbols, tokens, Symbol, Tok,
};
use crate::text::{
    blank, is_digit, is_space, lemma_span_bound, lemma_span_is, lemma_trim_end_is,
    lemma_trim_start_is, span, trim_end, trim_start, trimmed,
};

verus! {

/// The characters of a token.
pub open spec fn symbol_text(sym: Symbol) -> Seq<char> {
    match sym {
        Symbol::Num(s) => s,
        Symbol::Id(s) => s,
        Symbol::Op(c) => seq![c],
    }
}

/// The characters of tokens, one after the other.
pub open spec fn spelling(t: Seq<Symbol>) -> Seq<char>
    decreases t.len(),
{
    if t.len() == 0 {
        Seq::empty()
    } else {
        symbol_text(t[0]) + spelling(t.skip(1))
    }
}

/// `s` without its white space.
pub open spec fn dense(s: Seq<char>) -> Seq<char>
    decreases s.len(),
{
    if s.len() == 0 {
        s
    } else if is_space(s[0]) {
        dense(s.skip(1))
    } else {
        seq![s[0]] + dense(s.skip(1))
    }
}

/// Tokens lose and add nothing: they spell the text, but for its white space.
pub proof fn law_tokens_spell_the_text(s: Seq<char>)
    ensures
        tokens(s) matches Ok(t) ==> spelling(t) == dense(s),
    decreases s.len(),
{
    if s.len() == 0 {
    } else if is_space(s[0]) {
        law_tokens_spell_the_text(s.skip(1));
    } else if let Ok((sym, n)) = first_token(s) {
        lemma_first_token_len(s);
        law_tokens_spell_the_text(s.skip(n as int));
        lemma_first_token_text(s);
        lemma_dense_run(s, n as int);
        if let Ok(rest) = tokens(s.skip(n as int)) {
            let t = seq![sym] + rest;
            assert(t.skip(1) =~= rest);
            assert(t[0] == sym);
        }
    }
}

proof fn lemma_first_token_text(s: Seq<char>)
    requires
        s.len() > 0,
        !is_space(s[0]),
    ensures
        first_token(s) matches Ok((sym, n)) ==> symbol_text(sym) == s.take(n as int) && forall|
            i: int,
        |
            0 <= i < n ==> !is_space(#[trigger] s[i]),
{
    lemma_first_token_len(s);
    let m = mantissa_len(s) as int;
    lemma_span_bound(s, |c: char| in_mantissa(c));
    lemma_span_bound(s, |c: char| in_name(c));
    let t = s.skip(m);
    let k: int = if t.len() > 1 && (t[1] == '+' || t[1] == '-') {
        2
    } else {
        1
    };
    if t.len() > k {
        lemma_span_bound(t.skip(k), |c: char| is_digit(c));
    }
    if let Ok((sym, n)) = first_token(s) {
        assert forall|i: int| 0 <= i < n implies !is_space(#[trigger] s[i]) by {
            if in_mantissa(s[0]) {
                if i < m {
                    assert(in_mantissa(s[i]));
                } else {
                    assert(t[i - m] == s[i]);
                    if i - m >= k {
                        assert(t.skip(k)[i - m - k] == s[i]);
                    }
                }
            } else if in_name(s[0]) {
                assert(in_name(s[i]));
            }
        }
        if sym is Op {
            assert(seq![s[0]] =~= s.take(1));
        }
    }
}

proof fn lemma_dense_run(s: Seq<char>, n: int)
    requires
        0 <= n <= s.len(),
        forall|i: int| 0 <= i < n ==> !is_space(#[trigger] s[i]),
    ensures
        dense(s) == s.take(n) + dense(s.skip(n)),
    decreases n,
{
    if n == 0 {
        assert(s.skip(0) =~= s);
        assert(s.take(0) + dense(s) =~= dense(s));
    } else {
        let t = s.skip(1);
        assert forall|i: int| 0 <= i < n - 1 implies !is_space(#[trigger] t[i]) by {
            assert(t[i] == s[i + 1]);
        }
        lemma_dense_run(t, n - 1);
        assert(t.skip(n - 1) =~= s.skip(n));
        assert(seq![s[0]] + (t.take(n - 1) + dense(s.skip(n))) =~= s.take(n) + dense(s.skip(n)));
    }
}

/// A character that may stand in a name: a letter, a digit or an underscore.
pub open spec fn word(c: char) -> bool {
    'a' <= c <= 'z' || 'A' <= c <= 'Z' || '0' <= c <= '9' || c == '_'
}

/// A character at which whatever stands before it ends: no part of a name or of a numeral.
pub open spec fn parts(c: char) -> bool {
    !word(c) && c != '.' && c != '+' && c != '-'
}

/// Whether `a` ends where `c` follows: `c` parts tokens, or it is a sign that cannot be taken for
/// that of an exponent.
pub open spec fn cut(a: Seq<char>, c: char) -> bool {
    parts(c) || ((c == '+' || c == '-') && (a.len() > 0 ==> a.last() != 'e' && a.last() != 'E'))
}

/// The tokens of two texts one after the other, or the first fault among the two.
pub open spec fn followed(
    a: Result<Seq<Symbol>, Fault>,
    b: Result<Seq<Symbol>, Fault>,
) -> Result<Seq<Symbol>, Fault> {
    match a {
        Ok(ta) => match b {
            Ok(tb) => Ok(ta + tb),
            Err(f) => Err(f),
        },
        Err(f) => Err(f),
    }
}

/// A text can be cut where what stands before ends: it has the tokens of what stands before the cut
/// and those of what stands after it.
pub proof fn law_tokens_part(a: Seq<char>, c: char, b: Seq<char>)
    requires
        cut(a, c),
    ensures
        tokens(a + seq![c] + b) == followed(tokens(a), tokens(seq![c] + b)),
    decreases a.len(),
{
    let s = a + seq![c] + b;
    if a.len() == 0 {
        assert(s =~= seq![c] + b);
        if let Ok(tb) = tokens(s) {
            assert(Seq::<Symbol>::empty() + tb =~= tb);
        }
    } else {
        assert(s[0] == a[0]);
        if is_space(a[0]) {
            assert(a.len() > 1 ==> a.skip(1).last() == a.last());
            law_tokens_part(a.skip(1), c, b);
            assert(s.skip(1) =~= a.skip(1) + seq![c] + b);
        } else {
            lemma_first_token_stops(a, c, b);
            lemma_first_token_len(a);
            if let Ok((sym, n)) = first_token(a) {
                let rest = a.skip(n as int);
                assert(rest.len() > 0 ==> rest.last() == a.last());
                law_tokens_part(rest, c, b);
                assert(s.skip(n as int) =~= rest + seq![c] + b);
                if let (Ok(ta), Ok(tb)) = (tokens(rest), tokens(seq![c] + b)) {
                    assert(seq![sym] + (ta + tb) =~= (seq![sym] + ta) + tb);
                }
            }
        }
    }
}

/// White space separates: a text with a white-space character in it has the tokens of what stands
/// before it and then of what stands after it, or the first fault among the two.
pub proof fn law_white_space_separates(a: Seq<char>, c: char, b: Seq<char>)
    requires
        is_space(c),
    ensures
        tokens(a + seq![c] + b) == followed(tokens(a), tokens(b)),
{
    law_tokens_part(a, c, b);
    assert((seq![c] + b).skip(1) =~= b);
}

pub proof fn lemma_span_stops(a: Seq<char>, c: char, b: Seq<char>, p: spec_fn(char) -> bool)
    requires
        !p(c),
    ensures
        span(a + seq![c] + b, p) == span(a, p),
{
    let s = a + seq![c] + b;
    let n = span(a, p) as int;
    lemma_span_bound(a, p);
    assert forall|i: int| 0 <= i < n implies p(#[trigger] s[i]) by {
        assert(s[i] == a[i]);
    }
    if n < a.len() {
        assert(s[n] == a[n]);
    } else {
        assert(s[n] == c);
    }
    lemma_span_is(s, p, n);
}

proof fn lemma_exponent_stops(a: Seq<char>, c: char, b: Seq<char>)
    requires
        cut(a, c),
    ensures
        exponent_len(a + seq![c] + b) == exponent_len(a),
{
    let s = a + seq![c] + b;
    if a.len() == 0 {
        assert(s[0] == c);
    } else {
        assert(s[0] == a[0]);
        if a.len() == 1 {
            assert(s[1] == c);
        } else {
            assert(s[1] == a[1]);
            let k: int = if a[1] == '+' || a[1] == '-' {
                2
            } else {
                1
            };
            if a.len() == k {
                assert(s[k] == c);
            } else {
                assert(s[k] == a[k]);
                assert(s.skip(k) =~= a.skip(k) + seq![c] + b);
                lemma_span_stops(a.skip(k), c, b, |d: char| is_digit(d));
            }
        }
    }
}

proof fn lemma_first_token_stops(a: Seq<char>, c: char, b: Seq<char>)
    requires
        cut(a, c),
        a.len() > 0,
    ensures
        first_token(a + seq![c] + b) == first_token(a),
{
    let s = a + seq![c] + b;
    assert(s[0] == a[0]);
    lemma_first_token_len(a);
    lemma_span_stops(a, c, b, |d: char| in_mantissa(d));
    lemma_span_stops(a, c, b, |d: char| in_name(d));
    let m = mantissa_len(a) as int;
    assert(s.skip(m) =~= a.skip(m) + seq![c] + b);
    assert(a.skip(m).len() > 0 ==> a.skip(m).last() == a.last());
    lemma_exponent_stops(a.skip(m), c, b);
    assert(number_len(s) == number_len(a));
    assert(s.take(m) =~= a.take(m));
    assert(s.take(number_len(a) as int) =~= a.take(number_len(a) as int));
    assert(s.take(name_len(a) as int) =~= a.take(name_len(a) as int));
}

/// White space around an expression does not matter.
pub proof fn law_white_space_around(s: Seq<char>, names: Set<Seq<char>>)
    ensures
        parse(trimmed(s), names) == parse(s, names),
{
    let t = trim_start(s);
    let u = trim_end(t);
    lemma_trim_start_is(s);
    lemma_trim_end_is(t);
    lemma_leading_space(s, s.len() - t.len());
    lemma_trailing_space(t, u.len() as int);
    assert(tokens(u) == tokens(s));
    assert(blank(u) == blank(s)) by {
        let a = s.len() - t.len();
        if blank(u) {
            assert forall|i: int| 0 <= i < s.len() implies is_space(#[trigger] s[i]) by {
                if i >= a {
                    assert(t[i - a] == s[i]);
                    if i - a < u.len() {
                        assert(u[i - a] == s[i]);
                    }
                }
            }
        }
        if blank(s) {
            assert forall|i: int| 0 <= i < u.len() implies is_space(#[trigger] u[i]) by {
                assert(u[i] == s[i + a]);
            }
        }
    }
}

pub proof fn lemma_leading_space(s: Seq<char>, n: int)
    requires
        0 <= n <= s.len(),
        forall|i: int| 0 <= i < n ==> is_space(#[trigger] s[i]),
    ensures
        tokens(s.skip(n)) == tokens(s),
    decreases n,
{
    if n == 0 {
        assert(s.skip(0) =~= s);
    } else {
        let t = s.skip(1);
        assert forall|i: int| 0 <= i < n - 1 implies is_space(#[trigger] t[i]) by {
            assert(t[i] == s[i + 1]);
        }
        lemma_leading_space(t, n - 1);
        assert(t.skip(n - 1) =~= s.skip(n));
    }
}

pub proof fn lemma_trailing_space(s: Seq<char>, n: int)
    requires
        0 <= n <= s.len(),
        forall|i: int| n <= i < s.len() ==> is_space(#[trigger] s[i]),
    ensures
        tokens(s.take(n)) == tokens(s),
    decreases s.len() - n,
{
    if n == s.len() {
        assert(s.take(n) =~= s);
    } else {
        let a = s.drop_last();
        let c = s.last();
        assert(s =~= a + seq![c] + Seq::<char>::empty());
        law_white_space_separates(a, c, Seq::empty());
        if let Ok(ta) = tokens(a) {
            assert(ta + Seq::<Symbol>::empty() =~= ta);
        }
        assert forall|i: int| n <= i < a.len() implies is_space(#[trigger] a[i]) by {
            assert(a[i] == s[i]);
        }
        lemma_trailing_space(a, n);
        assert(a.take(n) =~= s.take(n));
    }
}

/// What contracts say of a token they say of its kind and all of its text.
pub proof fn law_tokens_are_seen_whole(toks: Seq<Tok>, i: int)
    requires
        0 <= i < toks.len(),
    ensures
        symbols(toks).len() == toks.len(),
        symbols(toks)[i] == (match toks[i] {
            Tok::Num(s) => Symbol::Num(s@),
            Tok::Id(s) => Symbol::Id(s@),
            Tok::Op(c) => Symbol::Op(c),
        }),
{
}

} // verus!
