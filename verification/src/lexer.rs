//! Source text to tokens.
use vstd::prelude::*;
use vstd::slice::slice_subrange;

use crate::error::{fault, Fault, SolverError};
use crate::text::{
    chars_of, digit, is_digit, is_letter, is_space, is_whitespace, join2, join3, lemma_span_bound,
    lemma_span_is, letter, span, string_of,
};

verus! {

/// A token as the lexer hands it on.
#[derive(Debug)]
pub enum Tok {
    /// A numeral, as it is written.
    Num(String),
    /// A name.
    Id(String),
    /// An operator, a parenthesis or a comma.
    Op(char),
}

/// A token as contracts speak of it.
pub enum Symbol {
    Num(Seq<char>),
    Id(Seq<char>),
    Op(char),
}

impl View for Tok {
    type V = Symbol;

    open spec fn view(&self) -> Symbol {
        match self {
            Tok::Num(s) => Symbol::Num(s@),
            Tok::Id(s) => Symbol::Id(s@),
            Tok::Op(c) => Symbol::Op(*c),
        }
    }
}

/// The tokens as contracts speak of them.
pub open spec fn symbols(toks: Seq<Tok>) -> Seq<Symbol> {
    toks.map_values(|t: Tok| t@)
}

/// The operators, the parentheses and the comma.
pub open spec fn is_op(c: char) -> bool {
    c == '+' || c == '-' || c == '*' || c == '/' || c == '%' || c == '^' || c == '(' || c == ')' || c
        == ','
}

/// A character of the digits-and-points part of a numeral.
pub open spec fn in_mantissa(c: char) -> bool {
    is_digit(c) || c == '.'
}

/// A character that a name may start with.
pub open spec fn starts_name(c: char) -> bool {
    is_letter(c) || c == '_'
}

/// A character that a name may go on with.
pub open spec fn in_name(c: char) -> bool {
    is_letter(c) || is_digit(c) || c == '_'
}

/// The length of the exponent at the start of `s`: `e` or `E`, perhaps a sign, and digits; zero
/// where there is none.
pub open spec fn exponent_len(s: Seq<char>) -> nat {
    let k: nat = if s.len() > 1 && (s[1] == '+' || s[1] == '-') {
        2
    } else {
        1
    };
    if s.len() > k && (s[0] == 'e' || s[0] == 'E') && is_digit(s[k as int]) {
        k + span(s.skip(k as int), |c: char| is_digit(c))
    } else {
        0
    }
}

/// The length of the digits and points at the start of `s`.
pub open spec fn mantissa_len(s: Seq<char>) -> nat {
    span(s, |c: char| in_mantissa(c))
}

/// The length of the numeral at the start of `s`.
pub open spec fn number_len(s: Seq<char>) -> nat {
    mantissa_len(s) + exponent_len(s.skip(mantissa_len(s) as int))
}

/// Digits and points that denote a number: at least one digit, and at most one point.
pub open spec fn denotes_number(m: Seq<char>) -> bool {
    &&& exists|i: int| 0 <= i < m.len() && is_digit(#[trigger] m[i])
    &&& forall|i: int, j: int|
        0 <= i < j < m.len() ==> !(#[trigger] m[i] == '.' && #[trigger] m[j] == '.')
}

/// The length of the name at the start of `s`.
pub open spec fn name_len(s: Seq<char>) -> nat {
    span(s, |c: char| in_name(c))
}

/// The token at the start of `s`, which starts with no white space, and its length.
pub open spec fn first_token(s: Seq<char>) -> Result<(Symbol, nat), Fault> {
    if in_mantissa(s[0]) {
        let text = s.take(number_len(s) as int);
        if denotes_number(s.take(mantissa_len(s) as int)) {
            Ok((Symbol::Num(text), number_len(s)))
        } else {
            Err(fault("EXPR_BAD_NUMBER", "bad number "@ + text))
        }
    } else if starts_name(s[0]) {
        Ok((Symbol::Id(s.take(name_len(s) as int)), name_len(s)))
    } else if is_op(s[0]) {
        Ok((Symbol::Op(s[0]), 1))
    } else {
        Err(fault("EXPR_BAD_CHAR", "unexpected character '"@ + seq![s[0]] + "'"@))
    }
}

/// The tokens of `s`, with the white space between them left out, or the first fault in it.
///
/// The test that a token takes at least one character, and no more than there are, always holds
/// (`lemma_first_token_len`); it makes the recursion well-founded.
pub open spec fn tokens(s: Seq<char>) -> Result<Seq<Symbol>, Fault>
    decreases s.len(),
{
    if s.len() == 0 {
        Ok(Seq::empty())
    } else if is_space(s[0]) {
        tokens(s.skip(1))
    } else {
        match first_token(s) {
            Ok((sym, n)) => if 0 < n <= s.len() {
                match tokens(s.skip(n as int)) {
                    Ok(rest) => Ok(seq![sym] + rest),
                    Err(f) => Err(f),
                }
            } else {
                Err(fault("EXPR_BAD_CHAR", Seq::empty()))
            },
            Err(f) => Err(f),
        }
    }
}

/// A token takes at least one character of the text, and no more than there are.
pub proof fn lemma_first_token_len(s: Seq<char>)
    requires
        s.len() > 0,
    ensures
        first_token(s) matches Ok((_, n)) ==> 0 < n <= s.len(),
        mantissa_len(s) <= number_len(s) <= s.len(),
        name_len(s) <= s.len(),
{
    let m = mantissa_len(s);
    lemma_span_bound(s, |c: char| in_mantissa(c));
    lemma_span_bound(s, |c: char| in_name(c));
    let t = s.skip(m as int);
    let k: int = if t.len() > 1 && (t[1] == '+' || t[1] == '-') {
        2
    } else {
        1
    };
    if t.len() > k {
        lemma_span_bound(t.skip(k), |c: char| is_digit(c));
    }
}

/// How far the digits and points run from `from` on.
fn mantissa_end(s: &[char], from: usize) -> (r: usize)
    requires
        from <= s@.len(),
    ensures
        from <= r <= s@.len(),
        r - from == mantissa_len(s@.skip(from as int)),
{
    let mut i: usize = from;
    while i < s.len() && (digit(s[i]) || s[i] == '.')
        invariant
            from <= i <= s@.len(),
            forall|j: int| from <= j < i ==> in_mantissa(#[trigger] s@[j]),
        decreases s@.len() - i,
    {
        i = i + 1;
    }
    proof {
        let t = s@.skip(from as int);
        lemma_span_is(t, |c: char| in_mantissa(c), i - from);
    }
    i
}

/// How far the digits run from `from` on.
fn digits_end(s: &[char], from: usize) -> (r: usize)
    requires
        from <= s@.len(),
    ensures
        from <= r <= s@.len(),
        r - from == span(s@.skip(from as int), |c: char| is_digit(c)),
{
    let mut i: usize = from;
    while i < s.len() && digit(s[i])
        invariant
            from <= i <= s@.len(),
            forall|j: int| from <= j < i ==> is_digit(#[trigger] s@[j]),
        decreases s@.len() - i,
    {
        i = i + 1;
    }
    proof {
        let t = s@.skip(from as int);
        lemma_span_is(t, |c: char| is_digit(c), i - from);
    }
    i
}

/// How far the characters of a name run from `from` on.
fn name_end(s: &[char], from: usize) -> (r: usize)
    requires
        from <= s@.len(),
    ensures
        from <= r <= s@.len(),
        r - from == name_len(s@.skip(from as int)),
{
    let mut i: usize = from;
    while i < s.len() && (letter(s[i]) || digit(s[i]) || s[i] == '_')
        invariant
            from <= i <= s@.len(),
            forall|j: int| from <= j < i ==> in_name(#[trigger] s@[j]),
        decreases s@.len() - i,
    {
        i = i + 1;
    }
    proof {
        let t = s@.skip(from as int);
        lemma_span_is(t, |c: char| in_name(c), i - from);
    }
    i
}

/// How far an exponent runs from `from` on; `from` itself where there is none.
fn exponent_end(s: &[char], from: usize) -> (r: usize)
    requires
        from <= s@.len(),
    ensures
        from <= r <= s@.len(),
        r - from == exponent_len(s@.skip(from as int)),
{
    let ghost t = s@.skip(from as int);
    let left: usize = s.len() - from;
    if left == 0 || !(s[from] == 'e' || s[from] == 'E') {
        return from;
    }
    let k: usize = if left > 1 && (s[from + 1] == '+' || s[from + 1] == '-') {
        2
    } else {
        1
    };
    if left > k && digit(s[from + k]) {
        let end: usize = digits_end(s, from + k);
        proof {
            assert(t.skip(k as int) =~= s@.skip(from + k));
        }
        end
    } else {
        from
    }
}

/// Whether the digits and points denote a number.
fn is_number(m: &[char]) -> (r: bool)
    ensures
        r == denotes_number(m@),
{
    let mut digits: bool = false;
    let mut point: bool = false;
    let mut i: usize = 0;
    while i < m.len()
        invariant
            i <= m@.len(),
            digits == (exists|j: int| 0 <= j < i && is_digit(#[trigger] m@[j])),
            point == (exists|j: int| 0 <= j < i && #[trigger] m@[j] == '.'),
            forall|j: int, k: int|
                0 <= j < k < i ==> !(#[trigger] m@[j] == '.' && #[trigger] m@[k] == '.'),
        decreases m@.len() - i,
    {
        let c = m[i];
        if c == '.' {
            if point {
                proof {
                    let j = choose|j: int| 0 <= j < i && #[trigger] m@[j] == '.';
                    assert(m@[j] == '.' && m@[i as int] == '.');
                }
                return false;
            }
            point = true;
            assert(m@[i as int] == '.');
        } else if digit(c) {
            digits = true;
            assert(is_digit(m@[i as int]));
        }
        i = i + 1;
    }
    digits
}

/// Splits an expression into tokens.
///
/// White space separates tokens and is dropped. A numeral is a run of digits and points, and an
/// exponent after it where one is complete; a name is a run of ASCII letters, digits and
/// underscores that starts with no digit.
#[verifier::spinoff_prover]
pub fn tokenize(src: &str) -> (r: Result<Vec<Tok>, SolverError>)
    ensures
        match r {
            Ok(toks) => tokens(src@) == Ok::<Seq<Symbol>, Fault>(symbols(toks@)),
            Err(e) => tokens(src@) == Err::<Seq<Symbol>, Fault>(e@),
        },
{
    let chars = chars_of(src);
    let s = chars.as_slice();
    let mut toks: Vec<Tok> = Vec::new();
    let mut i: usize = 0;
    proof {
        assert(s@.skip(0) =~= s@);
        assert(symbols(toks@) =~= Seq::<Symbol>::empty());
    }
    while i < s.len()
        invariant
            s@ == src@,
            i <= s@.len(),
            match tokens(s@.skip(i as int)) {
                Ok(rest) => tokens(src@) == Ok::<Seq<Symbol>, Fault>(symbols(toks@) + rest),
                Err(f) => tokens(src@) == Err::<Seq<Symbol>, Fault>(f),
            },
        decreases s@.len() - i,
    {
        let c = s[i];
        let ghost t = s@.skip(i as int);
        let ghost before = symbols(toks@);
        proof {
            lemma_first_token_len(t);
        }
        if is_whitespace(c) {
            i = i + 1;
            assert(t.skip(1) =~= s@.skip(i as int));
            continue;
        }
        let end: usize;
        let tok: Tok;
        if digit(c) || c == '.' {
            let m: usize = mantissa_end(s, i);
            assert(t.skip(m - i) =~= s@.skip(m as int));
            end = exponent_end(s, m);
            assert(s@.subrange(i as int, end as int) =~= t.take(end - i));
            assert(s@.subrange(i as int, m as int) =~= t.take(m - i));
            let num = string_of(slice_subrange(s, i, end));
            if !is_number(slice_subrange(s, i, m)) {
                let message = join2("bad number ", num.as_str());
                return Err(SolverError::new("EXPR_BAD_NUMBER", message.as_str()));
            }
            tok = Tok::Num(num);
        } else if letter(c) || c == '_' {
            end = name_end(s, i);
            assert(s@.subrange(i as int, end as int) =~= t.take(end - i));
            tok = Tok::Id(string_of(slice_subrange(s, i, end)));
        } else if c == '+' || c == '-' || c == '*' || c == '/' || c == '%' || c == '^' || c == '('
            || c == ')' || c == ',' {
            end = i + 1;
            tok = Tok::Op(c);
        } else {
            let mut shown = String::new();
            shown.push(c);
            assert(shown@ =~= seq![c]);
            let message = join3("unexpected character '", shown.as_str(), "'");
            return Err(SolverError::new("EXPR_BAD_CHAR", message.as_str()));
        }
        let ghost sym = tok@;
        toks.push(tok);
        proof {
            assert(first_token(t) == Ok::<(Symbol, nat), Fault>((sym, (end - i) as nat)));
            assert(t.skip(end - i) =~= s@.skip(end as int));
            assert(symbols(toks@) =~= before.push(sym));
            if let Ok(rest) = tokens(s@.skip(end as int)) {
                assert(before + (seq![sym] + rest) =~= symbols(toks@) + rest);
            }
        }
        i = end;
    }
    proof {
        assert(s@.skip(i as int) =~= Seq::<char>::empty());
        assert(symbols(toks@) + Seq::<Symbol>::empty() =~= symbols(toks@));
    }
    Ok(toks)
}

} // verus!
