//! Laws of the lines of a program.
use vstd::prelude::*;

use crate::error::Fault;
use crate::grammar::{evaluation, parse};
use crate::laws::lexing::{
    law_white_space_around, lemma_leading_space, lemma_span_stops, lemma_trailing_space,
};
use crate::lexer::tokens;
use crate::number::Real;
use crate::program::{
    assignment, expression_of, is_identifier, is_separator, line_len, program_yields, runs,
    statement, statements, Statement,
};
use crate::text::{
    blank, is_space, lemma_span_bound, lemma_span_is, lemma_trim_end_is, trim_end, trim_start,
    trimmed,
};

verus! {

/// A newline and a semicolon are alike: either ends a line, so that a program has the statements
/// of what stands before it and then those of what stands after it.
pub proof fn law_separators_split(a: Seq<char>, c: char, b: Seq<char>)
    requires
        c == '\n' || c == ';',
    ensures
        statements(a + seq![c] + b) == statements(a) + statements(b),
    decreases a.len(),
{
    let s = a + seq![c] + b;
    let n = line_len(a) as int;
    lemma_span_bound(a, |d: char| !is_separator(d));
    lemma_span_stops(a, c, b, |d: char| !is_separator(d));
    assert(s.take(n) =~= a.take(n));
    let line = trimmed(a.take(n));
    let head: Seq<Statement> = if line.len() == 0 {
        Seq::empty()
    } else {
        seq![statement(line)]
    };
    if n < a.len() {
        let rest = a.skip(n + 1);
        assert(s.skip(n + 1) =~= rest + seq![c] + b);
        law_separators_split(rest, c, b);
        assert(head + (statements(rest) + statements(b)) =~= (head + statements(rest))
            + statements(b));
    } else {
        assert(s.skip(n + 1) =~= b);
    }
}

/// A program that sets `result` to an expression, and does nothing else, has the outcomes of that
/// expression.
pub proof fn law_result_is_its_expression<N: Real>(e: Seq<char>, r: Result<N, Fault>)
    requires
        forall|i: int| 0 <= i < e.len() ==> #[trigger] e[i] != '\n' && e[i] != ';',
    ensures
        program_yields("result = "@ + e, r) == evaluation(e, Map::<Seq<char>, N>::empty(), r),
{
    let s = "result = "@ + e;
    let env = Map::<Seq<char>, N>::empty();
    reveal_strlit("result = ");
    assert(s[0] == 'r' && !is_space(s[0]));
    assert(!blank(s));
    lemma_result_line(e);
    let st = statements(s)[0];
    let text = expression_of(st);
    assert(parse(text, env.dom()) == parse(e, env.dom())) by {
        lemma_result_text(e, env.dom());
    }
    let none: Option<N> = None;
    assert(statements(s).skip(1) =~= Seq::<Statement>::empty());
    if evaluation(e, env, r) {
        assert(evaluation(text, env, r));
        assert(runs(statements(s), env, none, r));
    }
    if runs(statements(s), env, none, r) {
        let o = choose|o: Result<N, Fault>| #[trigger]
            evaluation(text, env, o) && match o {
                Err(f) => r == Err::<N, Fault>(f),
                Ok(v) => runs(statements(s).skip(1), env.insert("result"@, v), none, r),
            };
        assert(r == o);
    }
}

/// The line `result = e` without the white space at its end.
spec fn result_line(e: Seq<char>) -> Seq<char> {
    trim_end("result = "@ + e)
}

proof fn lemma_result_line(e: Seq<char>)
    requires
        forall|i: int| 0 <= i < e.len() ==> !is_separator(#[trigger] e[i]),
    ensures
        statements("result = "@ + e) == seq![
            Statement::Assign("result"@, trimmed(result_line(e).skip(8))),
        ],
{
    reveal_strlit("result = ");
    reveal_strlit("result");
    reveal_strlit("let ");
    let s = "result = "@ + e;
    let line = result_line(e);
    lemma_span_is(s, |d: char| !is_separator(d), s.len() as int);
    assert(s.take(s.len() as int) =~= s);
    assert(s[0] == 'r' && s[7] == '=');
    assert(trim_start(s) == s);
    lemma_trim_end_is(s);
    assert(line.len() > 7) by {
        if line.len() <= 7 {
            assert(is_space(s[7]));
        }
    }
    assert(line[0] == 'r' && line[7] == '=');
    assert(!"let "@.is_prefix_of(line)) by {
        if "let "@.is_prefix_of(line) {
            assert(line.subrange(0, 4)[0] == "let "@[0]);
        }
    }
    line.index_of_first_ensures('=');
    assert(line.contains('='));
    assert(line.index_of_first('=') == Some(7int)) by {
        let k = line.index_of_first('=').unwrap();
        assert(forall|i: int| 0 <= i < 7 ==> s[i] != '=');
        assert(k >= 7) by {
            if k < 7 {
                assert(line[k] == s[k]);
            }
        }
    }
    let name = line.take(7);
    assert(name =~= "result"@.push(' '));
    assert(trim_start(name) == name);
    assert(name.drop_last() =~= "result"@);
    assert(trim_end("result"@) == "result"@);
    assert(trimmed(name) == "result"@);
    assert(is_identifier("result"@));
    assert(statement(line) == assignment(line, 7));
    assert(statements(s) =~= seq![statement(line)]);
}

/// What is evaluated in `result = e` parses as `e` does.
proof fn lemma_result_text(e: Seq<char>, names: Set<Seq<char>>)
    ensures
        parse(trimmed(result_line(e).skip(8)), names) == parse(e, names),
{
    reveal_strlit("result = ");
    let s = "result = "@ + e;
    let line = result_line(e);
    let text = line.skip(8);
    let spaced = s.skip(8);
    lemma_trim_end_is(s);
    assert(s[7] == '=');
    assert(line.len() > 7) by {
        if line.len() <= 7 {
            assert(is_space(s[7]));
        }
    }
    let n = line.len() - 8;
    assert(text =~= spaced.take(n));
    assert(spaced[0] == ' ');
    assert(spaced.skip(1) =~= e);
    assert forall|i: int| n <= i < spaced.len() implies is_space(#[trigger] spaced[i]) by {
        assert(spaced[i] == s[i + 8]);
    }
    lemma_trailing_space(spaced, n);
    lemma_leading_space(spaced, 1);
    assert(tokens(text) == tokens(e));
    assert(blank(text) == blank(e)) by {
        if blank(text) {
            assert forall|i: int| 0 <= i < e.len() implies is_space(#[trigger] e[i]) by {
                assert(e[i] == spaced[i + 1]);
                if i + 1 < n {
                    assert(text[i + 1] == e[i]);
                }
            }
        }
        if blank(e) {
            assert forall|i: int| 0 <= i < text.len() implies is_space(#[trigger] text[i]) by {
                assert(text[i] == spaced[i]);
                if i > 0 {
                    assert(text[i] == e[i - 1]);
                }
            }
        }
    }
    law_white_space_around(text, names);
}

} // verus!
