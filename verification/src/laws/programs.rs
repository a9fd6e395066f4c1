//! Laws of programs: how a line is read, and what each statement does.
use vstd::prelude::*;

use crate::error::Fault;
use crate::grammar::evaluation;
use crate::laws::atoms::identifier;
use crate::laws::lexing::{law_white_space_around, word};
use crate::laws::lines::law_separators_split;
use crate::laws::values::{law_texts_evaluate_to_their_values, law_value_of_name};
use crate::number::Real;
use crate::program::{
    expression_of, program_yields, runs, statement, statements, Line, Statement,
};
use crate::text::{
    blank, is_alnum, is_alpha, is_space, lemma_span_is, lemma_trim_end_is, lemma_trim_start_is,
    trim_end, trim_start, trimmed,
};

verus! {

/// After an assignment the rest of the program runs with the name set to the value just computed,
/// whether or not it was set before, and with everything else as it was.
pub proof fn law_assignment<N: Real>(
    name: Seq<char>,
    e: Seq<char>,
    rest: Seq<Statement>,
    env: Map<Seq<char>, N>,
    last: Option<N>,
    r: Result<N, Fault>,
)
    requires
        runs(seq![Statement::Assign(name, e)] + rest, env, last, r),
    ensures
        exists|o: Result<N, Fault>| #[trigger]
            evaluation(e, env, o) && match o {
                Err(f) => r == Err::<N, Fault>(f),
                Ok(v) => exists|after: Map<Seq<char>, N>| #[trigger]
                    runs(rest, after, last, r) && after.contains_pair(name, v) && (forall|
                        other: Seq<char>,
                    |
                        other != name ==> (#[trigger] after.contains_key(other)
                            == env.contains_key(other))) && (forall|other: Seq<char>|
                        other != name && env.contains_key(other) ==> #[trigger] after[other]
                            == env[other]),
            },
{
    let sts = seq![Statement::Assign(name, e)] + rest;
    assert(sts.skip(1) =~= rest);
    let o = choose|o: Result<N, Fault>| #[trigger]
        evaluation(expression_of(sts[0]), env, o) && match o {
            Err(f) => r == Err::<N, Fault>(f),
            Ok(v) => match sts[0] {
                Statement::Assign(name, _) => runs(sts.skip(1), env.insert(name, v), last, r),
                Statement::Value(_) => runs(sts.skip(1), env, Some(v), r),
            },
        };
    assert(evaluation(e, env, o));
    if let Ok(v) = o {
        let after = env.insert(name, v);
        assert(runs(rest, after, last, r));
    }
}

/// An expression on a line of its own changes no variable; its value is what the program has in
/// hand when no variable `result` is set.
pub proof fn law_expression_statement<N: Real>(
    e: Seq<char>,
    rest: Seq<Statement>,
    env: Map<Seq<char>, N>,
    last: Option<N>,
    r: Result<N, Fault>,
)
    requires
        runs(seq![Statement::Value(e)] + rest, env, last, r),
    ensures
        exists|o: Result<N, Fault>| #[trigger]
            evaluation(e, env, o) && match o {
                Err(f) => r == Err::<N, Fault>(f),
                Ok(v) => runs(rest, env, Some(v), r),
            },
{
    let sts = seq![Statement::Value(e)] + rest;
    assert(sts.skip(1) =~= rest);
    let o = choose|o: Result<N, Fault>| #[trigger]
        evaluation(expression_of(sts[0]), env, o) && match o {
            Err(f) => r == Err::<N, Fault>(f),
            Ok(v) => match sts[0] {
                Statement::Assign(name, _) => runs(sts.skip(1), env.insert(name, v), last, r),
                Statement::Value(_) => runs(sts.skip(1), env, Some(v), r),
            },
        };
    assert(evaluation(e, env, o));
}

/// At its end a program answers with the variable `result`, or else with the value in hand, or
/// else with the fault that there is no result.
pub proof fn law_end_of_program<N: Real>(
    env: Map<Seq<char>, N>,
    last: Option<N>,
    r: Result<N, Fault>,
)
    requires
        runs(Seq::<Statement>::empty(), env, last, r),
    ensures
        env.contains_key("result"@) ==> r == Ok::<N, Fault>(env["result"@]),
        !env.contains_key("result"@) && last is Some ==> r == Ok::<N, Fault>(last->Some_0),
        !env.contains_key("result"@) && last is None ==> (r matches Err(f) && f.code
            == "PROGRAM_NO_RESULT"@ && f.message == "program produced no result"@),
{
}

/// A program starts with no variables and nothing in hand; one that is all white space is refused.
pub proof fn law_start_of_program<N: Real>(src: Seq<char>, r: Result<N, Fault>)
    requires
        program_yields(src, r),
    ensures
        (forall|i: int| 0 <= i < src.len() ==> is_space(#[trigger] src[i])) ==> (r matches Err(f)
            && f.code == "PROGRAM_EMPTY"@ && f.message == "empty program"@),
        (exists|i: int| 0 <= i < src.len() && !is_space(#[trigger] src[i])) ==> exists|
            env: Map<Seq<char>, N>,
            last: Option<N>,
        | #[trigger]
            runs(statements(src), env, last, r) && last is None && forall|name: Seq<char>|
                !(#[trigger] env.contains_key(name)),
{
    if exists|i: int| 0 <= i < src.len() && !is_space(#[trigger] src[i]) {
        let env = Map::<Seq<char>, N>::empty();
        let last: Option<N> = None;
        assert(runs(statements(src), env, last, r));
    }
}

/// What was set last counts: of two assignments to a name, one after the other, and then one of
/// it to `result`, the answer is what the second came to, where the name was set to what the first
/// came to.
pub proof fn law_last_assignment_counts<N: Real>(
    name: Seq<char>,
    e1: Seq<char>,
    e2: Seq<char>,
    e3: Seq<char>,
    env: Map<Seq<char>, N>,
    last: Option<N>,
    r: N,
)
    requires
        runs(
            seq![
                Statement::Assign(name, e1),
                Statement::Assign(name, e2),
                Statement::Assign("result"@, e3),
            ],
            env,
            last,
            Ok::<N, Fault>(r),
        ),
    ensures
        exists|v1: N, v2: N|
            evaluation(e1, env, Ok::<N, Fault>(v1)) && #[trigger] evaluation(
                e2,
                env.insert(name, v1),
                Ok::<N, Fault>(v2),
            ) && evaluation(e3, env.insert(name, v2), Ok::<N, Fault>(r)),
{
    let ok = Ok::<N, Fault>(r);
    let s3 = seq![Statement::Assign("result"@, e3)];
    let s2 = seq![Statement::Assign(name, e2)] + s3;
    let sts = seq![
        Statement::Assign(name, e1),
        Statement::Assign(name, e2),
        Statement::Assign("result"@, e3),
    ];
    assert(sts =~= seq![Statement::Assign(name, e1)] + s2);
    law_assignment(name, e1, s2, env, last, ok);
    let o1 = choose|o: Result<N, Fault>| #[trigger]
        evaluation(e1, env, o) && match o {
            Err(f) => ok == Err::<N, Fault>(f),
            Ok(v) => exists|after: Map<Seq<char>, N>| #[trigger]
                runs(s2, after, last, ok) && after =~= env.insert(name, v),
        };
    let v1 = o1->Ok_0;
    let env1 = env.insert(name, v1);
    law_assignment(name, e2, s3, env1, last, ok);
    let o2 = choose|o: Result<N, Fault>| #[trigger]
        evaluation(e2, env1, o) && match o {
            Err(f) => ok == Err::<N, Fault>(f),
            Ok(v) => exists|after: Map<Seq<char>, N>| #[trigger]
                runs(s3, after, last, ok) && after =~= env1.insert(name, v),
        };
    let v2 = o2->Ok_0;
    let env2 = env1.insert(name, v2);
    assert(env2 =~= env.insert(name, v2));
    assert(s3 =~= s3 + Seq::<Statement>::empty());
    law_assignment("result"@, e3, Seq::empty(), env2, last, ok);
    let o3 = choose|o: Result<N, Fault>| #[trigger]
        evaluation(e3, env2, o) && match o {
            Err(f) => ok == Err::<N, Fault>(f),
            Ok(v) => exists|after: Map<Seq<char>, N>| #[trigger]
                runs(Seq::<Statement>::empty(), after, last, ok) && after =~= env2.insert(
                    "result"@,
                    v,
                ),
        };
    assert(evaluation(e2, env1, Ok::<N, Fault>(v2)));
}

/// A text that is trimmed keeps all between its first and its last character that is no white
/// space, and loses white space only.
pub proof fn law_trimmed(s: Seq<char>, i: int, j: int)
    requires
        0 <= i <= j <= s.len(),
        forall|k: int| 0 <= k < i ==> is_space(#[trigger] s[k]),
        forall|k: int| j <= k < s.len() ==> is_space(#[trigger] s[k]),
        i < j ==> !is_space(s[i]) && !is_space(s[j - 1]),
    ensures
        trimmed(s) == s.subrange(i, j),
{
    lemma_trim_start_is(s);
    let t = trim_start(s);
    let a = s.len() - t.len();
    lemma_trim_end_is(t);
    let u = trim_end(t);
    let b = a + u.len();
    if i < j {
        assert(a == i) by {
            if a < i {
                assert(t[0] == s[a]);
            }
            if a > i {
                assert(is_space(s[i]));
            }
        }
        assert(b == j) by {
            if b < j {
                assert(t[j - 1 - a] == s[j - 1]);
            }
            if b > j {
                assert(u.last() == s[b - 1]);
            }
        }
        assert(u =~= s.subrange(i, j));
    } else {
        assert(u.len() == 0) by {
            if u.len() > 0 {
                assert(u[0] == s[a]);
                assert(t[0] == s[a]);
            }
        }
        assert(u =~= s.subrange(i, j));
    }
}

/// A line that ends a program or a text without a separator is one statement, without the white
/// space at its ends, or none where it is all white space.
pub proof fn law_one_line(s: Seq<char>)
    requires
        forall|i: int| 0 <= i < s.len() ==> #[trigger] s[i] != '\n' && s[i] != ';',
    ensures
        trimmed(s).len() == 0 ==> statements(s).len() == 0,
        trimmed(s).len() > 0 ==> statements(s) == seq![statement(trimmed(s))],
{
    lemma_span_is(s, |c: char| !crate::program::is_separator(c), s.len() as int);
    assert(s.take(s.len() as int) =~= s);
}

/// A line `let NAME = EXPRESSION` sets whatever stands between `let ` and the first equals sign.
pub proof fn law_let_line(name: Seq<char>, e: Seq<char>)
    requires
        !name.contains('='),
    ensures
        statement(seq!['l', 'e', 't', ' '] + name + seq!['='] + e) == Statement::Assign(
            trimmed(name),
            trimmed(e),
        ),
{
    reveal_strlit("let ");
    let line = seq!['l', 'e', 't', ' '] + name + seq!['='] + e;
    let rest = name + seq!['='] + e;
    assert("let "@ =~= line.subrange(0, 4));
    assert(line.skip(4) =~= rest);
    lemma_first_equals(name, e);
}

/// A line `NAME = EXPRESSION` sets the name where that is an identifier: a letter or an underscore,
/// and letters, numbers and underscores after it. Otherwise the line is an expression.
pub proof fn law_assignment_line(name: Seq<char>, e: Seq<char>)
    requires
        !name.contains('='),
        !seq!['l', 'e', 't', ' '].is_prefix_of(name + seq!['='] + e),
    ensures
        ({
            let n = trimmed(name);
            let identifier = n.len() > 0 && (is_alpha(n[0]) || n[0] == '_') && forall|i: int|
                0 <= i < n.len() ==> is_alnum(#[trigger] n[i]) || n[i] == '_';
            statement(name + seq!['='] + e) == if identifier {
                Statement::Assign(n, trimmed(e))
            } else {
                Statement::Value(name + seq!['='] + e)
            }
        }),
{
    reveal_strlit("let ");
    assert("let "@ =~= seq!['l', 'e', 't', ' ']);
    let line = name + seq!['='] + e;
    lemma_first_equals(name, e);
    assert(line.take(name.len() as int) =~= name);
}

/// A line without an equals sign is an expression.
pub proof fn law_expression_line(line: Seq<char>)
    requires
        !line.contains('='),
    ensures
        statement(line) == Statement::Value(line),
{
    line.index_of_first_ensures('=');
    if "let "@.is_prefix_of(line) {
        let rest = line.skip(4);
        rest.index_of_first_ensures('=');
        assert(!rest.contains('=')) by {
            if rest.contains('=') {
                let i = choose|i: int| 0 <= i < rest.len() && rest[i] == '=';
                reveal_strlit("let ");
                assert(line[i + 4] == '=');
            }
        }
    }
}

proof fn lemma_first_equals(name: Seq<char>, e: Seq<char>)
    requires
        !name.contains('='),
    ensures
        (name + seq!['='] + e).index_of_first('=') == Some(name.len() as int),
        (name + seq!['='] + e).take(name.len() as int) == name,
        (name + seq!['='] + e).skip(name.len() as int + 1) == e,
{
    let s = name + seq!['='] + e;
    let n = name.len() as int;
    s.index_of_first_ensures('=');
    assert(s[n] == '=');
    assert(s.contains('='));
    let k = s.index_of_first('=').unwrap();
    assert(k == n) by {
        if k < n {
            assert(name[k] == s[k]);
            assert(name.contains('='));
        }
    }
    assert(s.take(n) =~= name);
    assert(s.skip(n + 1) =~= e);
}

/// The line `NAME=EXPRESSION`, however its white space stands.
proof fn lemma_assign_text(x: Seq<char>, e: Seq<char>)
    requires
        identifier(x),
        forall|i: int| 0 <= i < e.len() ==> #[trigger] e[i] != '\n' && e[i] != ';',
    ensures
        statements(x + seq!['='] + e).len() == 1,
        statements(x + seq!['='] + e)[0] matches Statement::Assign(name, text) && name == x
            && text == trimmed(e),
{
    let s = x + seq!['='] + e;
    let n = x.len() as int;
    assert forall|i: int| 0 <= i < s.len() implies #[trigger] s[i] != '\n' && s[i] != ';' by {
        if i < n {
            assert(word(x[i]) && s[i] == x[i]);
        } else if i > n {
            assert(s[i] == e[i - n - 1]);
        }
    }
    law_one_line(s);
    lemma_trim_end_is(e);
    let cut = trim_end(e);
    let m = cut.len() as int;
    let line = x + seq!['='] + cut;
    assert(trimmed(s) == line) by {
        assert(word(x[0]) && s[0] == x[0]);
        let j = n + 1 + m;
        if m > 0 {
            assert(s[j - 1] == cut.last());
        } else {
            assert(s[j - 1] == '=');
        }
        assert forall|k: int| j <= k < s.len() implies is_space(#[trigger] s[k]) by {
            assert(s[k] == e[k - n - 1]);
        }
        law_trimmed(s, 0, j);
        assert(s.subrange(0, j) =~= line);
    }
    assert(!x.contains('=')) by {
        if x.contains('=') {
            let i = choose|i: int| 0 <= i < x.len() && x[i] == '=';
            assert(word(x[i]));
        }
    }
    assert(!seq!['l', 'e', 't', ' '].is_prefix_of(line)) by {
        let let_ = seq!['l', 'e', 't', ' '];
        if let_.is_prefix_of(line) {
            assert(line.subrange(0, 4)[3] == let_[3]);
            if n > 3 {
                assert(word(x[3]) && line[3] == x[3]);
            } else if n < 3 {
                assert(line.subrange(0, 4)[n] == let_[n]);
            }
        }
    }
    law_assignment_line(x, cut);
    assert(trimmed(x) == x) by {
        assert(word(x[0]) && word(x[n - 1]));
        law_trimmed(x, 0, n);
        assert(x.subrange(0, n) =~= x);
    }
    assert forall|i: int| 0 <= i < x.len() implies is_alnum(#[trigger] x[i]) || x[i] == '_' by {
        assert(word(x[i]));
    }
    assert(is_alpha(x[0]) || x[0] == '_') by {
        assert(word(x[0]));
    }
    assert(trimmed(cut) == trimmed(e)) by {
        lemma_trim_start_is(e);
        let a = e.len() - trim_start(e).len();
        if m > 0 {
            assert(!is_space(e[m - 1]));
            assert(a < m);
            assert(e[a] == trim_start(e)[0]);
            law_trimmed(e, a, m);
            law_trimmed(cut, a, m);
            assert(e.subrange(a, m) =~= cut.subrange(a, m));
        } else {
            law_trimmed(e, 0, 0);
            law_trimmed(cut, 0, 0);
            assert(e.subrange(0, 0) =~= cut.subrange(0, 0));
        }
    }
}

/// The program `X=E1;X=E2;result=X` answers with what `E2` comes to where `X` is what `E1` came to,
/// whatever the name and the expressions.
pub proof fn law_variables_can_be_set_again<N: Real>(
    x: Seq<char>,
    e1: Seq<char>,
    e2: Seq<char>,
    r: N,
)
    requires
        identifier(x),
        forall|i: int| 0 <= i < e1.len() ==> #[trigger] e1[i] != '\n' && e1[i] != ';',
        forall|i: int| 0 <= i < e2.len() ==> #[trigger] e2[i] != '\n' && e2[i] != ';',
        program_yields(
            (x + seq!['='] + e1) + seq![';'] + ((x + seq!['='] + e2) + seq![';'] + (seq![
                'r',
                'e',
                's',
                'u',
                'l',
                't',
            ] + seq!['='] + x)),
            Ok::<N, Fault>(r),
        ),
    ensures
        exists|v1: N|
            evaluation(e1, Map::<Seq<char>, N>::empty(), Ok::<N, Fault>(v1)) && #[trigger]
            evaluation(e2, Map::<Seq<char>, N>::empty().insert(x, v1), Ok::<N, Fault>(r)),
{
    let result = seq!['r', 'e', 's', 'u', 'l', 't'];
    reveal_strlit("result");
    assert("result"@ =~= result);
    let l1 = x + seq!['='] + e1;
    let l2 = x + seq!['='] + e2;
    let l3 = result + seq!['='] + x;
    let src = l1 + seq![';'] + (l2 + seq![';'] + l3);
    let env = Map::<Seq<char>, N>::empty();
    assert forall|i: int| 0 <= i < x.len() implies #[trigger] x[i] != '\n' && x[i] != ';' by {
        assert(word(x[i]));
    }
    lemma_assign_text(x, e1);
    lemma_assign_text(x, e2);
    lemma_assign_text(result, x);
    law_separators_split(l1, ';', l2 + seq![';'] + l3);
    law_separators_split(l2, ';', l3);
    let sts = seq![
        Statement::Assign(x, trimmed(e1)),
        Statement::Assign(x, trimmed(e2)),
        Statement::Assign("result"@, trimmed(x)),
    ];
    assert(statements(src) =~= sts);
    assert(!blank(src)) by {
        assert(src[0] == x[0] && word(x[0]));
    }
    law_last_assignment_counts(x, trimmed(e1), trimmed(e2), trimmed(x), env, None, r);
    let (v1, v2) = choose|v1: N, v2: N|
        evaluation(trimmed(e1), env, Ok::<N, Fault>(v1)) && #[trigger] evaluation(
            trimmed(e2),
            env.insert(x, v1),
            Ok::<N, Fault>(v2),
        ) && evaluation(trimmed(x), env.insert(x, v2), Ok::<N, Fault>(r));
    law_white_space_around(e1, env.dom());
    law_white_space_around(e2, env.insert(x, v1).dom());
    law_white_space_around(x, env.insert(x, v2).dom());
    law_texts_evaluate_to_their_values(x, env.insert(x, v2), r);
    law_value_of_name(x, env.insert(x, v2), r);
    assert(r == v2);
    assert(evaluation(e2, env.insert(x, v1), Ok::<N, Fault>(r)));
}

/// What contracts say of a line they say of its kind and all of its texts.
pub proof fn law_lines_are_seen_whole(line: Line)
    ensures
        line@ == (match line {
            Line::Assign(name, text) => Statement::Assign(name@, text@),
            Line::Value(text) => Statement::Value(text@),
        }),
{
}

} // verus!
