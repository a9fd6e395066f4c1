//! Programs: assignments and expressions, one after the other.
use vstd::prelude::*;
use vstd::slice::slice_subrange;

use crate::error::{fault, outcome, Fault, SolverError};
use crate::eval::{eval_expression_with, Env};
use crate::grammar::evaluation;
use crate::number::Real;
use crate::text::{
    alphabetic, alphanumeric, blank, chars_of, find_first, is_alpha, is_alnum, is_blank,
    lemma_span_is, span, starts_with, string_of, trim, trimmed,
};

verus! {

/// One statement of a program, as it is run.
#[derive(Debug)]
pub enum Line {
    /// Gives the variable with the first text as its name the value of the second.
    Assign(String, String),
    /// Has the value of its text.
    Value(String),
}

/// One statement of a program, as contracts speak of it.
pub enum Statement {
    Assign(Seq<char>, Seq<char>),
    Value(Seq<char>),
}

impl View for Line {
    type V = Statement;

    open spec fn view(&self) -> Statement {
        match self {
            Line::Assign(name, text) => Statement::Assign(name@, text@),
            Line::Value(text) => Statement::Value(text@),
        }
    }
}

/// A character that ends a statement.
pub open spec fn is_separator(c: char) -> bool {
    c == '\n' || c == ';'
}

/// A name that can be assigned to without `let`.
pub open spec fn is_identifier(name: Seq<char>) -> bool {
    &&& name.len() > 0
    &&& is_alpha(name[0]) || name[0] == '_'
    &&& forall|i: int|
        0 <= i < name.len() ==> is_alnum(#[trigger] name[i]) || name[i] == '_'
}

/// The assignment that splits `s` at the equals sign at `k`.
pub open spec fn assignment(s: Seq<char>, k: int) -> Statement {
    Statement::Assign(trimmed(s.take(k)), trimmed(s.skip(k + 1)))
}

/// How a line that is not empty and has no white space at its ends is read.
///
/// After `let `, everything before the first equals sign is the name. Without it, what stands
/// before the first equals sign must be an identifier; any other line is an expression.
pub open spec fn statement(line: Seq<char>) -> Statement {
    if "let "@.is_prefix_of(line) && line.skip(4).index_of_first('=') is Some {
        assignment(line.skip(4), line.skip(4).index_of_first('=').unwrap())
    } else {
        match line.index_of_first('=') {
            Some(k) => if is_identifier(trimmed(line.take(k))) {
                assignment(line, k)
            } else {
                Statement::Value(line)
            },
            None => Statement::Value(line),
        }
    }
}

/// The length of the first line of `s`.
pub open spec fn line_len(s: Seq<char>) -> nat {
    span(s, |c: char| !is_separator(c))
}

/// The statements of a program, blank lines left out.
pub open spec fn statements(s: Seq<char>) -> Seq<Statement>
    decreases s.len(),
{
    let n = line_len(s) as int;
    let line = trimmed(s.take(n));
    let head = if line.len() == 0 {
        Seq::empty()
    } else {
        seq![statement(line)]
    };
    if n < s.len() {
        head + statements(s.skip(n + 1))
    } else {
        head
    }
}

/// The text of a statement that is evaluated.
pub open spec fn expression_of(st: Statement) -> Seq<char> {
    match st {
        Statement::Assign(_, text) => text,
        Statement::Value(text) => text,
    }
}

/// `r` is the outcome of running `sts` from variables `env` and the value `last` of the latest
/// expression statement on.
///
/// The first fault ends the run. At the end the answer is the variable `result`, or where there
/// is none the value of the latest expression statement.
pub open spec fn runs<N: Real>(
    sts: Seq<Statement>,
    env: Map<Seq<char>, N>,
    last: Option<N>,
    r: Result<N, Fault>,
) -> bool
    decreases sts.len(),
{
    if sts.len() == 0 {
        r == if env.contains_key("result"@) {
            Ok::<N, Fault>(env["result"@])
        } else {
            match last {
                Some(v) => Ok::<N, Fault>(v),
                None => Err::<N, Fault>(fault("PROGRAM_NO_RESULT", "program produced no result"@)),
            }
        }
    } else {
        exists|o: Result<N, Fault>| #[trigger]
            evaluation(expression_of(sts[0]), env, o) && match o {
                Err(f) => r == Err::<N, Fault>(f),
                Ok(v) => match sts[0] {
                    Statement::Assign(name, _) => runs(sts.skip(1), env.insert(name, v), last, r),
                    Statement::Value(_) => runs(sts.skip(1), env, Some(v), r),
                },
            }
    }
}

/// `r` is the outcome of running the program `src`.
pub open spec fn program_yields<N: Real>(src: Seq<char>, r: Result<N, Fault>) -> bool {
    if blank(src) {
        r == Err::<N, Fault>(fault("PROGRAM_EMPTY", "empty program"@))
    } else {
        runs(statements(src), Map::<Seq<char>, N>::empty(), None, r)
    }
}

/// Whether `name` can be assigned to without `let`.
fn identifier(name: &[char]) -> (r: bool)
    ensures
        r == is_identifier(name@),
{
    if name.len() == 0 || !(alphabetic(name[0]) || name[0] == '_') {
        return false;
    }
    let mut i: usize = 0;
    while i < name.len()
        invariant
            i <= name@.len(),
            forall|j: int|
                0 <= j < i ==> is_alnum(#[trigger] name@[j]) || name@[j] == '_',
        decreases name@.len() - i,
    {
        if !(alphanumeric(name[i]) || name[i] == '_') {
            assert(!(is_alnum(name@[i as int]) || name@[i as int] == '_'));
            return false;
        }
        i = i + 1;
    }
    true
}

/// The assignment that splits `s` at the equals sign at `k`.
fn split_at(s: &[char], k: usize) -> (r: Line)
    requires
        k < s@.len(),
    ensures
        r@ == assignment(s@, k as int),
{
    assert(s@.subrange(0, k as int) =~= s@.take(k as int));
    assert(s@.subrange(k + 1, s@.len() as int) =~= s@.skip(k + 1));
    let n: usize = s.len();
    let name = string_of(trim(slice_subrange(s, 0, k)));
    let text = string_of(trim(slice_subrange(s, k + 1, n)));
    Line::Assign(name, text)
}

/// Reads one line.
pub fn read_line(line: &[char]) -> (r: Line)
    ensures
        r@ == statement(line@),
{
    proof {
        reveal_strlit("let ");
        line@.index_of_first_ensures('=');
    }
    if starts_with(line, "let ") {
        let rest = slice_subrange(line, 4, line.len());
        assert(rest@ =~= line@.skip(4));
        if let Some(k) = find_first(rest, '=') {
            return split_at(rest, k);
        }
    }
    if let Some(k) = find_first(line, '=') {
        assert(line@.subrange(0, k as int) =~= line@.take(k as int));
        if identifier(trim(slice_subrange(line, 0, k))) {
            return split_at(line, k);
        }
    }
    Line::Value(string_of(line))
}

/// Where the line that starts at `from` ends.
fn line_end(s: &[char], from: usize) -> (r: usize)
    requires
        from <= s@.len(),
    ensures
        from <= r <= s@.len(),
        r - from == line_len(s@.skip(from as int)),
{
    let mut i: usize = from;
    while i < s.len() && !(s[i] == '\n' || s[i] == ';')
        invariant
            from <= i <= s@.len(),
            forall|j: int| from <= j < i ==> !is_separator(#[trigger] s@[j]),
        decreases s@.len() - i,
    {
        i = i + 1;
    }
    proof {
        lemma_span_is(s@.skip(from as int), |c: char| !is_separator(c), i - from);
    }
    i
}

/// The statements of a program, in order, blank lines left out.
pub fn read_lines(src: &str) -> (r: Vec<Line>)
    ensures
        r@.map_values(|l: Line| l@) == statements(src@),
{
    let chars = chars_of(src);
    let s = chars.as_slice();
    let mut lines: Vec<Line> = Vec::new();
    let mut i: usize = 0;
    let ghost view = |l: Line| l@;
    proof {
        assert(s@.skip(0) =~= s@);
        assert(lines@.map_values(view) + statements(s@) =~= statements(s@));
    }
    loop
        invariant
            s@ == src@,
            i <= s@.len(),
            view == (|l: Line| l@),
            lines@.map_values(view) + statements(s@.skip(i as int)) == statements(src@),
        decreases s@.len() - i,
    {
        let end: usize = line_end(s, i);
        let ghost t = s@.skip(i as int);
        let ghost before = lines@.map_values(view);
        assert(s@.subrange(i as int, end as int) =~= t.take(end - i));
        let line = trim(slice_subrange(s, i, end));
        if line.len() > 0 {
            let read = read_line(line);
            let ghost st = read@;
            lines.push(read);
            assert(lines@.map_values(view) =~= before.push(st));
            assert(before + seq![st] =~= before.push(st));
        } else {
            assert(before + Seq::<Statement>::empty() =~= before);
        }
        if end >= s.len() {
            return lines;
        }
        proof {
            assert(t.skip(end - i + 1) =~= s@.skip(end + 1));
            let tail = statements(s@.skip(end + 1));
            let line = trimmed(t.take(end - i));
            let head: Seq<Statement> = if line.len() == 0 {
                Seq::empty()
            } else {
                seq![statement(line)]
            };
            assert(before + (head + tail) =~= (before + head) + tail);
        }
        i = end + 1;
    }
}

/// Runs a program and returns its answer.
///
/// A program is a sequence of lines, ended by newlines or semicolons. `let NAME = EXPRESSION` and
/// `NAME = EXPRESSION` set a variable that later lines can use; any other line is an expression.
/// The answer is the value of the variable `result`, or, where no line sets it, of the last line
/// that is an expression.
pub fn run_program<N: Real>(src: &str) -> (r: Result<N, SolverError>)
    ensures
        program_yields(src@, outcome(r)),
{
    if is_blank(chars_of(src).as_slice()) {
        return Err(SolverError::new("PROGRAM_EMPTY", "empty program"));
    }
    let lines = read_lines(src);
    let ghost sts = statements(src@);
    let mut env = Env::<N>::new();
    let mut last: Option<N> = None;
    let mut i: usize = 0;
    proof {
        assert(sts.skip(0) =~= sts);
    }
    while i < lines.len()
        invariant
            i <= lines@.len(),
            sts == statements(src@),
            lines@.map_values(|l: Line| l@) == sts,
            !blank(src@),
            forall|o: Result<N, Fault>| #[trigger]
                runs(sts.skip(i as int), env@, last, o) ==> program_yields(src@, o),
        decreases lines@.len() - i,
    {
        let ghost rest = sts.skip(i as int);
        let ghost env_before = env@;
        let ghost last_before = last;
        assert(rest[0] == lines@[i as int]@) by {
            assert(lines@.map_values(|l: Line| l@)[i as int] == lines@[i as int]@);
        }
        assert(rest.skip(1) =~= sts.skip(i + 1));
        match &lines[i] {
            Line::Assign(name, text) => match eval_expression_with(text.as_str(), &env) {
                Ok(v) => {
                    assert(evaluation(expression_of(rest[0]), env_before, Ok::<N, Fault>(v)));
                    env.insert(name.clone(), v);
                    proof {
                        assert forall|o: Result<N, Fault>| #[trigger]
                            runs(sts.skip(i + 1), env@, last, o) implies program_yields(
                            src@,
                            o,
                        ) by {
                            assert(runs(rest, env_before, last_before, o));
                        }
                    }
                },
                Err(e) => {
                    proof {
                        let o = Err::<N, Fault>(e@);
                        assert(evaluation(expression_of(rest[0]), env_before, o));
                        assert(runs(rest, env_before, last_before, o));
                    }
                    return Err(e);
                },
            },
            Line::Value(text) => match eval_expression_with(text.as_str(), &env) {
                Ok(v) => {
                    assert(evaluation(expression_of(rest[0]), env_before, Ok::<N, Fault>(v)));
                    last = Some(v);
                    proof {
                        assert forall|o: Result<N, Fault>| #[trigger]
                            runs(sts.skip(i + 1), env@, last, o) implies program_yields(
                            src@,
                            o,
                        ) by {
                            assert(runs(rest, env_before, last_before, o));
                        }
                    }
                },
                Err(e) => {
                    proof {
                        let o = Err::<N, Fault>(e@);
                        assert(evaluation(expression_of(rest[0]), env_before, o));
                        assert(runs(rest, env_before, last_before, o));
                    }
                    return Err(e);
                },
            },
        }
        i = i + 1;
    }
    let r = match env.get("result") {
        Some(v) => Ok(*v),
        None => match last {
            Some(v) => Ok(v),
            None => Err(SolverError::new("PROGRAM_NO_RESULT", "program produced no result")),
        },
    };
    assert(runs(sts.skip(i as int), env@, last, outcome(r)));
    r
}

} // verus!
