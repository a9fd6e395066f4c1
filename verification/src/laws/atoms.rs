//! Laws of what expressions are made of: numerals, names and calls, and of texts that are none.
use vstd::prelude::*;

use crate::error::Fault;
use crate::grammar::{
    arguments, atom, chain, function_named, lemma_chain_progress, op_at, parse, parse_tokens, Ast,
    Function, Level,
};
use crate::laws::lexing::{law_tokens_part, law_white_space_separates, word};
use crate::laws::nesting::{lemma_chain_within, within};
use crate::laws::precedence::{lemma_names, lemma_operand, name_of};
use crate::laws::running::{is_numeral, lemma_numeral_parses};
use crate::lexer::{
    denotes_number, exponent_len, first_token, in_mantissa, in_name, lemma_first_token_len,
    mantissa_len, name_len, number_len, starts_name, tokens, Symbol,
};
use crate::number::Constant;
use crate::text::{
    blank, is_digit, is_space, lemma_span_bound, lemma_span_is, lower, lower_char, span,
};

verus! {

/// A numeral whose digits and point end at `k`: at least one digit among them and at most one
/// point, and after them nothing, or an `e`, perhaps a sign, and at least one digit.
pub open spec fn numeral(m: Seq<char>, k: int) -> bool {
    &&& 0 < k <= m.len()
    &&& forall|i: int| 0 <= i < k ==> '0' <= #[trigger] m[i] <= '9' || m[i] == '.'
    &&& exists|i: int| 0 <= i < k && '0' <= #[trigger] m[i] <= '9'
    &&& forall|i: int, j: int|
        0 <= i < j < k ==> !(#[trigger] m[i] == '.' && #[trigger] m[j] == '.')
    &&& k < m.len() ==> {
        let d = if k + 1 < m.len() && (m[k + 1] == '+' || m[k + 1] == '-') {
            k + 2
        } else {
            k + 1
        };
        &&& m[k] == 'e' || m[k] == 'E'
        &&& d < m.len()
        &&& forall|i: int| d <= i < m.len() ==> '0' <= #[trigger] m[i] <= '9'
    }
}

proof fn lemma_numeral(m: Seq<char>, k: int)
    requires
        numeral(m, k),
    ensures
        is_numeral(m),
{
    lemma_span_is(m, |c: char| in_mantissa(c), k);
    assert(mantissa_len(m) == k);
    let t = m.skip(k);
    if k < m.len() {
        let n: int = if t.len() > 1 && (t[1] == '+' || t[1] == '-') {
            2
        } else {
            1
        };
        assert(t[0] == m[k]);
        if k + 1 < m.len() {
            assert(t[1] == m[k + 1]);
        }
        let u = t.skip(n);
        assert forall|i: int| 0 <= i < u.len() implies is_digit(#[trigger] u[i]) by {
            assert(u[i] == m[k + n + i]);
        }
        assert(t[n] == m[k + n]);
        lemma_span_is(u, |c: char| is_digit(c), u.len() as int);
        assert(exponent_len(t) == m.len() - k);
    } else {
        assert(exponent_len(t) == 0);
    }
    let d = m.take(k);
    assert(denotes_number(d)) by {
        let i = choose|i: int| 0 <= i < k && '0' <= #[trigger] m[i] <= '9';
        assert(is_digit(d[i]));
    }
}

/// A numeral stands for itself, all of it.
pub proof fn law_numerals(m: Seq<char>, k: int, names: Set<Seq<char>>)
    requires
        numeral(m, k),
    ensures
        parse(m, names) == Ok::<Ast, Fault>(Ast::Num(m)),
        tokens(m) == Ok::<Seq<Symbol>, Fault>(seq![Symbol::Num(m)]),
{
    lemma_numeral(m, k);
    lemma_numeral_parses(m, names);
    assert(!is_space(m[0]));
    assert(m.take(m.len() as int) =~= m);
    assert(m.skip(m.len() as int) =~= Seq::<char>::empty());
    assert(tokens(m.skip(m.len() as int)) == Ok::<Seq<Symbol>, Fault>(Seq::empty()));
    assert(seq![Symbol::Num(m)] + Seq::<Symbol>::empty() =~= seq![Symbol::Num(m)]);
}

/// Digits and points with no digit or with two points among them are no number.
pub proof fn law_bad_numbers(m: Seq<char>)
    requires
        m.len() > 0,
        forall|i: int| 0 <= i < m.len() ==> '0' <= #[trigger] m[i] <= '9' || m[i] == '.',
        (forall|i: int| 0 <= i < m.len() ==> #[trigger] m[i] == '.') || exists|i: int, j: int|
            0 <= i < j < m.len() && #[trigger] m[i] == '.' && #[trigger] m[j] == '.',
    ensures
        tokens(m) matches Err(f) && f.code == "EXPR_BAD_NUMBER"@ && f.message == "bad number "@ + m,
{
    lemma_span_is(m, |c: char| in_mantissa(c), m.len() as int);
    let t = m.skip(m.len() as int);
    assert(exponent_len(t) == 0);
    assert(m.take(m.len() as int) =~= m);
    assert(!is_space(m[0]));
    assert(!denotes_number(m)) by {
        if forall|i: int| 0 <= i < m.len() ==> #[trigger] m[i] == '.' {
        } else {
            let (i, j) = choose|i: int, j: int|
                0 <= i < j < m.len() && #[trigger] m[i] == '.' && #[trigger] m[j] == '.';
            assert(m[i] == '.' && m[j] == '.');
        }
    }
}

/// A character that is no white space, no part of a name or a numeral, and no operator, is a fault,
/// and so is the text it stands in, where nothing before it is a fault.
pub proof fn law_bad_characters(a: Seq<char>, c: char, b: Seq<char>)
    requires
        tokens(a) is Ok,
        !is_space(c),
        !word(c),
        c != '.' && c != '+' && c != '-' && c != '*' && c != '/' && c != '%' && c != '^',
        c != '(' && c != ')' && c != ',',
    ensures
        tokens(a + seq![c] + b) matches Err(f) && f.code == "EXPR_BAD_CHAR"@ && f.message
            == "unexpected character '"@ + seq![c] + "'"@,
{
    law_tokens_part(a, c, b);
    let s = seq![c] + b;
    assert(s[0] == c);
}

/// A text is refused as empty exactly where it is all white space.
pub proof fn law_empty_texts(s: Seq<char>, names: Set<Seq<char>>)
    requires
        forall|i: int| 0 <= i < s.len() ==> is_space(#[trigger] s[i]),
    ensures
        parse(s, names) matches Err(f) && f.code == "EXPR_EMPTY"@ && f.message
            == "empty expression"@,
{
}

/// A fault in the tokens of a text that is not blank is the fault of the text.
pub proof fn law_token_faults_come_first(s: Seq<char>, f: Fault, names: Set<Seq<char>>)
    requires
        !blank(s),
        tokens(s) == Err::<Seq<Symbol>, Fault>(f),
    ensures
        parse(s, names) == Err::<Ast, Fault>(f),
{
}

/// A name: a letter or an underscore, and letters, digits and underscores after it.
pub open spec fn identifier(n: Seq<char>) -> bool {
    &&& n.len() > 0
    &&& !('0' <= n[0] <= '9')
    &&& forall|i: int| 0 <= i < n.len() ==> word(#[trigger] n[i])
}

/// `id` is the lower-case `name`, perhaps with some of its letters in upper case.
pub open spec fn spells(id: Seq<char>, name: Seq<char>) -> bool {
    &&& id.len() == name.len()
    &&& forall|i: int|
        0 <= i < id.len() ==> (#[trigger] id[i] == name[i] && !('A' <= id[i] <= 'Z')) || ('A'
            <= id[i] <= 'Z' && id[i] as int + 32 == name[i] as int)
}

proof fn lemma_spells(id: Seq<char>, name: Seq<char>)
    ensures
        spells(id, name) <==> lower(id) == name,
{
    if spells(id, name) {
        assert forall|i: int| 0 <= i < id.len() implies #[trigger] lower(id)[i] == name[i] by {
            assert(lower(id)[i] == lower_char(id[i]));
        }
        assert(lower(id) =~= name);
    }
    if lower(id) == name {
        assert forall|i: int| 0 <= i < id.len() implies (#[trigger] id[i] == name[i] && !('A'
            <= id[i] <= 'Z')) || ('A' <= id[i] <= 'Z' && id[i] as int + 32 == name[i] as int) by {
            assert(lower(id)[i] == lower_char(id[i]));
        }
    }
}

proof fn lemma_identifier(n: Seq<char>)
    requires
        identifier(n),
    ensures
        !blank(n),
        tokens(n) == Ok::<Seq<Symbol>, Fault>(seq![Symbol::Id(n)]),
{
    lemma_span_is(n, |c: char| in_name(c), n.len() as int);
    assert(word(n[0]));
    assert(!is_space(n[0]));
    assert(n.take(n.len() as int) =~= n);
    assert(n.skip(n.len() as int) =~= Seq::<char>::empty());
    assert(tokens(n.skip(n.len() as int)) == Ok::<Seq<Symbol>, Fault>(Seq::empty()));
    assert(seq![Symbol::Id(n)] + Seq::<Symbol>::empty() =~= seq![Symbol::Id(n)]);
}

/// A name is the variable of that name, letter for letter, where there is one. Otherwise it is `pi`
/// or `e`, in letters of either case, or unknown.
pub proof fn law_names(n: Seq<char>, names: Set<Seq<char>>)
    requires
        identifier(n),
    ensures
        names.contains(n) ==> parse(n, names) == Ok::<Ast, Fault>(Ast::Var(n)),
        !names.contains(n) && spells(n, seq!['p', 'i']) ==> parse(n, names) == Ok::<Ast, Fault>(
            Ast::Const(Constant::Pi),
        ),
        !names.contains(n) && spells(n, seq!['e']) ==> parse(n, names) == Ok::<Ast, Fault>(
            Ast::Const(Constant::E),
        ),
        !names.contains(n) && !spells(n, seq!['p', 'i']) && !spells(n, seq!['e']) ==> (parse(
            n,
            names,
        ) matches Err(f) && f.code == "EXPR_UNKNOWN_ID"@ && exists|m: Seq<char>| #[trigger]
            spells(n, m) && f.message == "unknown identifier "@ + m),
{
    reveal_strlit("pi");
    reveal_strlit("e");
    assert("pi"@ =~= seq!['p', 'i']);
    assert("e"@ =~= seq!['e']);
    lemma_identifier(n);
    lemma_spells(n, "pi"@);
    lemma_spells(n, "e"@);
    lemma_spells(n, lower(n));
    let t = seq![Symbol::Id(n)];
    assert(t[0] == Symbol::Id(n));
    assert(!op_at(t, 1, '('));
    if let Ok((a, j)) = atom(t, 0, names) {
        lemma_operand(a, t, 0, 1, names);
    } else {
        lemma_lone_fault(t, names);
    }
}

/// A fault in the only atom is the fault of the whole.
proof fn lemma_lone_fault(t: Seq<Symbol>, names: Set<Seq<char>>)
    requires
        t.len() > 0,
        t[0] is Id,
        atom(t, 0, names) is Err,
    ensures
        parse_tokens(t, names) == Err::<Ast, Fault>(atom(t, 0, names)->Err_0),
{
    let f = atom(t, 0, names)->Err_0;
    assert(crate::grammar::power(t, 0, names) == Err::<(Ast, int), Fault>(f));
    assert(crate::grammar::unary(t, 0, names) == Err::<(Ast, int), Fault>(f));
    assert(crate::grammar::operand(Level::Product, t, 0, names) == Err::<(Ast, int), Fault>(f));
    assert(chain(Level::Product, t, 0, names) == Err::<(Ast, int), Fault>(f));
    assert(crate::grammar::operand(Level::Sum, t, 0, names) == Err::<(Ast, int), Fault>(f));
    assert(chain(Level::Sum, t, 0, names) == Err::<(Ast, int), Fault>(f));
}

/// Texts with commas between them.
pub open spec fn listed(ss: Seq<Seq<char>>) -> Seq<char>
    decreases ss.len(),
{
    if ss.len() == 0 {
        Seq::empty()
    } else if ss.len() == 1 {
        ss[0]
    } else {
        ss[0] + seq![','] + listed(ss.skip(1))
    }
}

/// The tokens of texts, with a comma between those of one and those of the next.
spec fn listed_tokens(ss: Seq<Seq<char>>) -> Seq<Symbol>
    decreases ss.len(),
{
    if ss.len() == 0 {
        Seq::empty()
    } else if ss.len() == 1 {
        tokens(ss[0])->Ok_0
    } else {
        tokens(ss[0])->Ok_0 + seq![Symbol::Op(',')] + listed_tokens(ss.skip(1))
    }
}

proof fn lemma_listed_tokens(ss: Seq<Seq<char>>)
    requires
        ss.len() > 0,
        forall|i: int| 0 <= i < ss.len() ==> tokens(#[trigger] ss[i]) is Ok,
    ensures
        tokens(listed(ss)) == Ok::<Seq<Symbol>, Fault>(listed_tokens(ss)),
    decreases ss.len(),
{
    assert(tokens(ss[0]) is Ok);
    if ss.len() > 1 {
        let rest = ss.skip(1);
        assert forall|i: int| 0 <= i < rest.len() implies tokens(#[trigger] rest[i]) is Ok by {
            assert(rest[i] == ss[i + 1]);
        }
        lemma_listed_tokens(rest);
        let b = listed(rest);
        law_tokens_part(ss[0], ',', b);
        let tail = seq![','] + b;
        assert(tail.skip(1) =~= b);
        assert(first_token(tail) == Ok::<(Symbol, nat), Fault>((Symbol::Op(','), 1)));
        let t = tokens(ss[0])->Ok_0;
        assert(t + (seq![Symbol::Op(',')] + listed_tokens(rest)) =~= t + seq![Symbol::Op(',')]
            + listed_tokens(rest));
    }
}

proof fn lemma_listed_arguments(
    ss: Seq<Seq<char>>,
    args: Seq<Ast>,
    seen: Seq<Ast>,
    u: Seq<Symbol>,
    d: int,
    names: Set<Seq<char>>,
)
    requires
        ss.len() > 0,
        args.len() == ss.len(),
        forall|i: int|
            0 <= i < ss.len() ==> parse(#[trigger] ss[i], names) == Ok::<Ast, Fault>(args[i]),
        within(listed_tokens(ss), u, d),
        op_at(u, d + listed_tokens(ss).len(), ')'),
    ensures
        arguments(u, d, seen, names) == Ok::<(Seq<Ast>, int), Fault>(
            (seen + args, d + listed_tokens(ss).len()),
        ),
    decreases ss.len(),
{
    let all = listed_tokens(ss);
    let t = tokens(ss[0])->Ok_0;
    let a = args[0];
    assert(parse(ss[0], names) == Ok::<Ast, Fault>(a));
    assert(within(t, u, d)) by {
        assert forall|k: int| 0 <= k < t.len() implies #[trigger] t[k] == u[d + k] by {
            assert(all[k] == t[k]);
        }
    }
    lemma_chain_progress(Level::Sum, t, 0, names);
    lemma_chain_within(Level::Sum, t, 0, u, d, names);
    let j = d + t.len();
    if ss.len() == 1 {
        assert(chain(Level::Sum, u, d, names) == Ok::<(Ast, int), Fault>((a, j)));
        assert(seen.push(a) =~= seen + args);
    } else {
        let rest = ss.skip(1);
        let more = args.skip(1);
        let tail = listed_tokens(rest);
        assert(all[t.len() as int] == Symbol::Op(','));
        assert(op_at(u, j, ','));
        assert(chain(Level::Sum, u, d, names) == Ok::<(Ast, int), Fault>((a, j)));
        assert(within(tail, u, j + 1)) by {
            assert forall|k: int| 0 <= k < tail.len() implies #[trigger] tail[k] == u[j + 1
                + k] by {
                assert(all[t.len() + 1 + k] == tail[k]);
            }
        }
        assert forall|i: int| 0 <= i < rest.len() implies parse(#[trigger] rest[i], names) == Ok::<
            Ast,
            Fault,
        >(more[i]) by {
            assert(rest[i] == ss[i + 1]);
        }
        lemma_listed_arguments(rest, more, seen.push(a), u, j + 1, names);
        assert(seen.push(a) + more =~= seen + args);
    }
}

/// A name that no variable has, and expressions in parentheses with commas between them, is a call
/// of the function of that name, in letters of either case, on all of them in order; or an unknown
/// function.
pub proof fn law_calls(id: Seq<char>, ss: Seq<Seq<char>>, args: Seq<Ast>, names: Set<Seq<char>>)
    requires
        identifier(id),
        !names.contains(id),
        ss.len() > 0,
        args.len() == ss.len(),
        forall|i: int|
            0 <= i < ss.len() ==> parse(#[trigger] ss[i], names) == Ok::<Ast, Fault>(args[i]),
    ensures
        forall|f: Function| #[trigger]
            name_of(f) is Some && spells(id, name_of(f).unwrap()) ==> parse(
                id + seq!['('] + listed(ss) + seq![')'],
                names,
            ) == Ok::<Ast, Fault>(Ast::Call(f, args)),
        (forall|f: Function| #[trigger]
            name_of(f) is Some ==> !spells(id, name_of(f).unwrap())) ==> (parse(
            id + seq!['('] + listed(ss) + seq![')'],
            names,
        ) matches Err(f) && f.code == "EXPR_UNKNOWN_FUNC"@ && exists|m: Seq<char>| #[trigger]
            spells(id, m) && f.message == "unknown function "@ + m),
{
    let s = id + seq!['('] + listed(ss) + seq![')'];
    assert forall|i: int| 0 <= i < ss.len() implies tokens(#[trigger] ss[i]) is Ok by {
        assert(parse(ss[i], names) is Ok);
    }
    lemma_listed_tokens(ss);
    lemma_identifier(id);
    let inner = listed_tokens(ss);
    let u = seq![Symbol::Id(id), Symbol::Op('(')] + inner + seq![Symbol::Op(')')];
    lemma_call_tokens(id, listed(ss), inner);
    assert(!blank(s)) by {
        assert(s[0] == id[0]);
        assert(word(id[0]));
    }
    assert(u[0] == Symbol::Id(id));
    assert(u[1] == Symbol::Op('('));
    let j = 2 + inner.len() as int;
    assert(u[j] == Symbol::Op(')'));
    assert(within(inner, u, 2));
    lemma_listed_arguments(ss, args, Seq::empty(), u, 2, names);
    assert(Seq::<Ast>::empty() + args =~= args);
    assert forall|f: Function| #[trigger]
        name_of(f) is Some && spells(id, name_of(f).unwrap()) implies parse(s, names) == Ok::<
        Ast,
        Fault,
    >(Ast::Call(f, args)) by {
        lemma_names(f, Constant::Pi);
        lemma_spells(id, name_of(f).unwrap());
        assert(atom(u, 0, names) == Ok::<(Ast, int), Fault>((Ast::Call(f, args), j + 1)));
        lemma_operand(Ast::Call(f, args), u, 0, j + 1, names);
    }
    if forall|f: Function| #[trigger]
        name_of(f) is Some ==> !spells(id, name_of(f).unwrap()) {
        lemma_spells(id, lower(id));
        if let Some(f) = function_named(lower(id)) {
            assert(name_of(f) == Some(lower(id)));
        }
        lemma_lone_fault(u, names);
    }
}

proof fn lemma_call_tokens(id: Seq<char>, list: Seq<char>, inner: Seq<Symbol>)
    requires
        identifier(id),
        tokens(list) == Ok::<Seq<Symbol>, Fault>(inner),
    ensures
        tokens(id + seq!['('] + list + seq![')']) == Ok::<Seq<Symbol>, Fault>(
            seq![Symbol::Id(id), Symbol::Op('(')] + inner + seq![Symbol::Op(')')],
        ),
{
    let s = id + seq!['('] + list + seq![')'];
    let none = Seq::<char>::empty();
    lemma_identifier(id);
    law_tokens_part(list, ')', none);
    let end = seq![')'] + none;
    assert(end.skip(1) =~= none);
    assert(tokens(none) == Ok::<Seq<Symbol>, Fault>(Seq::empty()));
    assert(first_token(end) == Ok::<(Symbol, nat), Fault>((Symbol::Op(')'), 1)));
    assert(list + seq![')'] + none =~= list + seq![')']);
    let b = list + seq![')'];
    assert(tokens(b) == Ok::<Seq<Symbol>, Fault>(
        inner + (seq![Symbol::Op(')')] + Seq::<Symbol>::empty()),
    ));
    law_tokens_part(id, '(', b);
    let mid = seq!['('] + b;
    assert(mid.skip(1) =~= b);
    assert(first_token(mid) == Ok::<(Symbol, nat), Fault>((Symbol::Op('('), 1)));
    assert(s =~= id + seq!['('] + b);
    assert(seq![Symbol::Id(id)] + (seq![Symbol::Op('(')] + (inner + (seq![Symbol::Op(')')]
        + Seq::<Symbol>::empty()))) =~= seq![Symbol::Id(id), Symbol::Op('(')] + inner + seq![
        Symbol::Op(')'),
    ]);
}

/// A numeral after an expression, with no operator between them, is a fault.
pub proof fn law_no_operator_between(s: Seq<char>, m: Seq<char>, k: int, names: Set<Seq<char>>)
    requires
        parse(s, names) is Ok,
        numeral(m, k),
    ensures
        parse(s + seq![' '] + m, names) matches Err(f) && f.code == "EXPR_TRAILING"@ && f.message
            == "trailing tokens in expression"@,
{
    law_numerals(m, k, names);
    law_white_space_separates(s, ' ', m);
    let t = tokens(s)->Ok_0;
    let u = t + seq![Symbol::Num(m)];
    let n = t.len() as int;
    assert(u[n] == Symbol::Num(m));
    lemma_chain_progress(Level::Sum, t, 0, names);
    lemma_chain_within(Level::Sum, t, 0, u, 0, names);
    let all = s + seq![' '] + m;
    assert(!blank(all)) by {
        assert(all[s.len() as int + 1] == m[0]);
    }
}

/// The functions are those of these thirteen names, and no others.
pub proof fn law_function_names(name: Seq<char>, f: Function)
    ensures
        function_named(name) == Some(f) <==> name_of(f) == Some(name),
        function_named(name) is None <==> name != "abs"@ && name != "sqrt"@ && name != "sin"@ && name
            != "cos"@ && name != "tan"@ && name != "ln"@ && name != "log"@ && name != "exp"@ && name
            != "floor"@ && name != "ceil"@ && name != "round"@ && name != "min"@ && name != "max"@,
{
    lemma_names(f, Constant::Pi);
}

/// Tokens are of three kinds and no others: numerals, names, and nine characters that stand alone.
pub proof fn law_kinds_of_tokens(s: Seq<char>, i: int)
    requires
        tokens(s) is Ok,
        0 <= i < tokens(s)->Ok_0.len(),
    ensures
        match tokens(s)->Ok_0[i] {
            Symbol::Num(m) => exists|k: int| #[trigger] numeral(m, k),
            Symbol::Id(n) => identifier(n),
            Symbol::Op(c) => c == '+' || c == '-' || c == '*' || c == '/' || c == '%' || c == '^'
                || c == '(' || c == ')' || c == ',',
        },
    decreases s.len(),
{
    if s.len() > 0 {
        if is_space(s[0]) {
            law_kinds_of_tokens(s.skip(1), i);
        } else if let Ok((sym, n)) = first_token(s) {
            lemma_first_token_len(s);
            let rest = tokens(s.skip(n as int))->Ok_0;
            assert(tokens(s)->Ok_0 == seq![sym] + rest);
            if i > 0 {
                assert(tokens(s)->Ok_0[i] == rest[i - 1]);
                law_kinds_of_tokens(s.skip(n as int), i - 1);
            } else {
                assert(tokens(s)->Ok_0[0] == sym);
                lemma_kind_of_first(s);
            }
        }
    }
}

proof fn lemma_kind_of_first(s: Seq<char>)
    requires
        s.len() > 0,
    ensures
        first_token(s) matches Ok((sym, _)) ==> match sym {
            Symbol::Num(m) => exists|k: int| #[trigger] numeral(m, k),
            Symbol::Id(n) => identifier(n),
            Symbol::Op(c) => c == '+' || c == '-' || c == '*' || c == '/' || c == '%' || c == '^'
                || c == '(' || c == ')' || c == ',',
        },
{
    lemma_first_token_len(s);
    if let Ok((sym, _)) = first_token(s) {
        if in_mantissa(s[0]) {
            let k = mantissa_len(s) as int;
            let m = s.take(number_len(s) as int);
            lemma_span_bound(s, |c: char| in_mantissa(c));
            let t = s.skip(k);
            let n: int = if t.len() > 1 && (t[1] == '+' || t[1] == '-') {
                2
            } else {
                1
            };
            assert(k > 0);
            assert forall|i: int| 0 <= i < k implies '0' <= #[trigger] m[i] <= '9' || m[i]
                == '.' by {
                assert(in_mantissa(s[i]));
            }
            let d = s.take(k);
            let at = choose|i: int| 0 <= i < d.len() && is_digit(#[trigger] d[i]);
            assert('0' <= m[at] <= '9');
            assert forall|i: int, j: int| 0 <= i < j < k implies !(#[trigger] m[i] == '.'
                && #[trigger] m[j] == '.') by {
                assert(m[i] == d[i] && m[j] == d[j]);
            }
            if k < m.len() {
                let u = t.skip(n);
                lemma_span_bound(u, |c: char| is_digit(c));
                assert(m.len() == k + n + span(u, |c: char| is_digit(c)));
                assert(t[0] == m[k]);
                assert(t[n] == s[k + n]);
                assert(u[0] == t[n]);
                assert(span(u, |c: char| is_digit(c)) > 0);
                assert(k + 1 < m.len());
                assert(t[1] == m[k + 1]);
                assert forall|i: int| k + n <= i < m.len() implies '0' <= #[trigger] m[i]
                    <= '9' by {
                    assert(u[i - k - n] == m[i]);
                    assert(is_digit(u[i - k - n]));
                }
            }
            assert(numeral(m, k));
            assert(sym == Symbol::Num(m));
            assert(numeral(sym->Num_0, k));
        } else if starts_name(s[0]) {
            let n = s.take(name_len(s) as int);
            lemma_span_bound(s, |c: char| in_name(c));
            assert forall|i: int| 0 <= i < n.len() implies word(#[trigger] n[i]) by {
                assert(in_name(s[i]));
            }
            assert(name_len(s) > 0);
            assert(n[0] == s[0]);
            assert(identifier(n));
            assert(sym == Symbol::Id(n));
        }
    }
}

} // verus!
