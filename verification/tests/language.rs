use mathsolver::eval::apply_fn;
use mathsolver::lexer::{tokenize, Tok};
use mathsolver::program::{read_line, read_lines, Line};
use mathsolver::{
    check, eval_expression, eval_expression_with, run_check, run_program, text, BinaryOp, Constant,
    Env, Real, SolverError, UnaryOp,
};

#[derive(Clone, Copy, Debug, PartialEq)]
struct F64(f64);

impl Real for F64 {
    fn literal(text: &str) -> Self {
        F64(text.parse().unwrap_or(f64::NAN))
    }

    fn constant(c: Constant) -> Self {
        F64(match c {
            Constant::Pi => std::f64::consts::PI,
            Constant::E => std::f64::consts::E,
            Constant::Infinity => f64::INFINITY,
            Constant::NegInfinity => f64::NEG_INFINITY,
            Constant::NotANumber => f64::NAN,
        })
    }

    fn unary(op: UnaryOp, x: Self) -> Self {
        F64(match op {
            UnaryOp::Neg => -x.0,
            UnaryOp::Abs => x.0.abs(),
            UnaryOp::Sqrt => x.0.sqrt(),
            UnaryOp::Sin => x.0.sin(),
            UnaryOp::Cos => x.0.cos(),
            UnaryOp::Tan => x.0.tan(),
            UnaryOp::Ln => x.0.ln(),
            UnaryOp::Log10 => x.0.log10(),
            UnaryOp::Exp => x.0.exp(),
            UnaryOp::Floor => x.0.floor(),
            UnaryOp::Ceil => x.0.ceil(),
            UnaryOp::Round => x.0.round(),
        })
    }

    fn binary(op: BinaryOp, x: Self, y: Self) -> Self {
        F64(match op {
            BinaryOp::Add => x.0 + y.0,
            BinaryOp::Sub => x.0 - y.0,
            BinaryOp::Mul => x.0 * y.0,
            BinaryOp::Div => x.0 / y.0,
            BinaryOp::Rem => x.0 % y.0,
            BinaryOp::Pow => x.0.powf(y.0),
            BinaryOp::Min => f64::min(x.0, y.0),
            BinaryOp::Max => f64::max(x.0, y.0),
        })
    }

    fn at_most(x: Self, y: Self) -> bool {
        x.0 <= y.0
    }

    fn is_finite(x: Self) -> bool {
        x.0.is_finite()
    }

    fn display(x: Self) -> String {
        format!("{}", x.0)
    }

    fn debug(x: Self) -> String {
        format!("{:?}", x.0)
    }
}

fn eval(src: &str) -> f64 {
    eval_expression::<F64>(src).unwrap().0
}

fn fault(e: SolverError) -> (&'static str, String) {
    (e.code, e.message)
}

fn eval_fault(src: &str) -> (&'static str, String) {
    fault(eval_expression::<F64>(src).unwrap_err())
}

fn run(src: &str) -> f64 {
    run_program::<F64>(src).unwrap().0
}

fn run_fault(src: &str) -> (&'static str, String) {
    fault(run_program::<F64>(src).unwrap_err())
}

fn says(code: &'static str, message: &str) -> (&'static str, String) {
    (code, message.to_string())
}

fn chars(s: &str) -> Vec<char> {
    s.chars().collect()
}

#[test]
fn numerals() {
    assert_eq!(eval("42"), 42.0);
    assert_eq!(eval("1.5"), 1.5);
    assert_eq!(eval(".5"), 0.5);
    assert_eq!(eval("5."), 5.0);
    assert_eq!(eval("1e3"), 1000.0);
    assert_eq!(eval("1E-2"), 0.01);
    assert_eq!(eval("2e+2"), 200.0);
    assert_eq!(eval("1.e2"), 100.0);
    assert_eq!(eval("007"), 7.0);
}

#[test]
fn exponents_must_be_complete() {
    assert_eq!(eval_fault("2e"), says("EXPR_TRAILING", "trailing tokens in expression"));
    assert_eq!(eval_fault("2e+"), says("EXPR_TRAILING", "trailing tokens in expression"));
    assert_eq!(eval_fault("2ex"), says("EXPR_TRAILING", "trailing tokens in expression"));
}

#[test]
fn bad_numbers() {
    assert_eq!(eval_fault("1.2.3"), says("EXPR_BAD_NUMBER", "bad number 1.2.3"));
    assert_eq!(eval_fault("."), says("EXPR_BAD_NUMBER", "bad number ."));
    assert_eq!(eval_fault("1 + .e5"), says("EXPR_BAD_NUMBER", "bad number .e5"));
}

#[test]
fn every_numeral_that_is_accepted_parses() {
    for mantissa in ["0", "12", "1.5", ".5", "5.", ".", "..", "1..2", "1.2.3", ""] {
        for exponent in ["", "e5", "E5", "e+5", "e-5", "e05"] {
            let src = format!("{}{}", mantissa, exponent);
            if mantissa.is_empty() {
                continue;
            }
            let expected: Result<f64, _> = src.parse();
            match eval_expression::<F64>(&src) {
                Ok(v) => assert_eq!(Ok(v.0), expected.map_err(|_| ())),
                Err(e) => {
                    assert!(expected.is_err());
                    assert_eq!(fault(e), says("EXPR_BAD_NUMBER", &format!("bad number {}", src)));
                }
            }
        }
    }
}

#[test]
fn bad_characters() {
    assert_eq!(eval_fault("2 $ 3"), says("EXPR_BAD_CHAR", "unexpected character '$'"));
    assert_eq!(eval_fault("2 × 3"), says("EXPR_BAD_CHAR", "unexpected character '×'"));
    assert_eq!(eval_fault("été"), says("EXPR_BAD_CHAR", "unexpected character 'é'"));
    assert_eq!(eval_fault("1 = 1"), says("EXPR_BAD_CHAR", "unexpected character '='"));
}

#[test]
fn empty_expressions() {
    assert_eq!(eval_fault(""), says("EXPR_EMPTY", "empty expression"));
    assert_eq!(eval_fault(" \t\n\u{3000}"), says("EXPR_EMPTY", "empty expression"));
}

#[test]
fn syntax_faults() {
    assert_eq!(eval_fault("2 +"), says("EXPR_SYNTAX", "expected more tokens"));
    assert_eq!(eval_fault("-"), says("EXPR_SYNTAX", "expected more tokens"));
    assert_eq!(eval_fault("(1"), says("EXPR_SYNTAX", "expected more tokens"));
    assert_eq!(eval_fault("sin(1"), says("EXPR_SYNTAX", "expected more tokens"));
    assert_eq!(eval_fault("(1, 2)"), says("EXPR_SYNTAX", "expected )"));
    assert_eq!(eval_fault("sin(1 2)"), says("EXPR_SYNTAX", "expected )"));
    assert_eq!(eval_fault(")"), says("EXPR_SYNTAX", "unexpected token )"));
    assert_eq!(eval_fault("2 * / 3"), says("EXPR_SYNTAX", "unexpected token /"));
    assert_eq!(eval_fault("sin()"), says("EXPR_SYNTAX", "unexpected token )"));
}

#[test]
fn trailing_tokens() {
    assert_eq!(eval_fault("1 2"), says("EXPR_TRAILING", "trailing tokens in expression"));
    assert_eq!(eval_fault("(1)(2)"), says("EXPR_TRAILING", "trailing tokens in expression"));
    assert_eq!(eval_fault("1)"), says("EXPR_TRAILING", "trailing tokens in expression"));
}

#[test]
fn unknown_names() {
    assert_eq!(eval_fault("foo(1)"), says("EXPR_UNKNOWN_FUNC", "unknown function foo"));
    assert_eq!(eval_fault("FOO(1)"), says("EXPR_UNKNOWN_FUNC", "unknown function foo"));
    assert_eq!(eval_fault("Xyz_1"), says("EXPR_UNKNOWN_ID", "unknown identifier xyz_1"));
    assert_eq!(eval_fault("sin"), says("EXPR_UNKNOWN_ID", "unknown identifier sin"));
    assert_eq!(eval_fault("pi(1)"), says("EXPR_UNKNOWN_FUNC", "unknown function pi"));
}

#[test]
fn the_first_fault_is_reported() {
    // A bad character anywhere comes before any other fault.
    assert_eq!(eval_fault("foo( $"), says("EXPR_BAD_CHAR", "unexpected character '$'"));
    // The arguments of a call come before its name.
    assert_eq!(eval_fault("foo(bar)"), says("EXPR_UNKNOWN_ID", "unknown identifier bar"));
    assert_eq!(eval_fault("foo(1"), says("EXPR_SYNTAX", "expected more tokens"));
    // What the tokens say comes before what they amount to.
    assert_eq!(eval_fault("1/0 1"), says("EXPR_TRAILING", "trailing tokens in expression"));
}

#[test]
fn values_must_be_finite() {
    let non_finite = says("EXPR_NON_FINITE", "expression evaluated to non-finite value");
    assert_eq!(eval_fault("1/0"), non_finite);
    assert_eq!(eval_fault("0/0"), non_finite);
    assert_eq!(eval_fault("ln(0)"), non_finite);
    assert_eq!(eval_fault("sqrt(-1)"), non_finite);
    assert_eq!(eval_fault("1e999"), non_finite);
    // Only the value of the whole expression counts.
    assert_eq!(eval("1/(1/0)"), 0.0);
}

#[test]
fn functions() {
    assert_eq!(eval("abs(-3)"), 3.0);
    assert_eq!(eval("sqrt(16)"), 4.0);
    assert_eq!(eval("sin(0)"), 0.0);
    assert_eq!(eval("cos(0)"), 1.0);
    assert_eq!(eval("tan(0)"), 0.0);
    assert_eq!(eval("ln(1)"), 0.0);
    assert_eq!(eval("log(100)"), 2.0);
    assert_eq!(eval("exp(0)"), 1.0);
    assert_eq!(eval("floor(-1.5)"), -2.0);
    assert_eq!(eval("ceil(-1.5)"), -1.0);
    assert_eq!(eval("round(2.5)"), 3.0);
    assert_eq!(eval("min(3, 1, 2)"), 1.0);
    assert_eq!(eval("max(3, 1, 2)"), 3.0);
    assert_eq!(eval("min(7)"), 7.0);
    assert_eq!(eval("max(-7)"), -7.0);
    assert_eq!(eval("sqrt(max(9, min(16, 25)))"), 4.0);
}

#[test]
fn functions_of_one_number_take_the_first() {
    assert_eq!(eval("abs(-1, 5)"), 1.0);
    assert_eq!(eval_fault("abs(-1, foo)"), says("EXPR_UNKNOWN_ID", "unknown identifier foo"));
}

#[test]
fn constants_and_case() {
    assert_eq!(eval("pi"), std::f64::consts::PI);
    assert_eq!(eval("E"), std::f64::consts::E);
    assert_eq!(eval("Pi"), std::f64::consts::PI);
    assert_eq!(eval("SQRT(9)"), 3.0);
}

#[test]
fn operators_bind_by_rank() {
    assert_eq!(eval("2+3*4"), 14.0);
    assert_eq!(eval("2*3+4"), 10.0);
    assert_eq!(eval("(2+3)*4"), 20.0);
    assert_eq!(eval("2*3^2"), 18.0);
    assert_eq!(eval("3^2*2"), 18.0);
    assert_eq!(eval("1+7%4"), 4.0);
}

#[test]
fn operators_group_from_the_left_but_for_powers() {
    assert_eq!(eval("10-4-3"), 3.0);
    assert_eq!(eval("10-4+3"), 9.0);
    assert_eq!(eval("100/10/5"), 2.0);
    assert_eq!(eval("100/10*5"), 50.0);
    assert_eq!(eval("17%10%4"), 3.0);
    assert_eq!(eval("2^3^2"), 512.0);
}

#[test]
fn signs() {
    assert_eq!(eval("-2^2"), -4.0);
    assert_eq!(eval("2^-1"), 0.5);
    assert_eq!(eval("2*-3"), -6.0);
    assert_eq!(eval("2--3"), 5.0);
    assert_eq!(eval("--2"), 2.0);
    assert_eq!(eval("+5"), 5.0);
    assert_eq!(eval("-+-5"), 5.0);
    assert_eq!(eval("-7%4"), -3.0);
    assert_eq!(eval("(-2)^2"), 4.0);
}

#[test]
fn white_space_separates_tokens() {
    assert_eq!(eval(" 1\u{a0}+\u{3000}2\r\n"), 3.0);
    assert_eq!(eval("1+2"), eval(" 1 + 2 "));
    assert_eq!(eval_fault("1 .5"), says("EXPR_TRAILING", "trailing tokens in expression"));
}

#[test]
fn an_expression_in_parentheses_reads_back() {
    assert_eq!(eval("((1+2)*(-(3^2)))"), -27.0);
    assert_eq!(eval("((1+2)*(-(3^2)))"), eval("(1+2)*-3^2"));
    assert_eq!(eval("((((5))))"), 5.0);
}

#[test]
fn variables() {
    let mut env = Env::<F64>::new();
    env.insert("x".to_string(), F64(4.0));
    env.insert("X".to_string(), F64(7.0));
    let eval = |src: &str| eval_expression_with(src, &env).map(|v: F64| v.0).map_err(fault);
    assert_eq!(eval("2*x + 3 - 11"), Ok(0.0));
    assert_eq!(eval("X - x"), Ok(3.0));
    assert_eq!(eval("y"), Err(says("EXPR_UNKNOWN_ID", "unknown identifier y")));
}

#[test]
fn variables_hide_constants_and_functions() {
    let mut env = Env::<F64>::new();
    env.insert("pi".to_string(), F64(3.0));
    env.insert("sin".to_string(), F64(2.0));
    let eval = |src: &str| eval_expression_with(src, &env).map(|v: F64| v.0).map_err(fault);
    assert_eq!(eval("pi"), Ok(3.0));
    assert_eq!(eval("PI"), Ok(std::f64::consts::PI));
    assert_eq!(eval("sin"), Ok(2.0));
    assert_eq!(eval("sin(0)"), Err(says("EXPR_TRAILING", "trailing tokens in expression")));
    assert_eq!(eval("SIN(0)"), Ok(0.0));
}

#[test]
fn other_variables_do_not_count() {
    let mut env = Env::<F64>::new();
    env.insert("x".to_string(), F64(4.0));
    let before: F64 = eval_expression_with("x*x", &env).unwrap();
    env.insert("y".to_string(), F64(9.0));
    let after: F64 = eval_expression_with("x*x", &env).unwrap();
    assert_eq!(before, after);
}

#[test]
fn tokens_are_spelled_as_written() {
    let toks = tokenize("max_1 (2.50e+3)%x").unwrap();
    let spelled: Vec<String> = toks
        .iter()
        .map(|t| match t {
            Tok::Num(s) => format!("n:{}", s),
            Tok::Id(s) => format!("i:{}", s),
            Tok::Op(c) => format!("o:{}", c),
        })
        .collect();
    assert_eq!(spelled, vec!["i:max_1", "o:(", "n:2.50e+3", "o:)", "o:%", "i:x"]);
}

#[test]
fn answers_of_programs() {
    assert_eq!(run("result = 5"), 5.0);
    assert_eq!(run("let result = 5; 7"), 5.0);
    assert_eq!(run("7; result = 5; 8"), 5.0);
    assert_eq!(run("result = 1; result = result + 1"), 2.0);
    assert_eq!(run("7; 8"), 8.0);
    assert_eq!(run("let a = 2\n\n ; _b1 = a^3 ;; _b1 + 1\n"), 9.0);
    assert_eq!(run("let pi = 3; pi"), 3.0);
}

#[test]
fn programs_without_an_answer() {
    assert_eq!(run_fault(""), says("PROGRAM_EMPTY", "empty program"));
    assert_eq!(run_fault(" \n\t"), says("PROGRAM_EMPTY", "empty program"));
    assert_eq!(run_fault(";;"), says("PROGRAM_NO_RESULT", "program produced no result"));
    assert_eq!(run_fault("let a = 1; b = 2"), says("PROGRAM_NO_RESULT", "program produced no result"));
    assert_eq!(run_fault("Result = 2"), says("PROGRAM_NO_RESULT", "program produced no result"));
}

#[test]
fn the_first_fault_ends_a_program() {
    assert_eq!(run_fault("a = $; b = 1.2.3"), says("EXPR_BAD_CHAR", "unexpected character '$'"));
    assert_eq!(run_fault("result = 1; oops"), says("EXPR_UNKNOWN_ID", "unknown identifier oops"));
    assert_eq!(run_fault("result = x; x = 1"), says("EXPR_UNKNOWN_ID", "unknown identifier x"));
    assert_eq!(run_fault("x ="), says("EXPR_EMPTY", "empty expression"));
}

#[test]
fn lines_that_assign_and_lines_that_do_not() {
    let shown = |src: &str| match read_line(&chars(src)) {
        Line::Assign(name, text) => format!("{} := {}", name, text),
        Line::Value(text) => text,
    };
    assert_eq!(shown("let x = 2 + 3"), "x := 2 + 3");
    assert_eq!(shown("x=2"), "x := 2");
    assert_eq!(shown("été = 3"), "été := 3");
    assert_eq!(shown("letx = 3"), "letx := 3");
    assert_eq!(shown("let my var = 3"), "my var := 3");
    assert_eq!(shown("let = 3"), " := 3");
    assert_eq!(shown("let=3"), "let := 3");
    assert_eq!(shown("a == 2"), "a := = 2");
    assert_eq!(shown("2x = 5"), "2x = 5");
    assert_eq!(shown("let\tx = 3"), "let\tx = 3");
    assert_eq!(shown("let x"), "let x");
    assert_eq!(shown("= 3"), "= 3");
}

#[test]
fn lines_are_trimmed_and_blank_ones_left_out() {
    let lines = read_lines(" a = 1 ;\n\t; 2 \n");
    assert_eq!(lines.len(), 2);
    assert!(matches!(&lines[0], Line::Assign(n, t) if n == "a" && t == "1"));
    assert!(matches!(&lines[1], Line::Value(t) if t == "2"));
}

#[test]
fn names_of_any_script_can_be_set() {
    assert_eq!(run("été = 3; result = 4"), 4.0);
    assert_eq!(run_fault("été = 3; result = été"), says("EXPR_BAD_CHAR", "unexpected character 'é'"));
    assert_eq!(run("x² = 3; result = 4"), 4.0);
    assert_eq!(run_fault("²x = 3"), says("EXPR_BAD_CHAR", "unexpected character '²'"));
}

#[test]
fn checks_put_the_answer_in() {
    assert_eq!(run_check("{x} + 2", F64(-2.0)).unwrap(), (F64(0.0), true));
    assert_eq!(run_check("{x}*{x} - 4", F64(-2.0)).unwrap(), (F64(0.0), true));
    assert_eq!(run_check("{x}^2 - 4", F64(-2.0)).unwrap(), (F64(0.0), true));
    assert_eq!(run_check("1", F64(-2.0)).unwrap(), (F64(1.0), false));
    assert_eq!(run_check("{x} - 1e21", F64(1e21)).unwrap(), (F64(0.0), true));
    assert_eq!(run_check("{x} - 1e-7", F64(1e-7)).unwrap(), (F64(0.0), true));
}

#[test]
fn placeholders_are_replaced_where_they_stand() {
    assert_eq!(check::substitute("2*{x} + 3", "(4)"), "2*(4) + 3");
    assert_eq!(check::substitute("{x}{x}", "ab"), "abab");
    assert_eq!(check::substitute("{{x}}", "1"), "{1}");
    assert_eq!(check::substitute("{x", "1"), "{x");
    assert_eq!(check::substitute("no braces", "1"), "no braces");
    assert_eq!(check::substitute("", "1"), "");
    assert_eq!(check::substitute("{x}", "{x}"), "{x}");
}

#[test]
fn faults_of_checks() {
    let check_fault = |src: &str, answer: f64| fault(run_check(src, F64(answer)).unwrap_err());
    assert_eq!(check_fault("", 1.0), says("EXPR_EMPTY", "empty expression"));
    assert_eq!(check_fault("{x", 1.0), says("EXPR_BAD_CHAR", "unexpected character '{'"));
    assert_eq!(check_fault("{y}", 1.0), says("EXPR_BAD_CHAR", "unexpected character '{'"));
    assert_eq!(check_fault("{x}", f64::NAN), says("EXPR_UNKNOWN_ID", "unknown identifier nan"));
    assert_eq!(check_fault("1/{x}", 0.0), says("EXPR_NON_FINITE", "expression evaluated to non-finite value"));
}

#[test]
fn tolerance_is_a_millionth_of_the_answer_or_of_one() {
    assert!(run_check("0.000001", F64(0.5)).unwrap().1);
    assert!(run_check("-0.000001", F64(-0.5)).unwrap().1);
    assert!(!run_check("0.0000011", F64(0.5)).unwrap().1);
    assert!(run_check("500", F64(1e9)).unwrap().1);
    assert!(run_check("1000", F64(-1e9)).unwrap().1);
    assert!(!run_check("1500", F64(1e9)).unwrap().1);
    assert!(check::passes(F64(0.0), F64(0.0)));
    assert!(!check::passes(F64(f64::NAN), F64(1.0)));
}

#[test]
fn characters_are_classed_as_in_std() {
    for c in '\0'..=char::MAX {
        assert_eq!(text::is_whitespace(c), c.is_whitespace());
        assert_eq!(text::alphabetic(c), c.is_alphabetic());
        assert_eq!(text::alphanumeric(c), c.is_alphanumeric());
        assert_eq!(text::digit(c), c.is_ascii_digit());
        assert_eq!(text::letter(c), c.is_ascii_alphabetic());
    }
}

#[test]
fn texts_are_taken_apart_as_in_std() {
    for s in ["", " ", "a", " a", "a ", "\t a b \n", "é\u{2003}", "x//", "//", "a/b/", "=a=b"] {
        let v = chars(s);
        assert_eq!(text::chars_of(s), v);
        assert_eq!(text::string_of(&v), s);
        assert_eq!(text::is_blank(&v), s.trim().is_empty());
        assert_eq!(text::string_of(text::trim(&v)), s.trim());
        assert_eq!(text::string_of(text::strip_char(&v, '/')), s.trim_end_matches('/'));
        assert_eq!(text::find_first(&v, '='), v.iter().position(|c| *c == '='));
        assert_eq!(text::find_last(&v, '='), v.iter().rposition(|c| *c == '='));
        assert_eq!(text::starts_with(&v, "a"), s.starts_with("a"));
        assert_eq!(text::starts_with(&v, "x//y"), s.starts_with("x//y"));
        assert_eq!(text::to_lower(s), s.to_ascii_lowercase());
        assert!(text::same_text(s, &s.to_string()));
        assert!(!text::same_text(s, "something else"));
    }
    assert_eq!(text::to_lower("aBZ[_9É"), "abz[_9É");
    assert_eq!(text::join2("ab", "cd"), "abcd");
    assert_eq!(text::join3("ab", "", "cd"), "abcd");
}

#[test]
fn functions_are_applied_by_name_to_any_number_of_arguments() {
    let apply = |name: &str, args: Vec<F64>| apply_fn(name, &args).map(|v| v.0).map_err(fault);
    for name in ["abs", "sqrt", "sin", "cos", "tan", "ln", "log", "exp", "floor", "ceil", "round"] {
        assert!(apply(name, vec![]).unwrap().is_nan());
        assert!(apply(name, vec![F64(1.0)]).unwrap().is_finite());
        assert_eq!(apply(name, vec![F64(1.0)]), apply(name, vec![F64(1.0), F64(2.0)]));
    }
    assert_eq!(apply("min", vec![]), Ok(f64::INFINITY));
    assert_eq!(apply("max", vec![]), Ok(f64::NEG_INFINITY));
    assert_eq!(apply("max", vec![F64(2.0), F64(5.0), F64(3.0)]), Ok(5.0));
    for name in ["", "Abs", "pi", "foo", "sin "] {
        let unknown = says("EXPR_UNKNOWN_FUNC", &format!("unknown function {}", name));
        assert_eq!(apply(name, vec![]), Err(unknown.clone()));
        assert_eq!(apply(name, vec![F64(1.0)]), Err(unknown));
    }
}

#[test]
fn parentheses_keep_the_meaning() {
    for src in ["1+2", " 2^3^2 ", "max(1, 2, (3))", "-5 % 3", "2e3", "pi", ".5"] {
        assert_eq!(eval(&format!("({})", src)), eval(src));
        assert_eq!(eval(&format!("({}) * ({})", src, src)), eval(src) * eval(src));
    }
}

#[test]
fn tokens_part_at_what_is_no_name_or_numeral() {
    assert_eq!(tokenize("a1)b").unwrap().len(), 3);
    assert_eq!(tokenize("2e*3").unwrap().len(), 4);
    assert_eq!(tokenize("2e +3").unwrap().len(), 4);
    // A sign can belong to an exponent.
    assert_eq!(tokenize("2e+3").unwrap().len(), 1);
}

#[test]
fn an_answer_is_read_back_from_a_check() {
    let values =
        [0.0, 4.0, -2.5, 0.1, -1.0 / 3.0, 1e21, -1e21, 1e-7, 1e-6, 1.1e-6, 5e-324, f64::MAX];
    for v in values {
        assert_eq!(run_check("{x}", F64(v)).unwrap(), (F64(v), v.abs() <= 1e-6));
        assert_eq!(run_check("{x} - {x}", F64(v)).unwrap(), (F64(0.0), true));
    }
}

#[test]
fn signs_and_operators_stand_close_to_parentheses() {
    assert_eq!(eval("-(1+2)"), -3.0);
    assert_eq!(eval("+(1+2)"), 3.0);
    assert_eq!(eval("(1+2)*(3-5)"), -6.0);
    assert_eq!(eval("(1+2) \t*\n(3-5)"), -6.0);
    assert_eq!(eval("(2e3)-(2)"), 1998.0);
}

#[test]
fn newlines_and_semicolons_are_alike() {
    for (a, b) in [("x = 2", "x * 3"), ("", "1"), ("let y = 1;", "result = y"), ("7 ", "")] {
        let newline = run_program::<F64>(&format!("{}\n{}", a, b)).unwrap();
        assert_eq!(run_program::<F64>(&format!("{};{}", a, b)).unwrap(), newline);
        assert_eq!(
            read_lines(&format!("{};{}", a, b)).len(),
            read_lines(a).len() + read_lines(b).len()
        );
    }
}

#[test]
fn a_result_is_its_expression() {
    for e in ["1+2", " 2 ^ 3 ", "", "  ", "1/0", "oops", "1 = 2", "let x = 1"] {
        let set = run_program::<F64>(&format!("result = {}", e)).map_err(fault);
        assert_eq!(set, eval_expression::<F64>(e).map_err(fault));
    }
}
