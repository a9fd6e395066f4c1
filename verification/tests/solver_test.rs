use mathsolver::client::authorization;
use mathsolver::reply::{
    message_content, parse_solver_json, read_content, read_fields, submit, Fields,
};
use mathsolver::session::{attempt, complain, Progress};
use mathsolver::{
    eval_expression, run_check, run_program, BinaryOp, Constant, MathSolver, Real, Session,
    SolveOptions, SolveResult, SolverError, UnaryOp, SYSTEM_PROMPT,
};
use serde_json::Value;
use std::sync::atomic::{AtomicUsize, Ordering};
use std::sync::{Arc, Mutex};

const GOOD: &str = r#"{"program": "let d = 11 - 3;\nlet x = d / 2;\nresult = x", "steps": ["Subtract 3: 2x = 8", "Divide by 2: x = 4"], "check": "2*{x} + 3 - 11"}"#;
const NO_CHECK: &str = r#"{"program": "result = 0.15 * 80", "steps": ["15% of 80"]}"#;
const WRONG_CHECK: &str = r#"{"program": "let d = 11 - 3;\nresult = d / 2", "steps": ["..."], "check": "2*{x} + 3 - 12"}"#;
const BROKEN_PROGRAM: &str = r#"{"program": "result = undefinedvar + 1", "steps": []}"#;

#[derive(Clone, Copy, Debug, PartialEq)]
struct F64(f64);

impl Real for F64 {
    fn literal(text: &str) -> Self {
        F64(text.parse().unwrap_or(f64::NAN))
    }

    fn constant(c: Constant) -> Self {
        F64(match c {
            Constant::Pi => std::f64::consts::PI,
            Constant::E => std::f64::consts::E,
            Constant::Infinity => f64::INFINITY,
            Constant::NegInfinity => f64::NEG_INFINITY,
            Constant::NotANumber => f64::NAN,
        })
    }

    fn unary(op: UnaryOp, x: Self) -> Self {
        F64(match op {
            UnaryOp::Neg => -x.0,
            UnaryOp::Abs => x.0.abs(),
            UnaryOp::Sqrt => x.0.sqrt(),
            UnaryOp::Sin => x.0.sin(),
            UnaryOp::Cos => x.0.cos(),
            UnaryOp::Tan => x.0.tan(),
            UnaryOp::Ln => x.0.ln(),
            UnaryOp::Log10 => x.0.log10(),
            UnaryOp::Exp => x.0.exp(),
            UnaryOp::Floor => x.0.floor(),
            UnaryOp::Ceil => x.0.ceil(),
            UnaryOp::Round => x.0.round(),
        })
    }

    fn binary(op: BinaryOp, x: Self, y: Self) -> Self {
        F64(match op {
            BinaryOp::Add => x.0 + y.0,
            BinaryOp::Sub => x.0 - y.0,
            BinaryOp::Mul => x.0 * y.0,
            BinaryOp::Div => x.0 / y.0,
            BinaryOp::Rem => x.0 % y.0,
            BinaryOp::Pow => x.0.powf(y.0),
            BinaryOp::Min => f64::min(x.0, y.0),
            BinaryOp::Max => f64::max(x.0, y.0),
        })
    }

    fn at_most(x: Self, y: Self) -> bool {
        x.0 <= y.0
    }

    fn is_finite(x: Self) -> bool {
        x.0.is_finite()
    }

    fn display(x: Self) -> String {
        format!("{}", x.0)
    }

    fn debug(x: Self) -> String {
        format!("{:?}", x.0)
    }
}

fn eval(src: &str) -> Result<f64, SolverError> {
    eval_expression::<F64>(src).map(|v| v.0)
}

fn run(src: &str) -> Result<f64, SolverError> {
    run_program::<F64>(src).map(|v| v.0)
}

#[test]
fn evaluator_precedence() {
    assert_eq!(eval("2*3+4").unwrap(), 10.0);
    assert_eq!(eval("2^3^2").unwrap(), 512.0);
    assert_eq!(eval("-3^2").unwrap(), -9.0);
    assert_eq!(eval("sqrt(16)").unwrap(), 4.0);
}

#[test]
fn run_program_let_and_result() {
    let p = "let d = 11 - 3;\nlet x = d / 2;\nresult = x";
    assert_eq!(run(p).unwrap(), 4.0);
    assert_eq!(run("let a = 3; let b = 4; a * b").unwrap(), 12.0);
    assert!(run("result = undefinedvar + 1").is_err());
    assert!(run("let a = 1; let b = 2").is_err()); // no result
}

#[test]
fn run_check_substitution() {
    let (v, ok) = run_check("2*{x} + 3 - 11", F64(4.0)).unwrap();
    assert_eq!(v.0, 0.0);
    assert!(ok);
    let (v, ok) = run_check("2*{x} + 3 - 12", F64(4.0)).unwrap();
    assert_eq!(v.0, -1.0);
    assert!(!ok);
}

#[test]
fn new_validates_credentials() {
    assert_eq!(MathSolver::new("", "https://api.x").err().unwrap().code, "NO_API_KEY");
    assert_eq!(MathSolver::new("sk", "not-a-url").err().unwrap().code, "BAD_BASE_URL");
}

#[test]
fn solve_answer_from_execution_first_try() {
    let calls = Arc::new(AtomicUsize::new(0));
    let calls_in = Arc::clone(&calls);
    let solver = MathSolver::with_transport(
        "sk-test",
        "https://api.deepseek.com/v1",
        move |url: &str, body: &str, key: &str| {
            calls_in.fetch_add(1, Ordering::SeqCst);
            assert!(url.starts_with("https://api.deepseek.com/v1/chat/completions"));
            assert!(body.contains("program"));
            assert_eq!(key, "sk-test");
            Ok(GOOD.to_string())
        },
    )
    .ok()
    .unwrap()
    .model("deepseek-chat");
    let r = solver.solve::<F64>("2x + 3 = 11, solve for x").unwrap();
    assert!(r.verified);
    assert_eq!(r.answer.0, 4.0);
    assert_eq!(r.evaluated.map(|v| v.0), Some(0.0)); // check value
    assert_eq!(r.retries, 0);
    assert_eq!(calls.load(Ordering::SeqCst), 1);
}

#[test]
fn solve_no_check_unverified() {
    let solver = MathSolver::with_transport("sk", "https://x", |_: &str, _: &str, _: &str| {
        Ok(NO_CHECK.to_string())
    })
    .ok()
    .unwrap();
    let r = solver.solve::<F64>("15% of 80").unwrap();
    assert_eq!(r.answer.0, 12.0);
    assert!(!r.verified);
}

#[test]
fn solve_check_fail_retry_recovers() {
    let n = Arc::new(AtomicUsize::new(0));
    let n_in = Arc::clone(&n);
    let solver = MathSolver::with_transport("sk", "https://x", move |_: &str, _: &str, _: &str| {
        let i = n_in.fetch_add(1, Ordering::SeqCst);
        Ok(if i == 0 { WRONG_CHECK.to_string() } else { GOOD.to_string() })
    })
    .ok()
    .unwrap();
    let r = solver.solve::<F64>("2x+3=11").unwrap();
    assert!(r.verified);
    assert_eq!(r.retries, 1);
}

#[test]
fn solve_program_error_retry_recovers() {
    let n = Arc::new(AtomicUsize::new(0));
    let n_in = Arc::clone(&n);
    let solver = MathSolver::with_transport("sk", "https://x", move |_: &str, _: &str, _: &str| {
        let i = n_in.fetch_add(1, Ordering::SeqCst);
        Ok(if i == 0 { BROKEN_PROGRAM.to_string() } else { GOOD.to_string() })
    })
    .ok()
    .unwrap();
    let r = solver.solve::<F64>("2x+3=11").unwrap();
    assert!(r.verified);
    assert_eq!(r.answer.0, 4.0);
}

#[test]
fn solve_program_error_persists_raises() {
    let solver = MathSolver::with_transport("sk", "https://x", |_: &str, _: &str, _: &str| {
        Ok(BROKEN_PROGRAM.to_string())
    })
    .ok()
    .unwrap();
    let err = solver.solve::<F64>("2x+3=11").unwrap_err();
    assert!(err.code.starts_with("PROGRAM_") || err.code.starts_with("EXPR_"), "got {}", err.code);
}

#[test]
fn solve_invalid_json_then_ok() {
    let n = Arc::new(AtomicUsize::new(0));
    let n_in = Arc::clone(&n);
    let solver = MathSolver::with_transport("sk", "https://x", move |_: &str, _: &str, _: &str| {
        let i = n_in.fetch_add(1, Ordering::SeqCst);
        Ok(if i == 0 { "no json here".to_string() } else { GOOD.to_string() })
    })
    .ok()
    .unwrap();
    assert!(solver.solve::<F64>("1+1").unwrap().verified);
}

#[test]
fn solve_http_error_no_retry() {
    let calls = Arc::new(AtomicUsize::new(0));
    let calls_in = Arc::clone(&calls);
    let solver = MathSolver::with_transport("sk", "https://x", move |_: &str, _: &str, _: &str| {
        calls_in.fetch_add(1, Ordering::SeqCst);
        Err(SolverError::new("HTTP_ERROR", "401"))
    })
    .ok()
    .unwrap();
    let err = solver.solve::<F64>("1+1").unwrap_err();
    assert_eq!(err.code, "HTTP_ERROR");
    assert_eq!(calls.load(Ordering::SeqCst), 1);
}

#[test]
fn solve_check_still_failing_unverified() {
    let solver = MathSolver::with_transport("sk", "https://x", |_: &str, _: &str, _: &str| {
        Ok(WRONG_CHECK.to_string())
    })
    .ok()
    .unwrap();
    let r = solver.solve::<F64>("2x+3=11").unwrap();
    assert!(!r.verified);
    assert_eq!(r.answer.0, 4.0); // still the executed answer
    assert_eq!(r.retries, 1);
}

const BROKEN_CHECK: &str = r#"{"program": "result = 4", "steps": [], "check": "{x} ? 4"}"#;
const UNREADABLE: &str = "no json here";
const FORMAT_AGAIN: &str =
    "Your reply was not valid JSON. Reply again with the exact strict JSON shape.";

/// Solves a problem over a transport that gives the replies in turn, and returns the bodies that
/// were sent too.
fn converse(
    replies: &'static [&'static str],
) -> (Result<SolveResult<F64>, SolverError>, Vec<Value>) {
    let bodies = Arc::new(Mutex::new(Vec::new()));
    let sent = Arc::clone(&bodies);
    let solver = MathSolver::with_transport(
        "sk",
        "https://x",
        move |_: &str, body: &str, _: &str| {
            let mut sent = sent.lock().unwrap();
            sent.push(serde_json::from_str(body).unwrap());
            Ok(replies[sent.len() - 1].to_string())
        },
    )
    .ok()
    .unwrap();
    let r = solver.solve::<F64>("2x+3=11");
    let bodies = bodies.lock().unwrap().clone();
    (r, bodies)
}

fn turn(body: &Value, i: usize) -> (&str, &str) {
    let m = &body["messages"][i];
    (m["role"].as_str().unwrap(), m["content"].as_str().unwrap())
}

fn turns(body: &Value) -> usize {
    body["messages"].as_array().unwrap().len()
}

#[test]
fn requests_hold_the_model_and_the_conversation() {
    let (r, bodies) = converse(&[GOOD]);
    assert!(r.unwrap().verified);
    assert_eq!(bodies.len(), 1);
    let body = &bodies[0];
    assert_eq!(body.as_object().unwrap().len(), 3);
    assert_eq!(body["model"].as_str(), Some("gpt-4o-mini"));
    assert_eq!(body["temperature"].as_i64(), Some(0));
    assert_eq!(turns(body), 2);
    assert_eq!(turn(body, 0), ("system", SYSTEM_PROMPT));
    assert_eq!(turn(body, 1), ("user", "2x+3=11"));
}

#[test]
fn a_verified_submission_is_returned_at_once() {
    let (r, bodies) = converse(&[GOOD]);
    let r = r.unwrap();
    assert_eq!(r.answer, F64(4.0));
    assert_eq!(r.evaluated, Some(F64(0.0)));
    assert_eq!(r.retries, 0);
    assert_eq!(r.steps, vec!["Subtract 3: 2x = 8", "Divide by 2: x = 4"]);
    assert_eq!(r.expression, "let d = 11 - 3;\nlet x = d / 2;\nresult = x");
    assert_eq!(bodies.len(), 1);
}

#[test]
fn an_unreadable_reply_is_asked_for_again() {
    let (r, bodies) = converse(&[UNREADABLE, GOOD]);
    let r = r.unwrap();
    assert!(r.verified);
    assert_eq!(r.retries, 0);
    assert_eq!(bodies.len(), 2);
    assert_eq!(turns(&bodies[1]), 4);
    assert_eq!(turn(&bodies[1], 1), ("user", "2x+3=11"));
    assert_eq!(turn(&bodies[1], 2), ("assistant", "invalid JSON"));
    assert_eq!(turn(&bodies[1], 3), ("user", FORMAT_AGAIN));
}

#[test]
fn a_second_unreadable_reply_is_final() {
    let (r, bodies) = converse(&[UNREADABLE, "{\"steps\": []}"]);
    let e = r.unwrap_err();
    assert_eq!((e.code, e.message.as_str()), ("INVALID_JSON", "missing program"));
    assert_eq!(bodies.len(), 2);
}

#[test]
fn a_failed_check_is_shown_with_the_submission() {
    let (r, bodies) = converse(&[WRONG_CHECK, GOOD]);
    assert_eq!(r.unwrap().retries, 1);
    assert_eq!(turns(&bodies[1]), 4);
    let (role, content) = turn(&bodies[1], 2);
    assert_eq!(role, "assistant");
    assert_eq!(
        content,
        r#"{"check":"2*{x} + 3 - 12","program":"let d = 11 - 3;\nresult = d / 2","steps":["..."]}"#
    );
    assert_eq!(
        turn(&bodies[1], 3),
        (
            "user",
            "Your submission failed verification: check evaluated to Some(-1.0) instead of 0. Re-derive the problem carefully and reply again with the same strict JSON shape."
        )
    );
}

#[test]
fn a_missing_check_is_complained_of() {
    let (r, bodies) = converse(&[NO_CHECK, NO_CHECK]);
    let r = r.unwrap();
    assert_eq!((r.answer, r.evaluated, r.verified, r.retries), (F64(12.0), None, false, 1));
    assert_eq!(
        turn(&bodies[1], 2),
        ("assistant", r#"{"check":null,"program":"result = 0.15 * 80","steps":["15% of 80"]}"#)
    );
    assert!(turn(&bodies[1], 3).1.contains(": check evaluated to None instead of 0. "));
}

#[test]
fn a_program_that_fails_is_complained_of() {
    let (r, bodies) = converse(&[BROKEN_PROGRAM, GOOD]);
    let r = r.unwrap();
    assert_eq!((r.answer, r.verified, r.retries), (F64(4.0), true, 1));
    assert!(turn(&bodies[1], 3)
        .1
        .contains(": program failed to execute (unknown identifier undefinedvar). "));
}

#[test]
fn a_second_program_that_fails_is_final() {
    let (r, bodies) = converse(&[BROKEN_CHECK, BROKEN_PROGRAM]);
    let e = r.unwrap_err();
    assert_eq!(
        (e.code, e.message.as_str()),
        ("EXPR_UNKNOWN_ID", "unknown identifier undefinedvar")
    );
    assert_eq!(bodies.len(), 2);
    assert!(turn(&bodies[1], 3).1.contains("program failed to execute (unexpected character '?')"));
}

#[test]
fn an_unreadable_revision_is_final() {
    let (r, bodies) = converse(&[WRONG_CHECK, UNREADABLE]);
    let e = r.unwrap_err();
    assert_eq!((e.code, e.message.as_str()), ("INVALID_JSON", "no JSON object in reply"));
    assert_eq!(bodies.len(), 2);
}

#[test]
fn the_model_is_asked_three_times_at_most() {
    let (r, bodies) = converse(&[UNREADABLE, WRONG_CHECK, WRONG_CHECK]);
    let r = r.unwrap();
    assert_eq!((r.verified, r.retries), (false, 1));
    assert_eq!(bodies.len(), 3);
    assert_eq!(turns(&bodies[2]), 6);
    for i in 0..4 {
        assert_eq!(turn(&bodies[2], i), turn(&bodies[1], i));
    }
}

#[test]
fn a_blank_problem_is_not_sent() {
    let calls = Arc::new(AtomicUsize::new(0));
    let calls_in = Arc::clone(&calls);
    let solver = MathSolver::with_transport("sk", "https://x", move |_: &str, _: &str, _: &str| {
        calls_in.fetch_add(1, Ordering::SeqCst);
        Ok(GOOD.to_string())
    })
    .ok()
    .unwrap();
    let e = solver.solve::<F64>(" \n").unwrap_err();
    assert_eq!((e.code, e.message.as_str()), ("NO_PROBLEM", "problem must be non-empty"));
    assert_eq!(calls.load(Ordering::SeqCst), 0);
}

#[test]
fn transport_errors_are_passed_on() {
    let solver = MathSolver::with_transport("sk", "https://x", |_: &str, _: &str, _: &str| {
        Err(SolverError::new("CUSTOM", "out of reach"))
    })
    .ok()
    .unwrap();
    let e = solver.solve::<F64>("1+1").unwrap_err();
    assert_eq!((e.code, e.message.as_str()), ("CUSTOM", "out of reach"));
}

#[test]
fn base_urls() {
    let base = |url: &str| MathSolver::new("sk", url).ok().map(|s| s.base_url().to_string());
    assert_eq!(base("https://x/v1///"), Some("https://x/v1".to_string()));
    assert_eq!(base("http://localhost:8080"), Some("http://localhost:8080".to_string()));
    assert_eq!(base("https://"), None);
    assert_eq!(base("http:/"), None);
    assert_eq!(base("ftp://x"), None);
    assert_eq!(base("HTTPS://x"), None);
    assert_eq!(base(""), None);
    let e = MathSolver::new("sk", "ftp://x").err().unwrap();
    assert_eq!(e.message, "base_url must be an http(s) URL, e.g. https://api.deepseek.com/v1");
    let e = MathSolver::new("", "ftp://x").err().unwrap();
    assert_eq!((e.code, e.message.as_str()), ("NO_API_KEY", "api_key is required (BYOK)"));
}

#[test]
fn a_detached_client_leaves_the_requests_to_its_caller() {
    let solver = MathSolver::new("sk-test", "https://x/").ok().unwrap().model("deepseek-chat");
    assert_eq!(solver.model_name(), "deepseek-chat");
    let session = Session::start("2x+3=11").ok().unwrap();
    let request = solver.request(&session);
    assert_eq!(request.url, "https://x/chat/completions");
    assert_eq!(request.api_key, "sk-test");
    assert!(!request.body.contains("sk-test"));
    let body: Value = serde_json::from_str(&request.body).unwrap();
    assert_eq!(body["model"].as_str(), Some("deepseek-chat"));
    assert_eq!(request.body, session.body("deepseek-chat"));
    let session = match session.advance::<F64>(Ok(WRONG_CHECK.to_string())) {
        Progress::Ask(session) => session,
        Progress::Done(_) => panic!("ended early"),
    };
    match session.advance::<F64>(Ok(GOOD.to_string())) {
        Progress::Done(r) => assert_eq!(r.ok().unwrap().retries, 1),
        Progress::Ask(_) => panic!("asked again"),
    };
}

#[test]
fn blank_problems_open_no_session() {
    let e = Session::start("\t").err().unwrap();
    assert_eq!((e.code, e.message.as_str()), ("NO_PROBLEM", "problem must be non-empty"));
}

#[test]
fn submissions_are_found_in_replies() {
    let p = parse_solver_json("```json\n{\"program\": \"1\"}\n```").ok().unwrap();
    assert_eq!((p.program.as_str(), p.steps.len(), p.check), ("1", 0, None));
    let p = parse_solver_json(r#"{"program":"1","steps":["a",2,null,"b"],"check":"{x}"}"#).ok().unwrap();
    assert_eq!(p.steps, vec!["a", "", "", "b"]);
    assert_eq!(p.check.as_deref(), Some("{x}"));
    let p = parse_solver_json(r#"{"program":"","steps":"none","check":" \n"}"#).ok().unwrap();
    assert_eq!((p.program.as_str(), p.steps.len(), p.check), ("", 0, None));
    let p = parse_solver_json(r#"{"program":"1","check":7}"#).ok().unwrap();
    assert_eq!(p.check, None);
}

#[test]
fn replies_that_cannot_be_read() {
    let fault = |text: &str| {
        let e = parse_solver_json(text).err().unwrap();
        assert_eq!(e.code, "INVALID_JSON");
        e.message
    };
    assert_eq!(fault(""), "no JSON object in reply");
    assert_eq!(fault("{ \"program\": \"1\""), "no JSON object in reply");
    assert_eq!(fault("}"), "no JSON object in reply");
    assert_eq!(fault("{program: 1}"), "reply was not valid JSON");
    assert_eq!(fault("{} and {}"), "reply was not valid JSON");
    assert_eq!(fault("}{"), "reply was not valid JSON");
    assert_eq!(fault("} {"), "reply was not valid JSON");
    assert_eq!(fault("{}"), "missing program");
    assert_eq!(fault(r#"{"program": 4}"#), "missing program");
}

#[test]
fn fields_are_read_and_submitted() {
    let v: Value = serde_json::from_str(r#"{"program":"2","steps":["a",1],"check":"  "}"#).unwrap();
    let fields = read_fields(&v);
    assert_eq!(fields.program.as_deref(), Some("2"));
    assert_eq!(fields.steps, Some(vec![Some("a".to_string()), None]));
    assert_eq!(fields.check.as_deref(), Some("  "));
    let p = submit(fields).ok().unwrap();
    assert_eq!((p.program.as_str(), p.check.as_deref()), ("2", None));
    assert_eq!(p.steps, vec!["a", ""]);
    let none = Fields { program: None, steps: None, check: None };
    assert_eq!(submit(none).err().unwrap().message, "missing program");
    let v: Value = serde_json::from_str("[1]").unwrap();
    let fields = read_fields(&v);
    assert!(fields.program.is_none() && fields.steps.is_none() && fields.check.is_none());
}

#[test]
fn a_submission_that_is_shown_again_reads_back() {
    let (_, bodies) = converse(&[WRONG_CHECK, GOOD]);
    let shown = parse_solver_json(turn(&bodies[1], 2).1).ok().unwrap();
    let first = parse_solver_json(WRONG_CHECK).ok().unwrap();
    assert_eq!(shown.program, first.program);
    assert_eq!(shown.steps, first.steps);
    assert_eq!(shown.check, first.check);
}

#[test]
fn attempts_and_complaints() {
    let good = parse_solver_json(GOOD).ok().unwrap();
    let t = attempt::<F64>(&good).ok().unwrap();
    assert_eq!((t.answer, t.evaluated, t.verified), (F64(4.0), Some(F64(0.0)), true));
    let none = parse_solver_json(NO_CHECK).ok().unwrap();
    let t = attempt::<F64>(&none);
    assert_eq!(complain(&t), "check evaluated to None instead of 0");
    let wrong = parse_solver_json(WRONG_CHECK).ok().unwrap();
    let t = attempt::<F64>(&wrong);
    assert_eq!(complain(&t), "check evaluated to Some(-1.0) instead of 0");
    let broken = parse_solver_json(BROKEN_PROGRAM).ok().unwrap();
    let t = attempt::<F64>(&broken);
    assert_eq!(complain(&t), "program failed to execute (unknown identifier undefinedvar)");
}

#[test]
fn messages_are_found_in_responses() {
    let text = r#"{"choices":[{"message":{"role":"assistant","content":"hi \u00e9\n"}}],"n":1.5}"#;
    assert_eq!(message_content(text).ok().unwrap(), "hi é\n");
    let v: Value = serde_json::from_str(text).unwrap();
    assert_eq!(read_content(&v).as_deref(), Some("hi é\n"));
}

#[test]
fn responses_without_a_message() {
    let fault = |text: &str| {
        let e = message_content(text).err().unwrap();
        assert_eq!(e.code, "HTTP_ERROR");
        e.message
    };
    assert_eq!(fault("<html>"), "invalid JSON from API");
    assert_eq!(fault("{}"), "API response missing message content");
    assert_eq!(fault("[]"), "API response missing message content");
    assert_eq!(fault(r#"{"choices":[]}"#), "API response missing message content");
    assert_eq!(
        fault(r#"{"choices":[{"message":{"content":null}}]}"#),
        "API response missing message content"
    );
}

#[test]
fn quotes_and_control_characters_survive_a_request() {
    let problem = "\"a\" \\ \u{1} \n é \u{1F600}";
    let session = Session::start(problem).ok().unwrap();
    let body: Value = serde_json::from_str(&session.body("m\"odel")).unwrap();
    assert_eq!(turn(&body, 1), ("user", problem));
    assert_eq!(body["model"].as_str(), Some("m\"odel"));
}

#[test]
fn options_have_defaults() {
    let o = SolveOptions::default();
    assert_eq!(o.api_key, "");
    assert_eq!(o.base_url, "https://api.openai.com/v1");
    assert_eq!(o.model, "gpt-4o-mini");
}

#[test]
fn errors_are_shown_with_their_code() {
    let e = SolverError::new("NO_PROBLEM", String::from("why"));
    assert_eq!(e.to_text(), "NO_PROBLEM: why");
    assert_eq!(e.clone().message, "why");
}

#[test]
fn keys_are_sent_as_bearer_tokens() {
    assert_eq!(authorization("sk-1"), "Bearer sk-1");
}

#[test]
fn every_request_is_the_clients_own() {
    let calls = Arc::new(Mutex::new(Vec::new()));
    let seen = Arc::clone(&calls);
    let solver = MathSolver::with_transport(
        "sk-own",
        "https://x/v1/",
        move |url: &str, body: &str, key: &str| {
            seen.lock().unwrap().push((url.to_string(), body.to_string(), key.to_string()));
            Ok(WRONG_CHECK.to_string())
        },
    )
    .ok()
    .unwrap()
    .model("m");
    assert!(!solver.solve::<F64>(" 2x+3=11 ").unwrap().verified);
    let calls = calls.lock().unwrap();
    assert_eq!(calls.len(), 2);
    for (i, (url, body, key)) in calls.iter().enumerate() {
        assert_eq!(url, "https://x/v1/chat/completions");
        assert_eq!(key, "sk-own");
        let body: Value = serde_json::from_str(body).unwrap();
        assert_eq!(body["model"].as_str(), Some("m"));
        assert_eq!(turns(&body), 2 + 2 * i);
        assert_eq!(turn(&body, 0), ("system", SYSTEM_PROMPT));
        assert_eq!(turn(&body, 1), ("user", " 2x+3=11 "));
    }
}
