//! Sessions: what is asked of the model, and what is made of its replies.
//!
//! A session carries no request itself. It says what to send, takes the reply, and either asks
//! again or ends. It asks at most three times: once, once more where the first reply cannot be
//! read, and once more where a submission does not run or does not pass its check.
use vstd::prelude::*;

use crate::check::{checked, run_check};
use crate::error::{fault, outcome, Fault, SolverError};
use crate::json::{
    all_json, array_value, integer_value, json_of, json_parse, json_text, null_value, plain,
    set_member, text_value, value_text, Json,
};
use crate::number::{is_debug, Real};
use crate::program::{program_yields, run_program};
use crate::reply::{parse_solver_json, submission, texts, Parsed, Submission};
use crate::text::{blank, chars_of, is_blank, join3};

verus! {

/// What the model is told to do.
pub const SYSTEM_PROMPT: &'static str = "You are a precise math solver.
Reply with STRICT JSON only, no markdown fences, in this exact shape:
{\"program\": \"<string>\", \"steps\": [<string>, ...], \"check\": \"<string>\"}
Rules:
- \"program\" is a small JavaScript-like program that computes the final answer.
  One statement per line (or ; separated). Allowed statements:
      let NAME = EXPRESSION
      result = EXPRESSION
  EXPRESSIONs may use numbers, + - * / % ^ ( ), the functions
  abs sqrt sin cos tan ln log exp floor ceil round min max
  (log is base 10, ln is natural), the constants pi and e, and any
  variable defined by an earlier let. The value assigned to result
  is the answer. Never state the answer as a number in text.
- \"steps\" is an array of short plain-language explanation strings.
- \"check\" is a verification expression containing the placeholder {x}.
  After solving, {x} is replaced by the computed answer and the whole
  expression must evaluate to 0.
  For equations, substitute the answer back into the original equation
  (e.g. 2x+3=11 -> \"2*{x}+3-11\").
  For arithmetic, recompute via a different path and subtract the answer
  (e.g. 15% of 80 -> \"80*15/100-{x}\"). Provide \"check\" whenever possible.";

/// One message of a conversation.
#[derive(Debug)]
pub struct Message {
    pub role: &'static str,
    pub content: String,
}

/// One message, as contracts speak of it.
pub struct Turn {
    pub role: Seq<char>,
    pub content: Seq<char>,
}

impl View for Message {
    type V = Turn;

    open spec fn view(&self) -> Turn {
        Turn { role: self.role@, content: self.content@ }
    }
}

/// The messages, as contracts speak of them.
pub open spec fn turns(messages: Seq<Message>) -> Seq<Turn> {
    messages.map_values(|m: Message| m@)
}

/// What a session waits for.
#[derive(Clone, Copy, Debug, PartialEq, Eq, Structural)]
pub enum Phase {
    /// The first reply.
    First,
    /// A reply in place of one that could not be read.
    Reformatted,
    /// A submission in place of one that did not run or did not pass its check.
    Revised,
}

/// How many replies a session can still take.
pub open spec fn replies_left(phase: Phase) -> nat {
    match phase {
        Phase::First => 3,
        Phase::Reformatted => 2,
        Phase::Revised => 1,
    }
}

/// A conversation that waits for a reply.
#[derive(Debug)]
pub struct Session {
    messages: Vec<Message>,
    phase: Phase,
}

/// A conversation that waits for a reply, as contracts speak of it.
pub struct SessionState {
    pub turns: Seq<Turn>,
    pub phase: Phase,
}

impl View for Session {
    type V = SessionState;

    closed spec fn view(&self) -> SessionState {
        SessionState { turns: turns(self.messages@), phase: self.phase }
    }
}

/// A solved problem.
///
/// `answer` is what the program in `expression` computed. `verified` is true only where the
/// check that came with it passed; `evaluated` is the value of that check.
#[derive(Debug, Clone)]
pub struct SolveResult<N> {
    pub answer: N,
    pub steps: Vec<String>,
    pub expression: String,
    pub evaluated: Option<N>,
    pub verified: bool,
    pub retries: u32,
}

/// A solved problem, as contracts speak of it.
pub struct Solution<N> {
    pub answer: N,
    pub steps: Seq<Seq<char>>,
    pub expression: Seq<char>,
    pub evaluated: Option<N>,
    pub verified: bool,
    pub retries: u32,
}

impl<N> View for SolveResult<N> {
    type V = Solution<N>;

    open spec fn view(&self) -> Solution<N> {
        Solution {
            answer: self.answer,
            steps: texts(self.steps@),
            expression: self.expression@,
            evaluated: self.evaluated,
            verified: self.verified,
            retries: self.retries,
        }
    }
}

/// What running a submission came to.
#[derive(Debug)]
pub struct Trial<N> {
    /// What the program computed.
    pub answer: N,
    /// The value of the check, where there is one.
    pub evaluated: Option<N>,
    /// Whether there is a check and it passed.
    pub verified: bool,
}

/// What becomes of a session with a reply.
#[derive(Debug)]
pub enum Progress<N> {
    /// The session asks again.
    Ask(Session),
    /// The session is over.
    Done(Result<SolveResult<N>, SolverError>),
}

/// What becomes of a session, as contracts speak of it.
pub enum Next<N> {
    Ask(SessionState),
    Done(Result<Solution<N>, Fault>),
}

/// A result as contracts speak of it.
pub open spec fn solution_of<N>(r: Result<SolveResult<N>, SolverError>) -> Result<
    Solution<N>,
    Fault,
> {
    match r {
        Ok(s) => Ok(s@),
        Err(e) => Err(e@),
    }
}

impl<N> View for Progress<N> {
    type V = Next<N>;

    open spec fn view(&self) -> Next<N> {
        match self {
            Progress::Ask(s) => Next::Ask(s@),
            Progress::Done(r) => Next::Done(solution_of(*r)),
        }
    }
}

/// A reply as contracts speak of it.
pub open spec fn reply_text(reply: Result<String, SolverError>) -> Result<Seq<char>, Fault> {
    match reply {
        Ok(s) => Ok(s@),
        Err(e) => Err(e@),
    }
}

/// The JSON of a message.
pub open spec fn turn_json(t: Turn) -> Json {
    Json::Object(
        Map::empty().insert("role"@, Json::Text(t.role)).insert("content"@, Json::Text(t.content)),
    )
}

/// The JSON of a request: the model, the messages so far, and no randomness.
pub open spec fn request_json(model: Seq<char>, turns: Seq<Turn>) -> Json {
    Json::Object(
        Map::empty().insert("model"@, Json::Text(model)).insert(
            "messages"@,
            Json::Array(turns.map_values(|t: Turn| turn_json(t))),
        ).insert("temperature"@, Json::Integer(0)),
    )
}

/// The JSON of a submission.
pub open spec fn submission_json(s: Submission) -> Json {
    Json::Object(
        Map::empty().insert("program"@, Json::Text(s.program)).insert(
            "steps"@,
            Json::Array(s.steps.map_values(|t: Seq<char>| Json::Text(t))),
        ).insert(
            "check"@,
            match s.check {
                Some(c) => Json::Text(c),
                None => Json::Null,
            },
        ),
    )
}

/// The messages that open a conversation about `problem`.
pub open spec fn opening(problem: Seq<char>) -> Seq<Turn> {
    seq![
        Turn { role: "system"@, content: SYSTEM_PROMPT@ },
        Turn { role: "user"@, content: problem },
    ]
}

/// The messages after a reply that could not be read.
pub open spec fn reformat() -> Seq<Turn> {
    seq![
        Turn { role: "assistant"@, content: "invalid JSON"@ },
        Turn {
            role: "user"@,
            content:
                "Your reply was not valid JSON. Reply again with the exact strict JSON shape."@,
        },
    ]
}

/// The messages after a submission that did not run or did not pass its check.
pub open spec fn revise(s: Submission, why: Seq<char>) -> Seq<Turn> {
    seq![
        Turn { role: "assistant"@, content: json_text(submission_json(s)) },
        Turn {
            role: "user"@,
            content: "Your submission failed verification: "@ + why
                + ". Re-derive the problem carefully and reply again with the same strict JSON shape."@,
        },
    ]
}

/// `r` is the outcome of running the program of a submission, and its check on the answer.
pub open spec fn attempted<N: Real>(s: Submission, r: Result<Trial<N>, Fault>) -> bool {
    exists|o: Result<N, Fault>| #[trigger]
        program_yields(s.program, o) && match o {
            Err(f) => r == Err::<Trial<N>, Fault>(f),
            Ok(answer) => tried(s.check, answer, r),
        }
}

/// `r` is the outcome of running a check, if there is one, on an answer.
pub open spec fn tried<N: Real>(
    check: Option<Seq<char>>,
    answer: N,
    r: Result<Trial<N>, Fault>,
) -> bool {
    match check {
        None => r == Ok::<Trial<N>, Fault>(Trial { answer, evaluated: None, verified: false }),
        Some(c) => exists|q: Result<(N, bool), Fault>| #[trigger]
            checked(c, answer, q) && r == trial(answer, q),
    }
}

/// What a check that came to `q` makes of an answer.
pub open spec fn trial<N>(answer: N, q: Result<(N, bool), Fault>) -> Result<Trial<N>, Fault> {
    match q {
        Ok((value, passed)) => Ok(Trial { answer, evaluated: Some(value), verified: passed }),
        Err(f) => Err(f),
    }
}

/// `why` says what is wrong with an attempt that is not accepted.
pub open spec fn complaint<N: Real>(r: Result<Trial<N>, Fault>, why: Seq<char>) -> bool {
    match r {
        Err(f) => why == "program failed to execute ("@ + f.message + ")"@,
        Ok(t) => match t.evaluated {
            None => why == "check evaluated to None instead of 0"@,
            Some(v) => exists|shown: Seq<char>| #[trigger]
                is_debug(v, shown) && why == "check evaluated to Some("@ + shown
                    + ") instead of 0"@,
        },
    }
}

/// The solution that an accepted submission makes.
pub open spec fn solution<N>(s: Submission, t: Trial<N>, retries: u32) -> Solution<N> {
    Solution {
        answer: t.answer,
        steps: s.steps,
        expression: s.program,
        evaluated: t.evaluated,
        verified: t.verified,
        retries,
    }
}

/// `next` is what becomes of the session `s` with `reply`.
///
/// An error in place of a reply ends the session. A reply that cannot be read is asked for again
/// where it is the first. A submission that runs and passes its check ends the session; any other
/// is asked for again, once, and the second is final whether or not it is verified.
pub open spec fn advanced<N: Real>(
    s: SessionState,
    reply: Result<Seq<char>, Fault>,
    next: Next<N>,
) -> bool {
    match reply {
        Err(f) => next == Next::<N>::Done(Err(f)),
        Ok(text) => match submission(text) {
            Err(f) => if s.phase == Phase::First {
                next == Next::<N>::Ask(
                    SessionState { turns: s.turns + reformat(), phase: Phase::Reformatted },
                )
            } else {
                next == Next::<N>::Done(Err(f))
            },
            Ok(sub) => exists|o: Result<Trial<N>, Fault>| #[trigger]
                attempted(sub, o) && judged(s, sub, o, next),
        },
    }
}

/// `next` is what becomes of the session `s` with a submission whose attempt came to `o`.
pub open spec fn judged<N: Real>(
    s: SessionState,
    sub: Submission,
    o: Result<Trial<N>, Fault>,
    next: Next<N>,
) -> bool {
    if s.phase == Phase::Revised {
        next == Next::<N>::Done(
            match o {
                Ok(t) => Ok(solution(sub, t, 1)),
                Err(f) => Err(f),
            },
        )
    } else if o is Ok && o->Ok_0.verified {
        next == Next::<N>::Done(Ok(solution(sub, o->Ok_0, 0)))
    } else {
        exists|why: Seq<char>| #[trigger]
            complaint(o, why) && next == Next::<N>::Ask(
                SessionState { turns: s.turns + revise(sub, why), phase: Phase::Revised },
            )
    }
}

/// The JSON of a message.
fn message_value(m: &Message) -> (r: serde_json::Value)
    ensures
        json_of(r) == turn_json(m@),
{
    let mut v = null_value();
    set_member(&mut v, "role", text_value(m.role));
    set_member(&mut v, "content", text_value(m.content.as_str()));
    v
}

/// The body of a request: the JSON of the model, the messages and the temperature.
pub fn request_body(model: &str, messages: &Vec<Message>) -> (r: String)
    ensures
        r@ == json_text(request_json(model@, turns(messages@))),
        json_parse(r@) == Some(request_json(model@, turns(messages@))),
{
    let mut items: Vec<serde_json::Value> = Vec::new();
    let mut i: usize = 0;
    while i < messages.len()
        invariant
            i <= messages@.len(),
            items@.len() == i,
            forall|k: int|
                0 <= k < i ==> json_of(#[trigger] items@[k]) == turn_json(messages@[k]@),
        decreases messages@.len() - i,
    {
        items.push(message_value(&messages[i]));
        i = i + 1;
    }
    let ghost parts = turns(messages@).map_values(|t: Turn| turn_json(t));
    assert(all_json(items@) =~= parts);
    let mut v = null_value();
    set_member(&mut v, "model", text_value(model));
    set_member(&mut v, "messages", array_value(items));
    set_member(&mut v, "temperature", integer_value(0));
    assert(json_of(v) == request_json(model@, turns(messages@)));
    proof {
        lemma_request_plain(model@, turns(messages@));
    }
    value_text(&v)
}

proof fn lemma_request_plain(model: Seq<char>, ts: Seq<Turn>)
    ensures
        plain(request_json(model, ts), 100),
{
    reveal_with_fuel(plain, 2);
    let parts = ts.map_values(|t: Turn| turn_json(t));
    assert forall|i: int| 0 <= i < parts.len() implies plain(#[trigger] parts[i], 98) by {
        assert(parts[i] == turn_json(ts[i]));
    }
    assert(plain(Json::Array(parts), 99));
}

/// The text of a submission, as the model is shown it again.
fn submission_text(p: &Parsed) -> (r: String)
    ensures
        r@ == json_text(submission_json(p@)),
        json_parse(r@) == Some(submission_json(p@)),
{
    let mut steps: Vec<serde_json::Value> = Vec::new();
    let mut i: usize = 0;
    while i < p.steps.len()
        invariant
            i <= p.steps@.len(),
            steps@.len() == i,
            forall|k: int|
                0 <= k < i ==> json_of(#[trigger] steps@[k]) == Json::Text(p.steps@[k]@),
        decreases p.steps@.len() - i,
    {
        steps.push(text_value(p.steps[i].as_str()));
        i = i + 1;
    }
    let ghost parts = p@.steps.map_values(|t: Seq<char>| Json::Text(t));
    assert(all_json(steps@) =~= parts);
    let check = match &p.check {
        Some(c) => text_value(c.as_str()),
        None => null_value(),
    };
    let mut v = null_value();
    set_member(&mut v, "program", text_value(p.program.as_str()));
    set_member(&mut v, "steps", array_value(steps));
    set_member(&mut v, "check", check);
    assert(json_of(v) == submission_json(p@));
    proof {
        reveal_with_fuel(plain, 2);
        assert(plain(Json::Array(parts), 99));
    }
    value_text(&v)
}

/// Runs the program of a submission, and its check on the answer.
pub fn attempt<N: Real>(p: &Parsed) -> (r: Result<Trial<N>, SolverError>)
    ensures
        attempted(p@, outcome(r)),
{
    let answer = match run_program::<N>(p.program.as_str()) {
        Ok(v) => v,
        Err(e) => {
            assert(program_yields(p@.program, Err::<N, Fault>(e@)));
            return Err(e);
        },
    };
    assert(program_yields(p@.program, Ok::<N, Fault>(answer)));
    match &p.check {
        Some(check) => {
            assert(p@.check->Some_0 == check@);
            match run_check(check.as_str(), answer) {
                Ok((value, passed)) => {
                    assert(checked(check@, answer, Ok::<(N, bool), Fault>((value, passed))));
                    Ok(Trial { answer, evaluated: Some(value), verified: passed })
                },
                Err(e) => {
                    assert(checked(check@, answer, Err::<(N, bool), Fault>(e@)));
                    Err(e)
                },
            }
        },
        None => Ok(Trial { answer, evaluated: None, verified: false }),
    }
}

/// Says what is wrong with an attempt that is not accepted.
pub fn complain<N: Real>(r: &Result<Trial<N>, SolverError>) -> (why: String)
    ensures
        complaint(outcome(*r), why@),
{
    match r {
        Err(e) => join3("program failed to execute (", e.message.as_str(), ")"),
        Ok(t) => match t.evaluated {
            None => "check evaluated to None instead of 0".to_string(),
            Some(v) => {
                let shown = N::debug(v);
                assert(is_debug(v, shown@));
                join3("check evaluated to Some(", shown.as_str(), ") instead of 0")
            },
        },
    }
}

/// The result that an accepted submission makes.
fn result_of<N>(p: Parsed, t: Trial<N>, retries: u32) -> (r: SolveResult<N>)
    ensures
        r@ == solution(p@, t, retries),
{
    SolveResult {
        answer: t.answer,
        steps: p.steps,
        expression: p.program,
        evaluated: t.evaluated,
        verified: t.verified,
        retries,
    }
}

impl Session {
    /// Opens a session about a problem.
    pub fn start(problem: &str) -> (r: Result<Self, SolverError>)
        ensures
            match r {
                Ok(s) => !blank(problem@) && s@ == (SessionState {
                    turns: opening(problem@),
                    phase: Phase::First,
                }) && s@.turns.len() == 2 && s@.turns[0].role == "system"@ && s@.turns[0].content
                    == SYSTEM_PROMPT@ && s@.turns[1].role == "user"@ && s@.turns[1].content
                    == problem@,
                Err(e) => blank(problem@) && e@ == fault(
                    "NO_PROBLEM",
                    "problem must be non-empty"@,
                ),
            },
    {
        if is_blank(chars_of(problem).as_slice()) {
            return Err(SolverError::new("NO_PROBLEM", "problem must be non-empty"));
        }
        let mut messages: Vec<Message> = Vec::new();
        messages.push(Message { role: "system", content: SYSTEM_PROMPT.to_string() });
        messages.push(Message { role: "user", content: problem.to_string() });
        assert(turns(messages@) =~= opening(problem@));
        Ok(Session { messages, phase: Phase::First })
    }

    /// The body of the request that the session asks to be sent.
    pub fn body(&self, model: &str) -> (r: String)
        ensures
            r@ == json_text(request_json(model@, self@.turns)),
            json_parse(r@) == Some(request_json(model@, self@.turns)),
    {
        request_body(model, &self.messages)
    }

    /// Takes the reply to what the session asked.
    pub fn advance<N: Real>(self, reply: Result<String, SolverError>) -> (r: Progress<N>)
        ensures
            advanced(self@, reply_text(reply), r@),
    {
        let text = match reply {
            Ok(text) => text,
            Err(e) => return Progress::Done(Err(e)),
        };
        match parse_solver_json(text.as_str()) {
            Ok(p) => self.judge(p),
            Err(e) => if self.phase == Phase::First {
                let mut messages = self.messages;
                let ghost before = turns(messages@);
                messages.push(
                    Message { role: "assistant", content: "invalid JSON".to_string() },
                );
                messages.push(
                    Message {
                        role: "user",
                        content:
                            "Your reply was not valid JSON. Reply again with the exact strict JSON shape.".to_string(),
                    },
                );
                assert(turns(messages@) =~= before + reformat());
                Progress::Ask(Session { messages, phase: Phase::Reformatted })
            } else {
                Progress::Done(Err(e))
            },
        }
    }

    /// Runs a submission, and ends the session or asks for another.
    fn judge<N: Real>(self, p: Parsed) -> (r: Progress<N>)
        ensures
            exists|o: Result<Trial<N>, Fault>| #[trigger]
                attempted(p@, o) && judged(self@, p@, o, r@),
    {
        let tried = attempt::<N>(&p);
        let ghost o = outcome(tried);
        assert(attempted(p@, o));
        if self.phase == Phase::Revised {
            return match tried {
                Ok(t) => Progress::Done(Ok(result_of(p, t, 1))),
                Err(e) => Progress::Done(Err(e)),
            };
        }
        let tried = match tried {
            Ok(t) => {
                if t.verified {
                    return Progress::Done(Ok(result_of(p, t, 0)));
                }
                Ok(t)
            },
            Err(e) => Err(e),
        };
        let why = complain(&tried);
        assert(complaint(o, why@));
        let mut messages = self.messages;
        let ghost before = turns(messages@);
        messages.push(Message { role: "assistant", content: submission_text(&p) });
        messages.push(
            Message {
                role: "user",
                content: join3(
                    "Your submission failed verification: ",
                    why.as_str(),
                    ". Re-derive the problem carefully and reply again with the same strict JSON shape.",
                ),
            },
        );
        assert(turns(messages@) =~= before + revise(p@, why@));
        Progress::Ask(Session { messages, phase: Phase::Revised })
    }
}

} // verus!
