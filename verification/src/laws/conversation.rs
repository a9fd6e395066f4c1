//! Laws of conversations: what is said to the model, message by message, and what becomes of its
//! replies.
use vstd::prelude::*;

use crate::check::checked;
use crate::client::{
    answers, carried, endpoint, exchanged, reached, requested, sent, settings, solved, Answers,
    Settings,
};
use crate::error::{outcome, Fault, SolverError};
use crate::json::{json_parse, json_text, Json};
use crate::laws::solving::{earned, law_session_earns, law_sessions_end};
use crate::number::{is_debug, Real};
use crate::program::program_yields;
use crate::reply::{submission, Submission};
use crate::session::{
    advanced, attempted, complaint, judged, opening, replies_left, reply_text, request_json,
    solution_of, submission_json, trial, tried, Next, Phase, SessionState, Solution, SolveResult,
    Trial, Turn, SYSTEM_PROMPT,
};
use crate::text::is_space;

verus! {

/// What contracts say of an error they say of its code and its message, each in full.
pub proof fn law_errors_are_seen_whole<T>(e: SolverError, r: Result<T, SolverError>)
    ensures
        e@.code == e.code@,
        e@.message == e.message@,
        match (r, outcome(r)) {
            (Ok(v), Ok(w)) => v == w,
            (Err(d), Err(f)) => f.code == d.code@ && f.message == d.message@,
            _ => false,
        },
{
}

/// What contracts say of a result they say of its parts, each in full.
pub proof fn law_results_are_seen_whole<N>(r: SolveResult<N>)
    ensures
        r@.answer == r.answer,
        r@.expression == r.expression@,
        r@.evaluated == r.evaluated,
        r@.verified == r.verified,
        r@.retries == r.retries,
        r@.steps.len() == r.steps@.len(),
        forall|i: int| 0 <= i < r.steps@.len() ==> #[trigger] r@.steps[i] == r.steps@[i]@,
        solution_of(Ok::<SolveResult<N>, SolverError>(r)) == Ok::<Solution<N>, Fault>(r@),
{
}

/// What contracts say of a reply or an error in its place they say of all of it.
pub proof fn law_outcomes_are_seen_whole<N>(
    reply: Result<String, SolverError>,
    e: SolverError,
)
    ensures
        match (reply, reply_text(reply)) {
            (Ok(s), Ok(text)) => text == s@,
            (Err(d), Err(f)) => f.code == d.code@ && f.message == d.message@,
            _ => false,
        },
        solution_of(Err::<SolveResult<N>, SolverError>(e)) matches Err(f) && f.code == e.code@
            && f.message == e.message@,
{
}

/// A transport may answer what it returns to a call with that URL, that body and that key, and
/// nothing else.
pub proof fn law_answers_are_returned<F>(
    f: F,
    url: Seq<char>,
    body: Seq<char>,
    key: Seq<char>,
    reply: Result<Seq<char>, Fault>,
) where F: Fn(&str, &str, &str) -> Result<String, SolverError>
    requires
        answers(f)(url, body, key, reply),
    ensures
        exists|u: &str, b: &str, k: &str, r: Result<String, SolverError>| #[trigger]
            call_ensures(f, (u, b, k), r) && u@ == url && b@ == body && k@ == key && match (
                r,
                reply,
            ) {
                (Ok(s), Ok(text)) => s@ == text,
                (Err(e), Err(g)) => e.code@ == g.code && e.message@ == g.message,
                _ => false,
            },
{
    let (u, b, k, r) = choose|u: &str, b: &str, k: &str, r: Result<String, SolverError>| #[trigger]
        call_ensures(f, (u, b, k), r) && u@ == url && b@ == body && k@ == key && reply_text(r)
            == reply;
    assert(call_ensures(f, (u, b, k), r));
}

/// A request is a JSON object of three members: the model, the messages, one object of a role and
/// a content for each message of the conversation in its place, and the temperature, zero.
pub proof fn law_request_says_the_conversation(model: Seq<char>, turns: Seq<Turn>)
    ensures
        request_json(model, turns) matches Json::Object(m) && m.dom() == set![
            "model"@,
            "messages"@,
            "temperature"@,
        ] && m["model"@] == Json::Text(model) && m["temperature"@] == Json::Integer(0)
            && m["messages"@] is Array && {
            let items = m["messages"@]->Array_0;
            &&& items.len() == turns.len()
            &&& forall|i: int|
                0 <= i < turns.len() ==> (#[trigger] items[i] matches Json::Object(one) && one.dom()
                    == set!["role"@, "content"@] && one["role"@] == Json::Text(turns[i].role)
                    && one["content"@] == Json::Text(turns[i].content))
        },
{
    reveal_strlit("model");
    reveal_strlit("messages");
    reveal_strlit("temperature");
    reveal_strlit("role");
    reveal_strlit("content");
    assert("model"@.len() == 5 && "messages"@.len() == 8 && "temperature"@.len() == 11);
    assert("role"@.len() == 4 && "content"@.len() == 7);
    let m = request_json(model, turns)->Object_0;
    assert(m.dom() =~= set!["model"@, "messages"@, "temperature"@]);
    let items = m["messages"@]->Array_0;
    assert forall|i: int| 0 <= i < turns.len() implies (
    #[trigger] items[i] matches Json::Object(one) && one.dom() == set!["role"@, "content"@]
        && one["role"@] == Json::Text(turns[i].role) && one["content"@] == Json::Text(
        turns[i].content,
    )) by {
        let one = items[i]->Object_0;
        assert(one.dom() =~= set!["role"@, "content"@]);
    }
}

/// A submission is shown again as a JSON object of its program, its steps, each in its place, and
/// its check, or null where it has none.
pub proof fn law_shown_submission_says_all(sub: Submission)
    ensures
        submission_json(sub) matches Json::Object(m) && m.dom() == set![
            "program"@,
            "steps"@,
            "check"@,
        ] && m["program"@] == Json::Text(sub.program) && m["steps"@] is Array && {
            let items = m["steps"@]->Array_0;
            &&& items.len() == sub.steps.len()
            &&& forall|i: int|
                0 <= i < items.len() ==> #[trigger] items[i] == Json::Text(sub.steps[i])
        } && match sub.check {
            Some(c) => m["check"@] == Json::Text(c),
            None => m["check"@] == Json::Null,
        },
{
    reveal_strlit("program");
    reveal_strlit("steps");
    reveal_strlit("check");
    assert("program"@.len() == 7);
    assert("steps"@[0] == 's' && "check"@[0] == 'c');
    let m = submission_json(sub)->Object_0;
    assert(m.dom() =~= set!["program"@, "steps"@, "check"@]);
}

/// Every request that is sent about a problem holds a conversation whose first message is the
/// instructions, and whose second is the problem, from its first character to its last.
pub proof fn law_every_request_puts_the_whole_problem<N: Real>(
    a: Answers,
    c: Settings,
    problem: Seq<char>,
    url: Seq<char>,
    body: Seq<char>,
    key: Seq<char>,
)
    requires
        sent::<N>(a, c, problem, url, body, key),
    ensures
        url == c.base_url + "/chat/completions"@,
        key == c.api_key,
        exists|turns: Seq<Turn>|
            turns.len() >= 2 && turns[0].role == "system"@ && turns[0].content == SYSTEM_PROMPT@
                && turns[1].role == "user"@ && turns[1].content == problem
                && #[trigger] request_json(c.model, turns) == json_parse(body)->Some_0
                && json_parse(body) is Some,
{
    let first = SessionState { turns: opening(problem), phase: Phase::First };
    let s = choose|s: SessionState| #[trigger]
        requested(c, s, url, body, key) && reached::<N>(a, c, first, s);
    law_conversations_keep_their_start::<N>(a, c, first, s);
    assert(s.turns[0] == first.turns[0] && s.turns[1] == first.turns[1]);
    assert(request_json(c.model, s.turns) == json_parse(body)->Some_0);
}

/// Whatever was said in a conversation stays, in its place, in all that comes of it.
pub proof fn law_conversations_keep_their_start<N: Real>(
    a: Answers,
    c: Settings,
    s: SessionState,
    t: SessionState,
)
    requires
        reached::<N>(a, c, s, t),
    ensures
        s.turns.len() <= t.turns.len(),
        forall|i: int| 0 <= i < s.turns.len() ==> #[trigger] t.turns[i] == s.turns[i],
    decreases replies_left(s.phase),
{
    if s != t {
        let (reply, mid) = choose|reply: Result<Seq<char>, Fault>, mid: SessionState| #[trigger]
            exchanged(a, c, s, reply) && #[trigger] advanced(s, reply, Next::<N>::Ask(mid))
                && replies_left(mid.phase) < replies_left(s.phase) && reached::<N>(a, c, mid, t);
        law_sessions_end::<N>(s, reply, mid);
        law_conversations_keep_their_start::<N>(a, c, mid, t);
        assert forall|i: int| 0 <= i < s.turns.len() implies #[trigger] t.turns[i]
            == s.turns[i] by {
            assert(t.turns[i] == mid.turns[i]);
            assert(mid.turns.subrange(0, s.turns.len() as int)[i] == s.turns[i]);
        }
    }
}

/// A blank problem is refused; any other is solved by carrying a conversation to its end that
/// opens with the instructions and with the problem, from its first character to its last.
pub proof fn law_problems_are_put_whole<N: Real>(
    a: Answers,
    c: Settings,
    problem: Seq<char>,
    r: Result<Solution<N>, Fault>,
)
    requires
        solved(a, c, problem, r),
    ensures
        (forall|i: int| 0 <= i < problem.len() ==> is_space(#[trigger] problem[i])) ==> (
        r matches Err(f) && f.code == "NO_PROBLEM"@ && f.message == "problem must be non-empty"@),
        (exists|i: int| 0 <= i < problem.len() && !is_space(#[trigger] problem[i])) ==> exists|
            s: SessionState,
        | #[trigger]
            carried(a, c, s, r) && s.phase == Phase::First && s.turns.len() == 2 && s.turns[0].role
                == "system"@ && s.turns[0].content == SYSTEM_PROMPT@ && s.turns[1].role == "user"@
                && s.turns[1].content == problem,
{
    if exists|i: int| 0 <= i < problem.len() && !is_space(#[trigger] problem[i]) {
        let s = SessionState { turns: opening(problem), phase: Phase::First };
        assert(carried(a, c, s, r));
    }
}

/// A conversation is carried to its end by sending what was said so far, as JSON, to the endpoint
/// with the key, and going on with what the reply makes of it.
pub proof fn law_conversations_are_carried<N: Real>(
    a: Answers,
    c: Settings,
    s: SessionState,
    r: Result<Solution<N>, Fault>,
)
    requires
        carried(a, c, s, r),
    ensures
        exists|reply: Result<Seq<char>, Fault>, next: Next<N>| #[trigger]
            advanced(s, reply, next) && a(
                c.base_url + "/chat/completions"@,
                json_text(request_json(c.model, s.turns)),
                c.api_key,
                reply,
            ) && match next {
                Next::Done(o) => r == o,
                Next::Ask(t) => carried(a, c, t, r),
            },
{
    let (reply, next) = choose|reply: Result<Seq<char>, Fault>, next: Next<N>| #[trigger]
        exchanged(a, c, s, reply) && #[trigger] advanced(s, reply, next) && match next {
            Next::Done(o) => r == o,
            Next::Ask(t) => replies_left(t.phase) < replies_left(s.phase) && carried(a, c, t, r),
        };
    assert(advanced(s, reply, next));
}

/// An error in place of a reply ends a session with that error. A first reply that cannot be read
/// is answered with the request for the right shape; a later one ends the session with its fault.
pub proof fn law_unread_replies<N: Real>(
    s: SessionState,
    reply: Result<Seq<char>, Fault>,
    next: Next<N>,
)
    requires
        advanced(s, reply, next),
    ensures
        match reply {
            Err(f) => next == Next::<N>::Done(Err(f)),
            Ok(text) => submission(text) matches Err(f) ==> if s.phase == Phase::First {
                next matches Next::Ask(t) && t.phase == Phase::Reformatted && added(
                    s.turns,
                    t.turns,
                    "invalid JSON"@,
                    "Your reply was not valid JSON. Reply again with the exact strict JSON shape."@,
                )
            } else {
                next == Next::<N>::Done(Err(f))
            },
        },
{
}

/// `after` is what was said in `before`, and one message of the model and one of the user after it.
pub open spec fn added(
    before: Seq<Turn>,
    after: Seq<Turn>,
    model: Seq<char>,
    user: Seq<char>,
) -> bool {
    let n = before.len() as int;
    &&& after.len() == n + 2
    &&& forall|i: int| 0 <= i < n ==> #[trigger] after[i] == before[i]
    &&& after[n].role == "assistant"@
    &&& after[n].content == model
    &&& after[n + 1].role == "user"@
    &&& after[n + 1].content == user
}

/// A submission is run. A revision is final: its result is returned with one retry counted, or the
/// fault of running it. Before that, one that passes its check is returned with no retry counted;
/// any other is shown to the model again, with the complaint, and a revision is asked for.
pub proof fn law_submissions_are_judged<N: Real>(
    s: SessionState,
    text: Seq<char>,
    sub: Submission,
    next: Next<N>,
)
    requires
        advanced(s, Ok::<Seq<char>, Fault>(text), next),
        submission(text) == Ok::<Submission, Fault>(sub),
    ensures
        exists|o: Result<Trial<N>, Fault>| #[trigger]
            attempted(sub, o) && match (o, next) {
                (Ok(t), Next::Done(Ok(out))) => {
                    &&& out.answer == t.answer
                    &&& out.evaluated == t.evaluated
                    &&& out.verified == t.verified
                    &&& out.expression == sub.program
                    &&& out.steps == sub.steps
                    &&& out.retries == (if s.phase == Phase::Revised {
                        1u32
                    } else {
                        0u32
                    })
                    &&& s.phase == Phase::Revised || t.verified
                },
                (Err(f), Next::Done(Err(g))) => f == g && s.phase == Phase::Revised,
                (_, Next::Ask(t)) => {
                    &&& s.phase != Phase::Revised
                    &&& o is Ok ==> !o->Ok_0.verified
                    &&& t.phase == Phase::Revised
                    &&& exists|why: Seq<char>| #[trigger]
                        complaint(o, why) && added(
                            s.turns,
                            t.turns,
                            json_text(submission_json(sub)),
                            "Your submission failed verification: "@ + why
                                + ". Re-derive the problem carefully and reply again with the same strict JSON shape."@,
                        )
                },
                _ => false,
            },
{
    let o = choose|o: Result<Trial<N>, Fault>| #[trigger]
        attempted(sub, o) && judged(s, sub, o, next);
    assert(attempted(sub, o));
    if s.phase != Phase::Revised && !(o is Ok && o->Ok_0.verified) {
        let why = choose|why: Seq<char>| #[trigger]
            complaint(o, why) && next == Next::<N>::Ask(
                SessionState {
                    turns: s.turns + crate::session::revise(sub, why),
                    phase: Phase::Revised,
                },
            );
        assert(complaint(o, why));
    }
}

/// To run a submission is to run its program, and its check, if it has one, on what the program
/// computes. It is verified only where there is a check and that passes.
pub proof fn law_attempts<N: Real>(sub: Submission, o: Result<Trial<N>, Fault>)
    requires
        attempted(sub, o),
    ensures
        match o {
            Ok(t) => program_yields(sub.program, Ok::<N, Fault>(t.answer)) && match sub.check {
                Some(c) => t.evaluated matches Some(v) && checked(
                    c,
                    t.answer,
                    Ok::<(N, bool), Fault>((v, t.verified)),
                ),
                None => t.evaluated is None && !t.verified,
            },
            Err(f) => program_yields(sub.program, Err::<N, Fault>(f)) || exists|answer: N|
                program_yields(sub.program, Ok::<N, Fault>(answer)) && sub.check is Some
                    && #[trigger] checked(
                    sub.check->Some_0,
                    answer,
                    Err::<(N, bool), Fault>(f),
                ),
        },
{
    let p = choose|p: Result<N, Fault>| #[trigger]
        program_yields(sub.program, p) && match p {
            Err(f) => o == Err::<Trial<N>, Fault>(f),
            Ok(answer) => tried(sub.check, answer, o),
        };
    if let Ok(answer) = p {
        if let Some(c) = sub.check {
            let q = choose|q: Result<(N, bool), Fault>| #[trigger]
                checked(c, answer, q) && o == trial(answer, q);
            match o {
                Ok(t) => {
                    assert(q == Ok::<(N, bool), Fault>((t.evaluated->Some_0, t.verified)));
                },
                Err(f) => {
                    assert(q == Err::<(N, bool), Fault>(f));
                    assert(checked(sub.check->Some_0, answer, Err::<(N, bool), Fault>(f)));
                },
            }
        }
    }
}

/// A complaint gives the message of the fault, or the value of the check as the number type shows
/// it, or says that there is none.
pub proof fn law_complaints<N: Real>(o: Result<Trial<N>, Fault>, why: Seq<char>)
    requires
        complaint(o, why),
    ensures
        match o {
            Err(f) => why == "program failed to execute ("@ + f.message + ")"@,
            Ok(t) => match t.evaluated {
                None => why == "check evaluated to None instead of 0"@,
                Some(v) => exists|shown: String| #[trigger]
                    call_ensures(N::debug, (v,), shown) && why == "check evaluated to Some("@
                        + shown@ + ") instead of 0"@,
            },
        },
{
    if let Ok(t) = o {
        if let Some(v) = t.evaluated {
            let text = choose|text: Seq<char>| #[trigger]
                is_debug(v, text) && why == "check evaluated to Some("@ + text
                    + ") instead of 0"@;
            let shown = choose|s: String| s@ == text && #[trigger] call_ensures(N::debug, (v,), s);
            assert(call_ensures(N::debug, (v,), shown));
        }
    }
}

/// A key and a base URL are accepted exactly where the key is not empty and the URL is one of HTTP
/// once the slashes at its end are left off; the client has that key, that URL, and a model to
/// start with.
pub proof fn law_credentials(api_key: Seq<char>, base_url: Seq<char>, n: int)
    requires
        0 <= n <= base_url.len(),
        forall|i: int| n <= i < base_url.len() ==> base_url[i] == '/',
        n > 0 ==> base_url[n - 1] != '/',
    ensures
        match settings(api_key, base_url) {
            Ok(c) => {
                &&& api_key.len() > 0
                &&& "http://"@.is_prefix_of(base_url.take(n)) || "https://"@.is_prefix_of(
                    base_url.take(n),
                )
                &&& c.api_key == api_key
                &&& c.base_url == base_url.take(n)
                &&& c.model == "gpt-4o-mini"@
            },
            Err(f) => if api_key.len() == 0 {
                f.code == "NO_API_KEY"@ && f.message == "api_key is required (BYOK)"@
            } else {
                &&& f.code == "BAD_BASE_URL"@
                &&& f.message
                    == "base_url must be an http(s) URL, e.g. https://api.deepseek.com/v1"@
                &&& !"http://"@.is_prefix_of(base_url.take(n))
                &&& !"https://"@.is_prefix_of(base_url.take(n))
            },
        },
        endpoint(base_url) == base_url + "/chat/completions"@,
{
    lemma_stripped(base_url, n);
}

proof fn lemma_stripped(s: Seq<char>, n: int)
    requires
        0 <= n <= s.len(),
        forall|i: int| n <= i < s.len() ==> s[i] == '/',
        n > 0 ==> s[n - 1] != '/',
    ensures
        crate::text::strip_end(s, '/') == s.take(n),
    decreases s.len(),
{
    if n < s.len() {
        assert(s.last() == '/');
        lemma_stripped(s.drop_last(), n);
        assert(s.drop_last().take(n) =~= s.take(n));
    } else {
        assert(s.take(n) =~= s);
    }
}

/// A solution comes of a submission that the endpoint sent in reply to a conversation that opened
/// with the whole problem, and is earned by it.
pub proof fn law_solutions_answer_the_problem<N: Real>(
    a: Answers,
    c: Settings,
    problem: Seq<char>,
    out: Solution<N>,
)
    requires
        solved(a, c, problem, Ok::<Solution<N>, Fault>(out)),
    ensures
        exists|turns: Seq<Turn>, text: Seq<char>, sub: Submission|
            turns.len() >= 2 && turns[1].role == "user"@ && turns[1].content == problem && a(
                c.base_url + "/chat/completions"@,
                json_text(#[trigger] request_json(c.model, turns)),
                c.api_key,
                Ok::<Seq<char>, Fault>(text),
            ) && #[trigger] submission(text) == Ok::<Submission, Fault>(sub) && #[trigger] earned(
                sub,
                out,
            ),
{
    law_problems_are_put_whole(a, c, problem, Ok::<Solution<N>, Fault>(out));
    if exists|i: int| 0 <= i < problem.len() && !is_space(#[trigger] problem[i]) {
        let s = SessionState { turns: opening(problem), phase: Phase::First };
        lemma_carried_answers(a, c, problem, s, out);
    }
}

proof fn lemma_carried_answers<N: Real>(
    a: Answers,
    c: Settings,
    problem: Seq<char>,
    s: SessionState,
    out: Solution<N>,
)
    requires
        carried(a, c, s, Ok::<Solution<N>, Fault>(out)),
        s.turns.len() >= 2 && s.turns[1].role == "user"@ && s.turns[1].content == problem,
    ensures
        exists|turns: Seq<Turn>, text: Seq<char>, sub: Submission|
            turns.len() >= 2 && turns[1].role == "user"@ && turns[1].content == problem && a(
                c.base_url + "/chat/completions"@,
                json_text(#[trigger] request_json(c.model, turns)),
                c.api_key,
                Ok::<Seq<char>, Fault>(text),
            ) && #[trigger] submission(text) == Ok::<Submission, Fault>(sub) && #[trigger] earned(
                sub,
                out,
            ),
    decreases replies_left(s.phase),
{
    let r = Ok::<Solution<N>, Fault>(out);
    let (reply, next) = choose|reply: Result<Seq<char>, Fault>, next: Next<N>| #[trigger]
        exchanged(a, c, s, reply) && #[trigger] advanced(s, reply, next) && match next {
            Next::Done(o) => r == o,
            Next::Ask(t) => replies_left(t.phase) < replies_left(s.phase) && carried(a, c, t, r),
        };
    match next {
        Next::Done(o) => {
            law_session_earns(s, reply, out);
            let text = reply->Ok_0;
            let sub = submission(text)->Ok_0;
            let sent = request_json(c.model, s.turns);
            assert(submission(text) == Ok::<Submission, Fault>(sub));
            assert(earned(sub, out));
        },
        Next::Ask(t) => {
            law_sessions_end::<N>(s, reply, t);
            assert(t.turns.subrange(0, s.turns.len() as int)[1] == s.turns[1]);
            lemma_carried_answers(a, c, problem, t, out);
        },
    }
}

} // verus!
