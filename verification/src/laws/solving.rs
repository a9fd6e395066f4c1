//! Laws of replies, sessions and clients.
use vstd::prelude::*;

use crate::check::checked;
use crate::client::{
    carried, endpoint, exchanged, is_http, reached, requested, sent, settings, solved, Answers,
    Settings,
};
use crate::error::Fault;
use crate::json::{json_member, json_parse, json_text, Json};
use crate::laws::running::{law_answers_are_finite, law_check_values_are_finite};
use crate::number::{is_finiteness, Real};
use crate::program::program_yields;
use crate::reply::{field_texts, submission, submitted, Submission};
use crate::session::{
    advanced, attempted, judged, opening, replies_left, request_json, solution, submission_json,
    trial, tried, Next, Phase, SessionState, Solution, Trial, Turn,
};
use crate::text::{blank, strip_end};

verus! {

/// `s` is earned by the submission `sub`: the answer is what its program computes, and the
/// verdict is that of its check on that answer, or negative where it has none.
pub open spec fn earned<N: Real>(sub: Submission, s: Solution<N>) -> bool {
    &&& s.expression == sub.program
    &&& s.steps == sub.steps
    &&& program_yields(sub.program, Ok::<N, Fault>(s.answer))
    &&& match sub.check {
        Some(check) => s.evaluated matches Some(v) && checked(
            check,
            s.answer,
            Ok::<(N, bool), Fault>((v, s.verified)),
        ),
        None => s.evaluated is None && !s.verified,
    }
}

/// A session ends with a solution only where the reply holds the submission that earned it.
pub proof fn law_session_earns<N: Real>(
    s: SessionState,
    reply: Result<Seq<char>, Fault>,
    out: Solution<N>,
)
    requires
        advanced(s, reply, Next::<N>::Done(Ok(out))),
    ensures
        reply matches Ok(text) && submission(text) matches Ok(sub) && earned(sub, out),
{
    let text = reply->Ok_0;
    let sub = submission(text)->Ok_0;
    let next = Next::<N>::Done(Ok(out));
    let o = choose|o: Result<Trial<N>, Fault>| #[trigger]
        attempted(sub, o) && judged(s, sub, o, next);
    let t = o->Ok_0;
    lemma_attempt_earns(sub, t, out.retries);
}

proof fn lemma_attempt_earns<N: Real>(sub: Submission, t: Trial<N>, retries: u32)
    requires
        attempted(sub, Ok::<Trial<N>, Fault>(t)),
    ensures
        earned(sub, solution(sub, t, retries)),
{
    let r = Ok::<Trial<N>, Fault>(t);
    let o = choose|o: Result<N, Fault>| #[trigger]
        program_yields(sub.program, o) && match o {
            Err(f) => r == Err::<Trial<N>, Fault>(f),
            Ok(answer) => tried(sub.check, answer, r),
        };
    let answer = o->Ok_0;
    assert(tried(sub.check, answer, r));
    if let Some(c) = sub.check {
        let q = choose|q: Result<(N, bool), Fault>| #[trigger]
            checked(c, answer, q) && r == trial(answer, q);
        assert(q == Ok::<(N, bool), Fault>((t.evaluated->Some_0, t.verified)));
    }
}

/// A solved problem is earned by a submission that the transport brought in reply to a request.
pub proof fn law_solutions_are_earned<N: Real>(
    a: Answers,
    c: Settings,
    problem: Seq<char>,
    out: Solution<N>,
)
    requires
        solved(a, c, problem, Ok::<Solution<N>, Fault>(out)),
    ensures
        exists|s: SessionState, reply: Result<Seq<char>, Fault>, sub: Submission| #[trigger]
            exchanged(a, c, s, reply) && submission(reply->Ok_0) == Ok::<Submission, Fault>(sub)
                && #[trigger] earned(sub, out) && reply is Ok,
{
    lemma_carried_earns(
        a,
        c,
        SessionState { turns: opening(problem), phase: Phase::First },
        out,
    );
}

proof fn lemma_carried_earns<N: Real>(a: Answers, c: Settings, s: SessionState, out: Solution<N>)
    requires
        carried(a, c, s, Ok::<Solution<N>, Fault>(out)),
    ensures
        exists|t: SessionState, reply: Result<Seq<char>, Fault>, sub: Submission| #[trigger]
            exchanged(a, c, t, reply) && submission(reply->Ok_0) == Ok::<Submission, Fault>(sub)
                && #[trigger] earned(sub, out) && reply is Ok,
    decreases replies_left(s.phase),
{
    let r = Ok::<Solution<N>, Fault>(out);
    let (reply, next) = choose|reply: Result<Seq<char>, Fault>, next: Next<N>| #[trigger]
        exchanged(a, c, s, reply) && #[trigger] advanced(s, reply, next) && match next {
            Next::Done(o) => r == o,
            Next::Ask(t) => replies_left(t.phase) < replies_left(s.phase) && carried(a, c, t, r),
        };
    match next {
        Next::Done(o) => {
            law_session_earns(s, reply, out);
            let sub = submission(reply->Ok_0)->Ok_0;
            assert(earned(sub, out));
        },
        Next::Ask(t) => lemma_carried_earns(a, c, t, out),
    }
}

/// A result is `verified` only where a check was evaluated on its answer and passed.
pub proof fn law_verified_only_if_checked<N: Real>(
    a: Answers,
    c: Settings,
    problem: Seq<char>,
    out: Solution<N>,
)
    requires
        solved(a, c, problem, Ok::<Solution<N>, Fault>(out)),
        out.verified,
    ensures
        out.evaluated is Some,
        exists|check: Seq<char>| #[trigger]
            checked(
                check,
                out.answer,
                Ok::<(N, bool), Fault>((out.evaluated->Some_0, true)),
            ),
{
    law_solutions_are_earned(a, c, problem, out);
    let (s, reply, sub) = choose|
        s: SessionState,
        reply: Result<Seq<char>, Fault>,
        sub: Submission,
    | #[trigger]
        exchanged(a, c, s, reply) && submission(reply->Ok_0) == Ok::<Submission, Fault>(sub)
            && #[trigger] earned(sub, out) && reply is Ok;
    assert(checked(
        sub.check->Some_0,
        out.answer,
        Ok::<(N, bool), Fault>((out.evaluated->Some_0, true)),
    ));
}

/// The answer is always what the program shown with it computes, and it is finite, as is the
/// value of the check.
pub proof fn law_answer_is_computed<N: Real>(
    a: Answers,
    c: Settings,
    problem: Seq<char>,
    out: Solution<N>,
)
    requires
        solved(a, c, problem, Ok::<Solution<N>, Fault>(out)),
    ensures
        program_yields(out.expression, Ok::<N, Fault>(out.answer)),
        is_finiteness(out.answer, true),
        out.evaluated matches Some(v) ==> is_finiteness(v, true),
{
    law_solutions_are_earned(a, c, problem, out);
    let (s, reply, sub) = choose|
        s: SessionState,
        reply: Result<Seq<char>, Fault>,
        sub: Submission,
    | #[trigger]
        exchanged(a, c, s, reply) && submission(reply->Ok_0) == Ok::<Submission, Fault>(sub)
            && #[trigger] earned(sub, out) && reply is Ok;
    law_answers_are_finite(out.expression, out.answer);
    if let Some(v) = out.evaluated {
        law_check_values_are_finite(sub.check->Some_0, out.answer, v, out.verified);
    }
}

/// A submission is asked for again at most once, and only where the first was not verified.
pub proof fn law_at_most_one_retry<N: Real>(
    a: Answers,
    c: Settings,
    problem: Seq<char>,
    out: Solution<N>,
)
    requires
        solved(a, c, problem, Ok::<Solution<N>, Fault>(out)),
    ensures
        out.retries <= 1,
        out.retries == 0 ==> out.verified,
{
    lemma_carried_retries(
        a,
        c,
        SessionState { turns: opening(problem), phase: Phase::First },
        out,
    );
}

proof fn lemma_carried_retries<N: Real>(
    a: Answers,
    c: Settings,
    s: SessionState,
    out: Solution<N>,
)
    requires
        carried(a, c, s, Ok::<Solution<N>, Fault>(out)),
    ensures
        out.retries <= 1,
        out.retries == 0 ==> out.verified,
    decreases replies_left(s.phase),
{
    let r = Ok::<Solution<N>, Fault>(out);
    let (reply, next) = choose|reply: Result<Seq<char>, Fault>, next: Next<N>| #[trigger]
        exchanged(a, c, s, reply) && #[trigger] advanced(s, reply, next) && match next {
            Next::Done(o) => r == o,
            Next::Ask(t) => replies_left(t.phase) < replies_left(s.phase) && carried(a, c, t, r),
        };
    if let Next::Ask(t) = next {
        lemma_carried_retries(a, c, t, out);
    }
}

/// A session that asks again has fewer replies left, so that it asks at most three times; it
/// keeps what was said and adds one message of each side.
pub proof fn law_sessions_end<N: Real>(
    s: SessionState,
    reply: Result<Seq<char>, Fault>,
    t: SessionState,
)
    requires
        advanced(s, reply, Next::<N>::Ask(t)),
    ensures
        replies_left(t.phase) < replies_left(s.phase) <= 3,
        s.turns.is_prefix_of(t.turns),
        t.turns.len() == s.turns.len() + 2,
        t.turns[s.turns.len() as int].role == "assistant"@,
        t.turns[s.turns.len() as int + 1].role == "user"@,
{
    assert(t.turns.subrange(0, s.turns.len() as int) =~= s.turns);
}

/// Everything that a transport is handed while a problem is solved is a request of the client's
/// own: to its endpoint, with its key, and with a body that is the JSON of its model and of a
/// conversation. The conversation opens with the instructions and the problem as it was put, and
/// is two, four or six messages long.
pub proof fn law_requests_are_the_clients<N: Real>(
    a: Answers,
    c: Settings,
    problem: Seq<char>,
    url: Seq<char>,
    body: Seq<char>,
    key: Seq<char>,
)
    requires
        sent::<N>(a, c, problem, url, body, key),
    ensures
        !blank(problem),
        url == endpoint(c.base_url),
        key == c.api_key,
        exists|turns: Seq<Turn>| #[trigger]
            opening(problem).is_prefix_of(turns) && (turns.len() == 2 || turns.len() == 4
                || turns.len() == 6) && body == json_text(request_json(c.model, turns))
                && json_parse(body) == Some(request_json(c.model, turns)),
{
    let first = SessionState { turns: opening(problem), phase: Phase::First };
    let s = choose|s: SessionState| #[trigger]
        requested(c, s, url, body, key) && reached::<N>(a, c, first, s);
    lemma_reached_turns::<N>(a, c, first, s);
    assert(opening(problem).is_prefix_of(s.turns));
}

proof fn lemma_reached_turns<N: Real>(a: Answers, c: Settings, s: SessionState, t: SessionState)
    requires
        reached::<N>(a, c, s, t),
    ensures
        s.turns.is_prefix_of(t.turns),
        replies_left(t.phase) <= replies_left(s.phase),
        t.turns.len() <= s.turns.len() + 2 * (replies_left(s.phase) - replies_left(t.phase)),
        (t.turns.len() - s.turns.len()) % 2 == 0,
    decreases replies_left(s.phase),
{
    if s == t {
        assert(s.turns.subrange(0, s.turns.len() as int) =~= s.turns);
    } else {
        let (reply, mid) = choose|reply: Result<Seq<char>, Fault>, mid: SessionState| #[trigger]
            exchanged(a, c, s, reply) && #[trigger] advanced(s, reply, Next::<N>::Ask(mid))
                && replies_left(mid.phase) < replies_left(s.phase) && reached::<N>(a, c, mid, t);
        law_sessions_end::<N>(s, reply, mid);
        lemma_reached_turns::<N>(a, c, mid, t);
        let n = s.turns.len() as int;
        assert(t.turns.subrange(0, n) =~= t.turns.subrange(0, mid.turns.len() as int).subrange(
            0,
            n,
        ));
    }
}

/// Each request after the first repeats the one before it, the reply to which did not end the
/// session, with one message of each side added.
pub proof fn law_requests_grow<N: Real>(
    a: Answers,
    c: Settings,
    problem: Seq<char>,
    s: SessionState,
)
    requires
        reached::<N>(
            a,
            c,
            SessionState { turns: opening(problem), phase: Phase::First },
            s,
        ),
    ensures
        s == (SessionState { turns: opening(problem), phase: Phase::First }) || exists|
            before: SessionState,
            reply: Result<Seq<char>, Fault>,
        | #[trigger]
            exchanged(a, c, before, reply) && advanced(before, reply, Next::<N>::Ask(s))
                && reached::<N>(
                a,
                c,
                SessionState { turns: opening(problem), phase: Phase::First },
                before,
            ) && before.turns.is_prefix_of(s.turns) && s.turns.len() == before.turns.len() + 2
                && s.turns[before.turns.len() as int].role == "assistant"@
                && s.turns[before.turns.len() as int + 1].role == "user"@,
{
    let first = SessionState { turns: opening(problem), phase: Phase::First };
    if s != first {
        lemma_reached_last::<N>(a, c, first, s);
        let (before, reply) = choose|before: SessionState, reply: Result<Seq<char>, Fault>|
            #[trigger]
            exchanged(a, c, before, reply) && advanced(before, reply, Next::<N>::Ask(s))
                && reached::<N>(a, c, first, before);
        law_sessions_end::<N>(before, reply, s);
    }
}

/// A session that comes of another has a session just before it.
proof fn lemma_reached_last<N: Real>(a: Answers, c: Settings, s: SessionState, t: SessionState)
    requires
        reached::<N>(a, c, s, t),
        s != t,
    ensures
        exists|before: SessionState, reply: Result<Seq<char>, Fault>| #[trigger]
            exchanged(a, c, before, reply) && advanced(before, reply, Next::<N>::Ask(t))
                && reached::<N>(a, c, s, before),
    decreases replies_left(s.phase),
{
    let (reply, mid) = choose|reply: Result<Seq<char>, Fault>, mid: SessionState| #[trigger]
        exchanged(a, c, s, reply) && #[trigger] advanced(s, reply, Next::<N>::Ask(mid))
            && replies_left(mid.phase) < replies_left(s.phase) && reached::<N>(a, c, mid, t);
    if mid == t {
        assert(reached::<N>(a, c, s, s));
    } else {
        lemma_reached_last::<N>(a, c, mid, t);
        let (before, r) = choose|before: SessionState, r: Result<Seq<char>, Fault>| #[trigger]
            exchanged(a, c, before, r) && advanced(before, r, Next::<N>::Ask(t)) && reached::<N>(
                a,
                c,
                mid,
                before,
            );
        assert(reached::<N>(a, c, s, before));
    }
}

/// An error of the transport ends a session at once, and is what it ends with.
pub proof fn law_transport_errors_end<N: Real>(s: SessionState, f: Fault, next: Next<N>)
    requires
        advanced(s, Err::<Seq<char>, Fault>(f), next),
    ensures
        next == Next::<N>::Done(Err(f)),
{
}

/// A session ends with the first submission that it can read where that passes its check, and
/// asks no more.
pub proof fn law_verified_at_once<N: Real>(
    s: SessionState,
    text: Seq<char>,
    sub: Submission,
    next: Next<N>,
)
    requires
        s.phase != Phase::Revised,
        advanced(s, Ok::<Seq<char>, Fault>(text), next),
        submission(text) == Ok::<Submission, Fault>(sub),
        forall|o: Result<Trial<N>, Fault>| #[trigger]
            attempted(sub, o) ==> o is Ok && o->Ok_0.verified,
    ensures
        next matches Next::Done(Ok(out)) && out.verified && out.retries == 0 && earned(sub, out),
{
    let o = choose|o: Result<Trial<N>, Fault>| #[trigger]
        attempted(sub, o) && judged(s, sub, o, next);
    lemma_attempt_earns(sub, o->Ok_0, 0);
}

/// Whatever keeps a reply from being read has the code `INVALID_JSON`.
pub proof fn law_unreadable_replies_are_invalid_json(text: Seq<char>)
    ensures
        submission(text) matches Err(f) ==> f.code == "INVALID_JSON"@,
{
}

/// The check of a submission is never blank.
pub proof fn law_checks_are_not_blank(text: Seq<char>)
    ensures
        submission(text) matches Ok(sub) ==> (sub.check matches Some(c) ==> !blank(c)),
{
}

/// The text by which the model is shown its submission again denotes that submission.
pub proof fn law_submission_reads_back(text: Seq<char>, sub: Submission)
    requires
        submission(text) == Ok::<Submission, Fault>(sub),
    ensures
        submitted(field_texts(submission_json(sub))) == Ok::<Submission, Fault>(sub),
{
    law_checks_are_not_blank(text);
    lemma_member_names();
    let j = submission_json(sub);
    assert(json_member(j, "program"@) == Json::Text(sub.program));
    let steps = sub.steps.map_values(|t: Seq<char>| Json::Text(t));
    assert(json_member(j, "steps"@) == Json::Array(steps));
    let back = submitted(field_texts(j))->Ok_0;
    assert(back.steps =~= sub.steps);
}

proof fn lemma_member_names()
    ensures
        "program"@ != "steps"@,
        "program"@ != "check"@,
        "steps"@ != "check"@,
{
    reveal_strlit("program");
    reveal_strlit("steps");
    reveal_strlit("check");
    assert("program"@.len() == 7);
    assert("steps"@[0] == 's' && "check"@[0] == 'c');
}

/// The base URL of a client is one of HTTP and does not end in a slash; it is the one that was
/// given, but for slashes at its end. Requests go below it.
pub proof fn law_base_url(api_key: Seq<char>, base_url: Seq<char>, c: Settings)
    requires
        settings(api_key, base_url) == Ok::<Settings, Fault>(c),
    ensures
        c.api_key == api_key && c.api_key.len() > 0,
        is_http(c.base_url),
        c.base_url.len() > 0 && c.base_url.last() != '/',
        c.base_url.is_prefix_of(base_url),
        forall|i: int| c.base_url.len() <= i < base_url.len() ==> base_url[i] == '/',
        c.base_url.is_prefix_of(endpoint(c.base_url)),
{
    lemma_strip_end(base_url, '/');
    reveal_strlit("http://");
    reveal_strlit("https://");
    assert(endpoint(c.base_url).subrange(0, c.base_url.len() as int) =~= c.base_url);
}

proof fn lemma_strip_end(s: Seq<char>, c: char)
    ensures
        strip_end(s, c).is_prefix_of(s),
        strip_end(s, c).len() > 0 ==> strip_end(s, c).last() != c,
        forall|i: int| strip_end(s, c).len() <= i < s.len() ==> s[i] == c,
    decreases s.len(),
{
    if s.len() > 0 && s.last() == c {
        let t = s.drop_last();
        lemma_strip_end(t, c);
        let n = strip_end(s, c).len() as int;
        assert(t.subrange(0, n) =~= s.subrange(0, n));
        assert forall|i: int| n <= i < s.len() implies s[i] == c by {
            if i < t.len() {
                assert(t[i] == s[i]);
            }
        }
    } else {
        assert(s.subrange(0, s.len() as int) =~= s);
    }
}

} // verus!
