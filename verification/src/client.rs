//! The client: credentials, the endpoint, and how a problem is solved over a transport.
use vstd::prelude::*;

use crate::error::{fault, Fault, SolverError};
use crate::json::{json_parse, json_text};
use crate::number::Real;
use crate::session::{
    advanced, opening, replies_left, reply_text, request_json, solution_of, Next, Phase, Progress,
    Session, SessionState, Solution, SolveResult,
};
use crate::text::{blank, chars_of, join2, starts_with, string_of, strip_char, strip_end};

verus! {

/// Settings of a client.
#[derive(Debug, Clone)]
pub struct SolveOptions {
    pub api_key: String,
    pub base_url: String,
    pub model: String,
}

impl Default for SolveOptions {
    /// No key, the endpoint of OpenAI, and a small model of theirs.
    fn default() -> (r: Self)
        ensures
            r.api_key@ == Seq::<char>::empty(),
            r.base_url@ == "https://api.openai.com/v1"@,
            r.model@ == "gpt-4o-mini"@,
    {
        Self {
            api_key: String::new(),
            base_url: "https://api.openai.com/v1".to_string(),
            model: "gpt-4o-mini".to_string(),
        }
    }
}

/// A request to be sent: where to, what, and the key to authorize it with.
pub struct Request {
    pub url: String,
    pub body: String,
    pub api_key: String,
}

/// The transport of a client whose caller carries the requests: it takes them from
/// [`MathSolver::request`] and hands the replies to [`Session::advance`].
#[derive(Debug)]
pub struct Detached;

/// A client for an endpoint that speaks the OpenAI chat protocol. The caller brings the key.
pub struct MathSolver<F> {
    api_key: String,
    base_url: String,
    model: String,
    transport: F,
}

/// The settings of a client, as contracts speak of them.
pub struct Settings {
    pub api_key: Seq<char>,
    pub base_url: Seq<char>,
    pub model: Seq<char>,
}

impl<F> View for MathSolver<F> {
    type V = Settings;

    closed spec fn view(&self) -> Settings {
        Settings { api_key: self.api_key@, base_url: self.base_url@, model: self.model@ }
    }
}

/// Whether `url` is one of HTTP.
pub open spec fn is_http(url: Seq<char>) -> bool {
    "http://"@.is_prefix_of(url) || "https://"@.is_prefix_of(url)
}

/// The settings that a key and a base URL give, or what is wrong with them.
///
/// The key must not be empty; the base URL, without the slashes at its end, must be one of HTTP.
pub open spec fn settings(api_key: Seq<char>, base_url: Seq<char>) -> Result<Settings, Fault> {
    let base = strip_end(base_url, '/');
    if api_key.len() == 0 {
        Err(fault("NO_API_KEY", "api_key is required (BYOK)"@))
    } else if !is_http(base) {
        Err(
            fault(
                "BAD_BASE_URL",
                "base_url must be an http(s) URL, e.g. https://api.deepseek.com/v1"@,
            ),
        )
    } else {
        Ok(Settings { api_key, base_url: base, model: "gpt-4o-mini"@ })
    }
}

/// Where requests go.
pub open spec fn endpoint(base_url: Seq<char>) -> Seq<char> {
    base_url + "/chat/completions"@
}

/// What a transport may answer: whether a reply may come of a URL, a body and a key.
pub type Answers = spec_fn(Seq<char>, Seq<char>, Seq<char>, Result<Seq<char>, Fault>) -> bool;

/// What the transport `f` may answer.
pub open spec fn answers<F>(f: F) -> Answers where
    F: Fn(&str, &str, &str) -> Result<String, SolverError>,
 {
    |url: Seq<char>, body: Seq<char>, key: Seq<char>, reply: Result<Seq<char>, Fault>|
        exists|u: &str, b: &str, k: &str, r: Result<String, SolverError>| #[trigger]
            call_ensures(f, (u, b, k), r) && u@ == url && b@ == body && k@ == key && reply_text(r)
                == reply
}

/// `reply` is what a transport may answer to the request of a client with settings `c` in the
/// session `s`.
pub open spec fn exchanged(
    a: Answers,
    c: Settings,
    s: SessionState,
    reply: Result<Seq<char>, Fault>,
) -> bool {
    a(endpoint(c.base_url), json_text(request_json(c.model, s.turns)), c.api_key, reply)
}

/// `r` is the outcome of carrying the session `s` to its end over a transport that answers `a`.
pub open spec fn carried<N: Real>(
    a: Answers,
    c: Settings,
    s: SessionState,
    r: Result<Solution<N>, Fault>,
) -> bool
    decreases replies_left(s.phase),
{
    exists|reply: Result<Seq<char>, Fault>, next: Next<N>| #[trigger]
        exchanged(a, c, s, reply) && #[trigger] advanced(s, reply, next) && match next {
            Next::Done(o) => r == o,
            Next::Ask(t) => replies_left(t.phase) < replies_left(s.phase) && carried(a, c, t, r),
        }
}

/// `r` is the outcome of solving `problem` over a transport that answers `a`.
pub open spec fn solved<N: Real>(
    a: Answers,
    c: Settings,
    problem: Seq<char>,
    r: Result<Solution<N>, Fault>,
) -> bool {
    if blank(problem) {
        r == Err::<Solution<N>, Fault>(fault("NO_PROBLEM", "problem must be non-empty"@))
    } else {
        carried(a, c, SessionState { turns: opening(problem), phase: Phase::First }, r)
    }
}

/// The session `t` comes of the session `s` by replies that a transport may give: it is `s`, or it
/// comes of what `s` becomes with one of them.
pub open spec fn reached<N: Real>(
    a: Answers,
    c: Settings,
    s: SessionState,
    t: SessionState,
) -> bool
    decreases replies_left(s.phase),
{
    s == t || exists|reply: Result<Seq<char>, Fault>, mid: SessionState| #[trigger]
        exchanged(a, c, s, reply) && #[trigger] advanced(s, reply, Next::<N>::Ask(mid))
            && replies_left(mid.phase) < replies_left(s.phase) && reached::<N>(a, c, mid, t)
}

/// `url`, `body` and `key` are a request of a client with settings `c` in the session `s`.
pub open spec fn requested(
    c: Settings,
    s: SessionState,
    url: Seq<char>,
    body: Seq<char>,
    key: Seq<char>,
) -> bool {
    &&& url == endpoint(c.base_url)
    &&& body == json_text(request_json(c.model, s.turns))
    &&& json_parse(body) == Some(request_json(c.model, s.turns))
    &&& key == c.api_key
}

/// `url`, `body` and `key` are what a transport that answers `a` is handed when `problem` is
/// solved over it: the request of a session about the problem. A blank problem leads to none.
pub open spec fn sent<N: Real>(
    a: Answers,
    c: Settings,
    problem: Seq<char>,
    url: Seq<char>,
    body: Seq<char>,
    key: Seq<char>,
) -> bool {
    !blank(problem) && exists|s: SessionState| #[trigger]
        requested(c, s, url, body, key) && reached::<N>(
            a,
            c,
            SessionState { turns: opening(problem), phase: Phase::First },
            s,
        )
}

/// The value of the header that authorizes a request.
pub fn authorization(api_key: &str) -> (r: String)
    ensures
        r@ == "Bearer "@ + api_key@,
{
    join2("Bearer ", api_key)
}

/// The base URL without the slashes at its end, where the key and it are in order.
fn checked_base(api_key: &str, base_url: &str) -> (r: Result<String, SolverError>)
    ensures
        match (settings(api_key@, base_url@), r) {
            (Ok(c), Ok(base)) => base@ == c.base_url,
            (Err(f), Err(e)) => f == e@,
            _ => false,
        },
{
    if api_key.is_empty() {
        return Err(SolverError::new("NO_API_KEY", "api_key is required (BYOK)"));
    }
    let chars = chars_of(base_url);
    let base = strip_char(chars.as_slice(), '/');
    if !(starts_with(base, "http://") || starts_with(base, "https://")) {
        return Err(
            SolverError::new(
                "BAD_BASE_URL",
                "base_url must be an http(s) URL, e.g. https://api.deepseek.com/v1",
            ),
        );
    }
    Ok(string_of(base))
}

impl<F> MathSolver<F> {
    /// What carries the requests of the client.
    pub closed spec fn transport(&self) -> F {
        self.transport
    }

    /// Sets the model to ask.
    pub fn model<M: Into<String>>(self, model: M) -> (r: Self)
        ensures
            r.transport() == self.transport(),
            exists|name: String| #[trigger]
                call_ensures(<M as Into<String>>::into, (model,), name) && r@ == (Settings {
                    model: name@,
                    ..self@
                }),
    {
        let name: String = model.into();
        let r = Self {
            api_key: self.api_key,
            base_url: self.base_url,
            model: name,
            transport: self.transport,
        };
        assert(call_ensures(<M as Into<String>>::into, (model,), r.model));
        r
    }

    /// The base URL, without slashes at its end.
    pub fn base_url(&self) -> (r: &str)
        ensures
            r@ == self@.base_url,
    {
        self.base_url.as_str()
    }

    /// The model that is asked.
    pub fn model_name(&self) -> (r: &str)
        ensures
            r@ == self@.model,
    {
        self.model.as_str()
    }

    /// The request that a session asks to be sent.
    pub fn request(&self, session: &Session) -> (r: Request)
        ensures
            r.url@ == endpoint(self@.base_url),
            r.body@ == json_text(request_json(self@.model, session@.turns)),
            json_parse(r.body@) == Some(request_json(self@.model, session@.turns)),
            r.api_key@ == self@.api_key,
    {
        Request {
            url: join2(self.base_url.as_str(), "/chat/completions"),
            body: session.body(self.model.as_str()),
            api_key: self.api_key.clone(),
        }
    }
}

impl MathSolver<Detached> {
    /// A client whose caller carries the requests.
    pub fn new(api_key: &str, base_url: &str) -> (r: Result<Self, SolverError>)
        ensures
            match (settings(api_key@, base_url@), r) {
                (Ok(c), Ok(s)) => s@ == c,
                (Err(f), Err(e)) => f == e@,
                _ => false,
            },
    {
        match checked_base(api_key, base_url) {
            Ok(base) => Ok(
                Self {
                    api_key: api_key.to_string(),
                    base_url: base,
                    model: "gpt-4o-mini".to_string(),
                    transport: Detached,
                },
            ),
            Err(e) => Err(e),
        }
    }
}

impl<F> MathSolver<F> where
    F: Fn(&str, &str, &str) -> Result<String, SolverError> + Send + Sync + 'static,
 {
    /// A client with a transport `(url, body, api_key) -> reply of the model`.
    pub fn with_transport(api_key: &str, base_url: &str, transport: F) -> (r: Result<
        Self,
        SolverError,
    >)
        ensures
            match (settings(api_key@, base_url@), r) {
                (Ok(c), Ok(s)) => s@ == c && s.transport() == transport,
                (Err(f), Err(e)) => f == e@,
                _ => false,
            },
    {
        match checked_base(api_key, base_url) {
            Ok(base) => Ok(
                Self {
                    api_key: api_key.to_string(),
                    base_url: base,
                    model: "gpt-4o-mini".to_string(),
                    transport,
                },
            ),
            Err(e) => Err(e),
        }
    }

    /// Solves a problem.
    ///
    /// The answer is what the program of the model computes, run here; it is `verified` only
    /// where the check that came with it, run here too, passes.
    ///
    /// The transport must accept the requests of sessions about the problem, and is handed nothing
    /// else; on a blank problem it is not called. How often it is handed a request is not stated:
    /// a session takes at most three replies, which is stated of [`Session`], and one call is made
    /// for each.
    pub fn solve<N: Real>(&self, problem: &str) -> (r: Result<SolveResult<N>, SolverError>)
        requires
            forall|url: &str, body: &str, key: &str|
                sent::<N>(answers(self.transport()), self@, problem@, url@, body@, key@)
                    ==> #[trigger] call_requires(self.transport(), (url, body, key)),
        ensures
            solved(answers(self.transport()), self@, problem@, solution_of(r)),
    {
        let mut session = match Session::start(problem) {
            Ok(s) => s,
            Err(e) => return Err(e),
        };
        let ghost f = self.transport();
        let ghost a = answers(f);
        let ghost c = self@;
        let ghost first = session@;
        loop
            invariant
                f == self.transport(),
                a == answers(f),
                c == self@,
                !blank(problem@),
                first == (SessionState { turns: opening(problem@), phase: Phase::First }),
                forall|url: &str, body: &str, key: &str|
                    sent::<N>(a, c, problem@, url@, body@, key@) ==> #[trigger] call_requires(
                        f,
                        (url, body, key),
                    ),
                forall|t: SessionState| #[trigger]
                    reached::<N>(a, c, session@, t) ==> reached::<N>(a, c, first, t),
                forall|o: Result<Solution<N>, Fault>| #[trigger]
                    carried(a, c, session@, o) ==> solved(a, c, problem@, o),
            decreases replies_left(session@.phase),
        {
            let ghost s = session@;
            let req = self.request(&session);
            assert(self.transport == f);
            assert(requested(c, s, req.url@, req.body@, req.api_key@));
            assert(reached::<N>(a, c, s, s));
            assert(sent::<N>(a, c, problem@, req.url@, req.body@, req.api_key@));
            let reply = (self.transport)(req.url.as_str(), req.body.as_str(), req.api_key.as_str());
            let ghost answered = reply_text(reply);
            assert(exchanged(a, c, s, answered));
            match session.advance::<N>(reply) {
                Progress::Done(r) => {
                    assert(advanced(s, answered, Next::Done(solution_of(r))));
                    assert(carried(a, c, s, solution_of(r)));
                    return r;
                },
                Progress::Ask(next) => {
                    assert(advanced(s, answered, Next::<N>::Ask(next@)));
                    assert(replies_left(next@.phase) < replies_left(s.phase));
                    assert forall|t: SessionState| #[trigger]
                        reached::<N>(a, c, next@, t) implies reached::<N>(a, c, first, t) by {
                        assert(reached::<N>(a, c, s, t));
                    }
                    assert forall|o: Result<Solution<N>, Fault>| #[trigger]
                        carried(a, c, next@, o) implies solved(a, c, problem@, o) by {
                        assert(carried(a, c, s, o));
                    }
                    session = next;
                },
            }
        }
    }
}

} // verus!
