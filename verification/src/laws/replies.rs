//! Laws of replies: what is read out of the JSON in them.
use vstd::prelude::*;

use crate::error::Fault;
use crate::json::{json_parse, Json};
use crate::reply::{message, submission, Fields, Parsed};
use crate::text::is_space;

verus! {

/// `a` is the place of the first opening brace of a text, and `b` that of the last closing one.
pub open spec fn braces(text: Seq<char>, a: int, b: int) -> bool {
    &&& 0 <= a < text.len() && text[a] == '{'
    &&& forall|i: int| 0 <= i < a ==> text[i] != '{'
    &&& 0 <= b < text.len() && text[b] == '}'
    &&& forall|i: int| b < i < text.len() ==> text[i] != '}'
}

proof fn lemma_braces(text: Seq<char>, a: int, b: int)
    requires
        braces(text, a, b),
    ensures
        text.index_of_first('{') == Some(a),
        text.index_of_last('}') == Some(b),
{
    text.index_of_first_ensures('{');
    text.index_of_last_ensures('}');
    assert(text.contains('{') && text.contains('}'));
    let k = text.index_of_first('{').unwrap();
    let l = text.index_of_last('}').unwrap();
    assert(k == a) by {
        if k < a {
            assert(text[k] == '{');
        }
        if a < k {
            assert(text[a] != '{');
        }
    }
    assert(l == b) by {
        if l > b {
            assert(text[l] == '}');
        }
        if b > l {
            assert(text[b] != '}');
        }
    }
}

/// A submission is what the JSON object in the reply says: its program is the text of the member
/// `program`, without which there is none; it has one step for each element of the array `steps`,
/// in the same place, with the text of that element, or empty where that is no text; and its
/// check is the text of the member `check`, unless that is all white space.
pub proof fn law_submission_is_what_the_json_says(
    text: Seq<char>,
    a: int,
    b: int,
    members: Map<Seq<char>, Json>,
)
    requires
        braces(text, a, b),
        a <= b,
        json_parse(text.subrange(a, b + 1)) == Some(Json::Object(members)),
    ensures
        match submission(text) {
            Ok(sub) => {
                &&& members.contains_pair("program"@, Json::Text(sub.program))
                &&& members.contains_key("steps"@) && members["steps"@] is Array ==> {
                    let items = members["steps"@]->Array_0;
                    &&& sub.steps.len() == items.len()
                    &&& forall|i: int|
                        0 <= i < items.len() ==> match #[trigger] items[i] {
                            Json::Text(t) => sub.steps[i] == t,
                            _ => sub.steps[i].len() == 0,
                        }
                }
                &&& !(members.contains_key("steps"@) && members["steps"@] is Array)
                    ==> sub.steps.len() == 0
                &&& match sub.check {
                    Some(c) => members.contains_pair("check"@, Json::Text(c)) && exists|i: int|
                        0 <= i < c.len() && !is_space(#[trigger] c[i]),
                    None => members.contains_key("check"@) ==> (members["check"@] matches Json::Text(
                        c,
                    ) ==> forall|i: int| 0 <= i < c.len() ==> is_space(#[trigger] c[i])),
                }
            },
            Err(f) => f.code == "INVALID_JSON"@ && f.message == "missing program"@ && !(
            members.contains_key("program"@) && members["program"@] is Text),
        },
{
    lemma_braces(text, a, b);
    if members.contains_key("steps"@) && members["steps"@] is Array {
        let items = members["steps"@]->Array_0;
        let read = items.map_values(|x: Json| crate::json::json_string(x));
        assert forall|i: int| 0 <= i < items.len() implies #[trigger] read[i]
            == crate::json::json_string(items[i]) by {}
        if let Ok(sub) = submission(text) {
            assert forall|i: int| 0 <= i < items.len() implies match #[trigger] items[i] {
                Json::Text(t) => sub.steps[i] == t,
                _ => sub.steps[i].len() == 0,
            } by {
                assert(read[i] == crate::json::json_string(items[i]));
            }
        }
    }
}

/// A reply without an opening or a closing brace, with its last closing brace before its first
/// opening one, with something between them that is no JSON, or with JSON that is no object,
/// cannot be read.
pub proof fn law_what_is_no_submission(text: Seq<char>, a: int, b: int)
    ensures
        !text.contains('{') || !text.contains('}') ==> (submission(text) matches Err(f) && f.code
            == "INVALID_JSON"@ && f.message == "no JSON object in reply"@),
        braces(text, a, b) && a > b ==> (submission(text) matches Err(f) && f.code
            == "INVALID_JSON"@ && f.message == "reply was not valid JSON"@),
        braces(text, a, b) && a <= b && json_parse(text.subrange(a, b + 1)) is None ==> (submission(
            text,
        ) matches Err(f) && f.code == "INVALID_JSON"@ && f.message == "reply was not valid JSON"@),
        braces(text, a, b) && a <= b && json_parse(text.subrange(a, b + 1)) is Some && !(json_parse(
            text.subrange(a, b + 1),
        )->Some_0 is Object) ==> (submission(text) matches Err(f) && f.code == "INVALID_JSON"@
            && f.message == "missing program"@),
{
    text.index_of_first_ensures('{');
    text.index_of_last_ensures('}');
    if braces(text, a, b) {
        lemma_braces(text, a, b);
    }
}

/// What contracts say of a submission they say of its parts, each in full.
pub proof fn law_submissions_are_seen_whole(p: Parsed)
    ensures
        p@.program == p.program@,
        p@.steps.len() == p.steps@.len(),
        forall|i: int| 0 <= i < p.steps@.len() ==> #[trigger] p@.steps[i] == p.steps@[i]@,
        match (p@.check, p.check) {
            (Some(c), Some(d)) => c == d@,
            (None, None) => true,
            _ => false,
        },
{
}

/// The message in a response is the text at `choices[0].message.content` of the JSON that the
/// response denotes.
pub proof fn law_message_is_the_first_choice(
    text: Seq<char>,
    top: Map<Seq<char>, Json>,
    choices: Seq<Json>,
    choice: Map<Seq<char>, Json>,
    inner: Map<Seq<char>, Json>,
)
    requires
        json_parse(text) == Some(Json::Object(top)),
        top.contains_pair("choices"@, Json::Array(choices)),
        choices.len() > 0,
        choices[0] == Json::Object(choice),
        choice.contains_pair("message"@, Json::Object(inner)),
    ensures
        match message(text) {
            Ok(s) => inner.contains_pair("content"@, Json::Text(s)),
            Err(f) => f.code == "HTTP_ERROR"@ && f.message
                == "API response missing message content"@ && !(inner.contains_key("content"@)
                && inner["content"@] is Text),
        },
{
}

/// A message comes of nothing else: where there is one, the response denotes JSON with a text in
/// that place.
pub proof fn law_messages_are_in_their_place(text: Seq<char>, s: Seq<char>)
    requires
        message(text) == Ok::<Seq<char>, Fault>(s),
    ensures
        exists|
            top: Map<Seq<char>, Json>,
            choices: Seq<Json>,
            choice: Map<Seq<char>, Json>,
            inner: Map<Seq<char>, Json>,
        |
            json_parse(text) == Some(Json::Object(top)) && #[trigger] top.contains_pair(
                "choices"@,
                Json::Array(choices),
            ) && choices.len() > 0 && choices[0] == Json::Object(choice)
                && #[trigger] choice.contains_pair("message"@, Json::Object(inner))
                && inner.contains_pair("content"@, Json::Text(s)),
{
    let top = json_parse(text)->Some_0->Object_0;
    let choices = top["choices"@]->Array_0;
    let choice = choices[0]->Object_0;
    let inner = choice["message"@]->Object_0;
    assert(top.contains_pair("choices"@, Json::Array(choices)));
    assert(choice.contains_pair("message"@, Json::Object(inner)));
    assert(inner.contains_pair("content"@, Json::Text(s)));
}

/// What contracts say of the fields of a reply they say of each in full.
pub proof fn law_fields_are_seen_whole(f: Fields)
    ensures
        match (f@.program, f.program) {
            (Some(a), Some(b)) => a == b@,
            (None, None) => true,
            _ => false,
        },
        match (f@.check, f.check) {
            (Some(a), Some(b)) => a == b@,
            (None, None) => true,
            _ => false,
        },
        match (f@.steps, f.steps) {
            (Some(xs), Some(ys)) => xs.len() == ys@.len() && forall|i: int|
                0 <= i < xs.len() ==> match (#[trigger] xs[i], ys@[i]) {
                    (Some(a), Some(b)) => a == b@,
                    (None, None) => true,
                    _ => false,
                },
            (None, None) => true,
            _ => false,
        },
{
}

} // verus!
