//! What comes back from the model: the envelope of the API, and the submission in it.
use vstd::prelude::*;
use vstd::slice::slice_subrange;

use crate::error::{fault, Fault, SolverError};
use crate::json::{
    all_json, element, json_element, json_member, json_of, json_parse, json_string, member,
    parse_value, Json,
};
use crate::text::{blank, chars_of, find_first, find_last, is_blank, string_of};

verus! {

/// A submission of the model: a program that computes the answer, the steps in words, and an
/// expression to check the answer by.
#[derive(Debug)]
pub struct Parsed {
    pub program: String,
    pub steps: Vec<String>,
    pub check: Option<String>,
}

/// A submission as contracts speak of it.
pub struct Submission {
    pub program: Seq<char>,
    pub steps: Seq<Seq<char>>,
    pub check: Option<Seq<char>>,
}

/// The texts of strings, in order.
pub open spec fn texts(items: Seq<String>) -> Seq<Seq<char>> {
    items.map_values(|s: String| s@)
}

/// The text of a string that may be missing.
pub open spec fn text_if_any(s: Option<String>) -> Option<Seq<char>> {
    match s {
        Some(s) => Some(s@),
        None => None,
    }
}

impl View for Parsed {
    type V = Submission;

    open spec fn view(&self) -> Submission {
        Submission {
            program: self.program@,
            steps: texts(self.steps@),
            check: text_if_any(self.check),
        }
    }
}

/// The strings in the reply that a submission is made of; each is missing where the reply has no
/// string in its place.
#[derive(Debug)]
pub struct Fields {
    pub program: Option<String>,
    /// The elements of `steps`; missing where that is no array.
    pub steps: Option<Vec<Option<String>>>,
    pub check: Option<String>,
}

/// The strings of a reply, as contracts speak of them.
pub struct FieldTexts {
    pub program: Option<Seq<char>>,
    pub steps: Option<Seq<Option<Seq<char>>>>,
    pub check: Option<Seq<char>>,
}

/// The texts of strings that may be missing, in order.
pub open spec fn texts_if_any(items: Seq<Option<String>>) -> Seq<Option<Seq<char>>> {
    items.map_values(|s: Option<String>| text_if_any(s))
}

impl View for Fields {
    type V = FieldTexts;

    open spec fn view(&self) -> FieldTexts {
        FieldTexts {
            program: text_if_any(self.program),
            steps: match self.steps {
                Some(items) => Some(texts_if_any(items@)),
                None => None,
            },
            check: text_if_any(self.check),
        }
    }
}

/// The strings that a submission is made of in `j`.
pub open spec fn field_texts(j: Json) -> FieldTexts {
    FieldTexts {
        program: json_string(json_member(j, "program"@)),
        steps: match json_member(j, "steps"@) {
            Json::Array(items) => Some(items.map_values(|x: Json| json_string(x))),
            _ => None,
        },
        check: json_string(json_member(j, "check"@)),
    }
}

/// A reply that cannot be read.
pub open spec fn invalid(message: Seq<char>) -> Fault {
    fault("INVALID_JSON", message)
}

/// The submission that the strings make up.
///
/// A program there must be. Steps that are no strings are empty; a check that is blank is none.
pub open spec fn submitted(f: FieldTexts) -> Result<Submission, Fault> {
    match f.program {
        None => Err(invalid("missing program"@)),
        Some(program) => Ok(
            Submission {
                program,
                steps: match f.steps {
                    Some(items) => items.map_values(
                        |s: Option<Seq<char>>|
                            match s {
                                Some(t) => t,
                                None => Seq::empty(),
                            },
                    ),
                    None => Seq::empty(),
                },
                check: match f.check {
                    Some(c) => if blank(c) {
                        None
                    } else {
                        Some(c)
                    },
                    None => None,
                },
            },
        ),
    }
}

/// The part of a reply from its first opening brace to its last closing brace, or what is wrong
/// with them: either is missing, or they are the wrong way round.
pub open spec fn object_text(text: Seq<char>) -> Result<Seq<char>, Fault> {
    match (text.index_of_first('{'), text.index_of_last('}')) {
        (Some(a), Some(b)) => if a <= b {
            Ok(text.subrange(a, b + 1))
        } else {
            Err(invalid("reply was not valid JSON"@))
        },
        _ => Err(invalid("no JSON object in reply"@)),
    }
}

/// The submission in a reply.
pub open spec fn submission(text: Seq<char>) -> Result<Submission, Fault> {
    match object_text(text) {
        Err(f) => Err(f),
        Ok(object) => match json_parse(object) {
            None => Err(invalid("reply was not valid JSON"@)),
            Some(j) => submitted(field_texts(j)),
        },
    }
}

/// The message in an envelope of the API.
pub open spec fn content_of(j: Json) -> Option<Seq<char>> {
    json_string(
        json_member(
            json_member(json_element(json_member(j, "choices"@), 0), "message"@),
            "content"@,
        ),
    )
}

/// The message in the envelope that `text` denotes.
pub open spec fn message(text: Seq<char>) -> Result<Seq<char>, Fault> {
    match json_parse(text) {
        None => Err(fault("HTTP_ERROR", "invalid JSON from API"@)),
        Some(j) => match content_of(j) {
            Some(s) => Ok(s),
            None => Err(fault("HTTP_ERROR", "API response missing message content"@)),
        },
    }
}

/// The text of a JSON string; nothing for any other value.
fn string_in(v: &serde_json::Value) -> (r: Option<String>)
    ensures
        text_if_any(r) == json_string(json_of(*v)),
{
    match v.as_str() {
        Some(s) => Some(s.to_string()),
        None => None,
    }
}

/// The strings that a submission is made of.
pub fn read_fields(v: &serde_json::Value) -> (r: Fields)
    ensures
        r@ == field_texts(json_of(*v)),
{
    let steps = match member(v, "steps").as_array() {
        Some(items) => {
            let mut out: Vec<Option<String>> = Vec::new();
            let mut i: usize = 0;
            while i < items.len()
                invariant
                    i <= items@.len(),
                    out@.len() == i,
                    forall|k: int|
                        0 <= k < i ==> text_if_any(#[trigger] out@[k]) == json_string(
                            json_of(items@[k]),
                        ),
                decreases items@.len() - i,
            {
                out.push(string_in(&items[i]));
                i = i + 1;
            }
            assert(texts_if_any(out@) =~= all_json(items@).map_values(|x: Json| json_string(x)));
            Some(out)
        },
        None => None,
    };
    Fields {
        program: string_in(member(v, "program")),
        steps,
        check: string_in(member(v, "check")),
    }
}

/// Makes a submission of the strings in a reply.
pub fn submit(fields: Fields) -> (r: Result<Parsed, SolverError>)
    ensures
        match r {
            Ok(p) => submitted(fields@) == Ok::<Submission, Fault>(p@),
            Err(e) => submitted(fields@) == Err::<Submission, Fault>(e@),
        },
{
    let program = match fields.program {
        Some(program) => program,
        None => return Err(SolverError::new("INVALID_JSON", "missing program")),
    };
    let check = match fields.check {
        Some(c) => if is_blank(chars_of(c.as_str()).as_slice()) {
            None
        } else {
            Some(c)
        },
        None => None,
    };
    let mut steps: Vec<String> = Vec::new();
    if let Some(items) = &fields.steps {
        let mut i: usize = 0;
        while i < items.len()
            invariant
                i <= items@.len(),
                steps@.len() == i,
                forall|k: int|
                    0 <= k < i ==> #[trigger] steps@[k]@ == (match text_if_any(items@[k]) {
                        Some(t) => t,
                        None => Seq::empty(),
                    }),
            decreases items@.len() - i,
        {
            match &items[i] {
                Some(s) => steps.push(s.clone()),
                None => steps.push(String::new()),
            }
            i = i + 1;
        }
    }
    let p = Parsed { program, steps, check };
    assert(p@.steps =~= submitted(fields@)->Ok_0.steps);
    Ok(p)
}

/// Reads the submission in a reply: the JSON object in it, whatever stands around.
pub fn parse_solver_json(text: &str) -> (r: Result<Parsed, SolverError>)
    ensures
        match r {
            Ok(p) => submission(text@) == Ok::<Submission, Fault>(p@),
            Err(e) => submission(text@) == Err::<Submission, Fault>(e@),
        },
{
    let chars = chars_of(text);
    let s = chars.as_slice();
    let (start, end) = match (find_first(s, '{'), find_last(s, '}')) {
        (Some(a), Some(b)) => (a, b),
        _ => return Err(SolverError::new("INVALID_JSON", "no JSON object in reply")),
    };
    if start > end {
        return Err(SolverError::new("INVALID_JSON", "reply was not valid JSON"));
    }
    let object = string_of(slice_subrange(s, start, end + 1));
    match parse_value(object.as_str()) {
        Ok(v) => submit(read_fields(&v)),
        Err(_) => Err(SolverError::new("INVALID_JSON", "reply was not valid JSON")),
    }
}

/// The message in an envelope of the API.
pub fn read_content(v: &serde_json::Value) -> (r: Option<String>)
    ensures
        text_if_any(r) == content_of(json_of(*v)),
{
    string_in(member(member(element(member(v, "choices"), 0), "message"), "content"))
}

/// Reads the message in a response of the API.
pub fn message_content(text: &str) -> (r: Result<String, SolverError>)
    ensures
        match r {
            Ok(s) => message(text@) == Ok::<Seq<char>, Fault>(s@),
            Err(e) => message(text@) == Err::<Seq<char>, Fault>(e@),
        },
{
    match parse_value(text) {
        Ok(v) => match read_content(&v) {
            Some(s) => Ok(s),
            None => Err(SolverError::new("HTTP_ERROR", "API response missing message content")),
        },
        Err(_) => Err(SolverError::new("HTTP_ERROR", "invalid JSON from API")),
    }
}

} // verus!
