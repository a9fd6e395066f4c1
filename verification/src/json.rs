//! JSON, by way of `serde_json`.
//!
//! A [`serde_json::Value`] is opaque to the verifier. Contracts speak of it through [`json_of`],
//! the JSON that it holds; the functions of this module that call `serde_json` say over that name
//! what they do, and are the only ones that are trusted to.
use vstd::prelude::*;

verus! {

/// A JSON value of `serde_json`.
#[verifier::external_type_specification]
#[verifier::external_body]
pub struct ExValue(serde_json::Value);

/// A JSON number of `serde_json`.
#[verifier::external_type_specification]
#[verifier::external_body]
pub struct ExNumber(serde_json::Number);

/// The error of `serde_json`.
#[verifier::external_type_specification]
#[verifier::external_body]
pub struct ExError(serde_json::Error);

/// JSON as contracts speak of it.
pub enum Json {
    Null,
    Bool(bool),
    Integer(int),
    Float(serde_json::Number),
    Text(Seq<char>),
    Array(Seq<Json>),
    Object(Map<Seq<char>, Json>),
}

/// What a value holds.
pub uninterp spec fn json_of(v: serde_json::Value) -> Json;

/// The JSON that a text denotes, if it denotes any.
pub uninterp spec fn json_parse(text: Seq<char>) -> Option<Json>;

/// The compact text of a JSON value, the members of objects in the order of their names.
pub uninterp spec fn json_text(j: Json) -> Seq<char>;

/// No floating-point number in it, and at most `depth` arrays and objects inside each other.
pub open spec fn plain(j: Json, depth: nat) -> bool
    decreases depth,
{
    match j {
        Json::Float(_) => false,
        Json::Array(items) => depth > 0 && forall|i: int|
            0 <= i < items.len() ==> plain(#[trigger] items[i], (depth - 1) as nat),
        Json::Object(members) => depth > 0 && forall|k: Seq<char>|
            members.contains_key(k) ==> plain(#[trigger] members[k], (depth - 1) as nat),
        _ => true,
    }
}

/// The member of an object, or null where `j` is no object or has no such member.
pub open spec fn json_member(j: Json, key: Seq<char>) -> Json {
    match j {
        Json::Object(members) => if members.contains_key(key) {
            members[key]
        } else {
            Json::Null
        },
        _ => Json::Null,
    }
}

/// The element of an array, or null where `j` is no array or has no such element.
pub open spec fn json_element(j: Json, i: int) -> Json {
    match j {
        Json::Array(items) => if 0 <= i < items.len() {
            items[i]
        } else {
            Json::Null
        },
        _ => Json::Null,
    }
}

/// The text of a JSON string; nothing for any other value.
pub open spec fn json_string(j: Json) -> Option<Seq<char>> {
    match j {
        Json::Text(s) => Some(s),
        _ => None,
    }
}

/// What the values hold, in order.
pub open spec fn all_json(items: Seq<serde_json::Value>) -> Seq<Json> {
    items.map_values(|v: serde_json::Value| json_of(v))
}

/// The members that a value has or, where it is null, can be given.
pub open spec fn members_of(j: Json) -> Option<Map<Seq<char>, Json>> {
    match j {
        Json::Object(members) => Some(members),
        Json::Null => Some(Map::empty()),
        _ => None,
    }
}

/// `serde_json::from_str` at `Value` reads a text as JSON. Which texts are JSON, and which value
/// each denotes, is named and not spelled out; the reader's limit on nesting counts among the
/// reasons to reject a text.
#[verifier::external_body]
pub(crate) fn parse_value(text: &str) -> (r: Result<serde_json::Value, serde_json::Error>)
    ensures
        match r {
            Ok(v) => json_parse(text@) == Some(json_of(v)),
            Err(_) => json_parse(text@) is None,
        },
{
    serde_json::from_str(text)
}

/// `Display` of `Value` writes the value as compact JSON. The text is named and not spelled out;
/// read again, it gives the same value back. Values with floating-point numbers, which may be
/// read back changed, and values nested deeper than the reader accepts are left out.
#[verifier::external_body]
pub(crate) fn value_text(v: &serde_json::Value) -> (r: String)
    requires
        plain(json_of(*v), 100),
    ensures
        r@ == json_text(json_of(*v)),
        json_parse(r@) == Some(json_of(*v)),
{
    v.to_string()
}

/// `Value::as_str` gives the text of a JSON string, and nothing for any other value.
pub assume_specification[ serde_json::Value::as_str ](v: &serde_json::Value) -> (r: Option<&str>)
    ensures
        match r {
            Some(s) => json_of(*v) == Json::Text(s@),
            None => !(json_of(*v) is Text),
        },
;

/// `Value::as_array` gives the elements of a JSON array, and nothing for any other value.
pub assume_specification[ serde_json::Value::as_array ](v: &serde_json::Value) -> (r: Option<
    &Vec<serde_json::Value>,
>)
    ensures
        match r {
            Some(items) => json_of(*v) == Json::Array(all_json(items@)),
            None => !(json_of(*v) is Array),
        },
;

/// Indexing a `Value` by a name gives the member of that name, and null where the value is no
/// object or has no such member.
#[verifier::external_body]
pub(crate) fn member<'a>(v: &'a serde_json::Value, key: &str) -> (r: &'a serde_json::Value)
    ensures
        json_of(*r) == json_member(json_of(*v), key@),
{
    &v[key]
}

/// Indexing a `Value` by a number gives the element at that place, and null where the value is no
/// array or has no such place.
#[verifier::external_body]
pub(crate) fn element<'a>(v: &'a serde_json::Value, i: usize) -> (r: &'a serde_json::Value)
    ensures
        json_of(*r) == json_element(json_of(*v), i as int),
{
    &v[i]
}

/// `Value::from` makes a JSON string of a string.
#[verifier::external_body]
pub(crate) fn text_value(s: &str) -> (r: serde_json::Value)
    ensures
        json_of(r) == Json::Text(s@),
{
    serde_json::Value::from(s)
}

/// `Value::from` makes a JSON number of an integer.
#[verifier::external_body]
pub(crate) fn integer_value(n: i64) -> (r: serde_json::Value)
    ensures
        json_of(r) == Json::Integer(n as int),
{
    serde_json::Value::from(n)
}

/// `Value::from` makes a JSON array of values.
#[verifier::external_body]
pub(crate) fn array_value(items: Vec<serde_json::Value>) -> (r: serde_json::Value)
    ensures
        json_of(r) == Json::Array(all_json(items@)),
{
    serde_json::Value::from(items)
}

/// The default of `Value` is null.
#[verifier::external_body]
pub(crate) fn null_value() -> (r: serde_json::Value)
    ensures
        json_of(r) == Json::Null,
{
    serde_json::Value::default()
}

/// Assigning to a `Value` indexed by a name sets the member of that name; null is taken for an
/// object without members. Any other value has no members to set, and is left out.
#[verifier::external_body]
pub(crate) fn set_member(v: &mut serde_json::Value, key: &str, x: serde_json::Value)
    requires
        members_of(json_of(*old(v))) is Some,
    ensures
        json_of(*final(v)) == Json::Object(
            members_of(json_of(*old(v))).unwrap().insert(key@, json_of(x)),
        ),
{
    v[key] = x;
}

} // verus!
