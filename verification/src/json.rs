//! JSON documents held as plain values, and the lookups a reader makes in
//! them.
use vstd::prelude::*;
use crate::text::{chars_of, is};

verus! {

/// A JSON document as plain values. A number keeps its value when it is a
/// whole number that fits in 64 unsigned bits, and nothing otherwise; an
/// object holds one member per key, in the order the reader's map walks
/// them (sorted by key).
#[derive(Debug)]
pub enum Json {
    Null,
    Bool(bool),
    Number(Option<u64>),
    Text(String),
    Array(Vec<Json>),
    Object(Vec<(String, Json)>),
}

#[verifier::external_type_specification]
#[verifier::external_body]
pub struct ExJsonValue(serde_json::Value);

/// The document `serde_json::from_str` reads from a text, or the message
/// of its error.
pub uninterp spec fn json_document(text: Seq<char>) -> Result<Json, Seq<char>>;

/// `serde_json::from_str` into a `serde_json::Value`, held as plain values.
/// The contract names the result and claims no more: the same text gives
/// the same document, or the same error message.
#[verifier::external_body]
pub(crate) fn read_json(text: &str) -> (r: Result<Json, String>)
    ensures
        match r {
            Ok(j) => json_document(text@) == Ok::<Json, Seq<char>>(j),
            Err(m) => json_document(text@) == Err::<Json, Seq<char>>(m@),
        },
{
    match serde_json::from_str::<serde_json::Value>(text) {
        Ok(value) => Ok(json_of(value)),
        Err(error) => Err(error.to_string()),
    }
}

/// Changes a `serde_json::Value` into plain values, variant for variant;
/// a number keeps what `serde_json::Number::as_u64` gives. Only
/// `read_json` calls it.
#[verifier::external_body]
fn json_of(value: serde_json::Value) -> Json {
    match value {
        serde_json::Value::Null => Json::Null,
        serde_json::Value::Bool(b) => Json::Bool(b),
        serde_json::Value::Number(n) => Json::Number(n.as_u64()),
        serde_json::Value::String(s) => Json::Text(s),
        serde_json::Value::Array(items) => Json::Array(items.into_iter().map(json_of).collect()),
        serde_json::Value::Object(members) => Json::Object(
            members.into_iter().map(|(key, item)| (key, json_of(item))).collect(),
        ),
    }
}

/// The value of the first member named `key`, from the `i`-th member on.
pub open spec fn member_from(members: Seq<(String, Json)>, key: Seq<char>, i: int) -> Option<Json>
    decreases members.len() - i,
{
    if i < 0 || i >= members.len() {
        None
    } else if members[i].0@ == key {
        Some(members[i].1)
    } else {
        member_from(members, key, i + 1)
    }
}

/// The member `key` of an object; nothing of any other value.
pub open spec fn field(j: Json, key: Seq<char>) -> Option<Json> {
    match j {
        Json::Object(members) => member_from(members@, key, 0),
        _ => None,
    }
}

/// The text a value holds, if it is text.
pub open spec fn text_in(j: Option<Json>) -> Option<Seq<char>> {
    match j {
        Some(Json::Text(s)) => Some(s@),
        _ => None,
    }
}

/// The items a value holds, if it is an array.
pub open spec fn array_in(j: Option<Json>) -> Option<Seq<Json>> {
    match j {
        Some(Json::Array(items)) => Some(items@),
        _ => None,
    }
}

/// The member `key` of an object.
pub fn get<'a>(j: &'a Json, key: &str) -> (r: Option<&'a Json>)
    ensures
        match r {
            Some(x) => field(*j, key@) == Some(*x),
            None => field(*j, key@) is None,
        },
{
    match j {
        Json::Object(members) => {
            assert(field(*j, key@) == member_from(members@, key@, 0));
            let mut i: usize = 0;
            while i < members.len()
                invariant
                    i <= members@.len(),
                    field(*j, key@) == member_from(members@, key@, i as int),
                decreases members@.len() - i,
            {
                let member = &members[i];
                let name = chars_of(member.0.as_str());
                if is(name.as_slice(), key) {
                    assert(member.0@ == key@);
                    assert(member_from(members@, key@, i as int) == Some(member.1));
                    return Some(&member.1);
                }
                i = i + 1;
            }
            None
        },
        _ => None,
    }
}

} // verus!
