//! JSON values as the library reads them.

use serde_json::Value;
use vstd::prelude::*;

verus! {

/// `serde_json::Value`. What a value holds is named by [`json_model`].
#[verifier::external_type_specification]
#[verifier::external_body]
pub struct ExValue(Value);

/// What a JSON value holds, as far as the library reads it.
pub enum Json {
    /// An object, by its members.
    Object(Map<Seq<char>, Json>),
    /// A string.
    Text(Seq<char>),
    /// A number that is an integer of 64 bits with a sign.
    Integer(i64),
    /// Anything else: null, a truth value, a list, any other number.
    Other,
}

/// What the value `v` holds.
pub uninterp spec fn json_model(v: Value) -> Json;

/// The document that `serde_json::from_slice` reads from `bytes`, if they are one.
pub uninterp spec fn json_document(bytes: Seq<u8>) -> Option<Json>;

impl Json {
    /// The member `key` of an object.
    pub open spec fn member(self, key: Seq<char>) -> Option<Json> {
        match self {
            Json::Object(members) => if members.contains_key(key) {
                Some(members[key])
            } else {
                None
            },
            _ => None,
        }
    }

    /// The value of an integer.
    pub open spec fn integer(self) -> Option<i64> {
        match self {
            Json::Integer(i) => Some(i),
            _ => None,
        }
    }

    /// The text of a string.
    pub open spec fn text(self) -> Option<Seq<char>> {
        match self {
            Json::Text(t) => Some(t),
            _ => None,
        }
    }
}

/// Calls `serde_json::from_slice::<Value>`: the document that the bytes hold, or
/// `None` where it reports an error. Which bytes are a document, and what it holds,
/// is named by [`json_document`].
#[verifier::external_body]
pub(crate) fn parse_json(bytes: &[u8]) -> (r: Option<Value>)
    ensures
        match r {
            Some(v) => json_document(bytes@) == Some(json_model(v)),
            None => json_document(bytes@) is None,
        },
{
    serde_json::from_slice::<Value>(bytes).ok()
}

/// Calls `serde_json::Value::get` with a string: the member of that name where the
/// value is an object that has it, and `None` for everything else.
#[verifier::external_body]
pub(crate) fn json_get<'a>(v: &'a Value, key: &str) -> (r: Option<&'a Value>)
    ensures
        match r {
            Some(m) => json_model(*v).member(key@) == Some(json_model(*m)),
            None => json_model(*v).member(key@) is None,
        },
{
    v.get(key)
}

/// Calls `serde_json::Value::as_i64`: the number where the value is an integer that
/// an `i64` holds, and `None` for everything else.
#[verifier::external_body]
pub(crate) fn json_i64(v: &Value) -> (r: Option<i64>)
    ensures
        r == json_model(*v).integer(),
{
    v.as_i64()
}

/// Calls `serde_json::Value::as_str`: the text where the value is a string, and
/// `None` for everything else.
#[verifier::external_body]
pub(crate) fn json_str<'a>(v: &'a Value) -> (r: Option<&'a str>)
    ensures
        match r {
            Some(t) => json_model(*v).text() == Some(t@),
            None => json_model(*v).text() is None,
        },
{
    v.as_str()
}

/// Calls `serde_json::Map::new`: an object with no members.
#[verifier::external_body]
pub(crate) fn json_empty() -> (r: Value)
    ensures
        json_model(r) == Json::Object(Map::empty()),
{
    Value::Object(serde_json::Map::new())
}

/// A member is found by its name in an object and nowhere else, a text in a string alone,
/// and an integer in an integer alone.
pub proof fn each_kind_of_value_is_read_as_itself(value: Json, key: Seq<char>)
    ensures
        value matches Json::Object(members) ==> (value.member(key) is Some <==> members.dom().contains(
            key,
        )) && (members.dom().contains(key) ==> value.member(key)->0 == members[key]),
        !(value is Object) ==> value.member(key) is None,
        value.text() is Some <==> value is Text,
        value matches Json::Text(text) ==> value.text()->0 == text,
        value.integer() is Some <==> value is Integer,
        value matches Json::Integer(n) ==> value.integer()->0 == n,
{
}

} // verus!
