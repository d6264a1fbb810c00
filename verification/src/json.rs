//! JSON documents: reading them, picking values out of them, and writing the
//! small objects that commands are.

use vstd::prelude::*;

use serde_json::Value;

use crate::text::decimal_int;

verus! {

#[verifier::external_type_specification]
#[verifier::external_body]
pub struct ExValue(Value);

/// What a JSON value is. A number is kept as the integer that it is, where
/// it is one that fits, and as the text that it is written as.
pub enum Json {
    Null,
    Bool(bool),
    Number { integer: Option<i64>, text: Seq<char> },
    Text(Seq<char>),
    Array(Seq<Json>),
    Object(Map<Seq<char>, Json>),
}

impl Json {
    /// The value under `key`, if this is an object that has one.
    pub open spec fn field(self, key: Seq<char>) -> Option<Json> {
        match self {
            Json::Object(m) => if m.contains_key(key) {
                Some(m[key])
            } else {
                None
            },
            _ => None,
        }
    }

    /// The text, if this is one.
    pub open spec fn text(self) -> Option<Seq<char>> {
        match self {
            Json::Text(s) => Some(s),
            _ => None,
        }
    }

    /// The integer, if this is one that fits.
    pub open spec fn integer(self) -> Option<i64> {
        match self {
            Json::Number { integer, .. } => integer,
            _ => None,
        }
    }

    /// The elements, if this is an array.
    pub open spec fn array(self) -> Option<Seq<Json>> {
        match self {
            Json::Array(items) => Some(items),
            _ => None,
        }
    }

    /// The text under `key`, if there is one.
    pub open spec fn text_field(self, key: Seq<char>) -> Option<Seq<char>> {
        match self.field(key) {
            Some(v) => v.text(),
            None => None,
        }
    }

    /// The integer under `key`, if there is one.
    pub open spec fn int_field(self, key: Seq<char>) -> Option<i64> {
        match self.field(key) {
            Some(v) => v.integer(),
            None => None,
        }
    }
}

/// A number of a document that is the integer `n`.
pub open spec fn json_int(n: i64) -> Json {
    Json::Number { integer: Some(n), text: decimal_int(n as int) }
}

/// What a value holds.
pub uninterp spec fn json_of(v: Value) -> Json;

/// What a list of values holds.
pub open spec fn jsons(v: Seq<Value>) -> Seq<Json> {
    v.map_values(|x: Value| json_of(x))
}

/// What reading bytes as one JSON document gives: the value, or the text of
/// the error.
pub uninterp spec fn json_document(bytes: Seq<u8>) -> Result<Json, Seq<char>>;

/// What reading a text as a JSON array gives, if it is one.
pub uninterp spec fn json_list(text: Seq<char>) -> Option<Seq<Json>>;

/// What writing a JSON array gives: its bytes, or the text of the error.
pub uninterp spec fn json_bytes(items: Seq<Json>) -> Result<Seq<u8>, Seq<char>>;

/// Wraps `serde_json::from_slice` into a `Value`: a name stands for the
/// value that the bytes spell, or for the text of the error.
#[verifier::external_body]
pub(crate) fn read_document(bytes: &[u8]) -> (r: Result<Value, String>)
    ensures
        match r {
            Ok(v) => json_document(bytes@) == Ok::<Json, Seq<char>>(json_of(v)),
            Err(e) => json_document(bytes@) == Err::<Json, Seq<char>>(e@),
        },
{
    serde_json::from_slice(bytes).map_err(|e| e.to_string())
}

/// Wraps `serde_json::from_str` into a `Vec<Value>`: a name stands for the
/// elements that the text spells, if it spells an array.
#[verifier::external_body]
pub(crate) fn read_list(text: &str) -> (r: Option<Vec<Value>>)
    ensures
        match r {
            Some(v) => json_list(text@) == Some(jsons(v@)),
            None => json_list(text@) is None,
        },
{
    serde_json::from_str(text).ok()
}

/// Wraps `serde_json::to_vec` on an array of one value: a name stands for
/// the bytes.
#[verifier::external_body]
pub(crate) fn write_single(item: &Value) -> (r: Result<Vec<u8>, String>)
    ensures
        match r {
            Ok(v) => json_bytes(seq![json_of(*item)]) == Ok::<Seq<u8>, Seq<char>>(v@),
            Err(e) => json_bytes(seq![json_of(*item)]) == Err::<Seq<u8>, Seq<char>>(e@),
        },
{
    serde_json::to_vec(&[item]).map_err(|e| e.to_string())
}

/// Wraps `Value::get` with a text for its index: the value under that key,
/// if this is an object that has one.
#[verifier::external_body]
pub(crate) fn field<'a>(v: &'a Value, key: &str) -> (r: Option<&'a Value>)
    ensures
        match r {
            Some(x) => json_of(*v).field(key@) == Some(json_of(*x)),
            None => json_of(*v).field(key@) is None,
        },
{
    v.get(key)
}

/// Wraps `Value::as_str`: the text, if this is one.
#[verifier::external_body]
pub(crate) fn as_text(v: &Value) -> (r: Option<&str>)
    ensures
        match r {
            Some(s) => json_of(*v).text() == Some(s@),
            None => json_of(*v).text() is None,
        },
{
    v.as_str()
}

/// Wraps `Value::as_i64`: the integer, if this is one that fits.
#[verifier::external_body]
pub(crate) fn as_int(v: &Value) -> (r: Option<i64>)
    ensures
        r == json_of(*v).integer(),
{
    v.as_i64()
}

/// Wraps `Value::as_array`: the elements, if this is an array.
#[verifier::external_body]
pub(crate) fn as_list(v: &Value) -> (r: Option<&Vec<Value>>)
    ensures
        match r {
            Some(items) => json_of(*v).array() == Some(jsons(items@)),
            None => json_of(*v).array() is None,
        },
{
    v.as_array()
}

/// Wraps `Value::from` on a text.
#[verifier::external_body]
pub(crate) fn text_value(s: &str) -> (v: Value)
    ensures
        json_of(v) == Json::Text(s@),
{
    Value::from(s)
}

/// Wraps `Value::from` on an integer.
#[verifier::external_body]
pub(crate) fn int_value(n: i64) -> (v: Value)
    ensures
        json_of(v) == json_int(n),
{
    Value::from(n)
}

/// Wraps `serde_json::Map::new`, as a value: an object without keys.
#[verifier::external_body]
pub(crate) fn empty_object() -> (v: Value)
    ensures
        json_of(v) == Json::Object(Map::empty()),
{
    Value::Object(serde_json::Map::new())
}

/// Wraps the assignment through `Value`'s `IndexMut` with a text for its
/// index, which sets one key of an object. It panics on most values that are
/// no objects.
#[verifier::external_body]
pub(crate) fn set_field(v: &mut Value, key: &str, item: Value)
    requires
        json_of(*old(v)) is Object,
    ensures
        json_of(*final(v)) == Json::Object((json_of(*old(v))->Object_0).insert(key@, json_of(item))),
{
    v[key] = item;
}

/// The text under `key`, if there is one.
pub fn text_field<'a>(v: &'a Value, key: &str) -> (r: Option<&'a str>)
    ensures
        match r {
            Some(s) => json_of(*v).text_field(key@) == Some(s@),
            None => json_of(*v).text_field(key@) is None,
        },
{
    match field(v, key) {
        Some(x) => as_text(x),
        None => None,
    }
}

/// The integer under `key`, if there is one.
pub fn int_field(v: &Value, key: &str) -> (r: Option<i64>)
    ensures
        r == json_of(*v).int_field(key@),
{
    match field(v, key) {
        Some(x) => as_int(x),
        None => None,
    }
}

} // verus!
