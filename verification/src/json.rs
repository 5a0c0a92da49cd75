//! JSON values as `serde_json` holds them, and what the library reads of
//! them.

use vstd::prelude::*;

verus! {

/// A JSON value of `serde_json`.
#[verifier::external_type_specification]
#[verifier::external_body]
pub struct ExValue(serde_json::Value);

/// What a JSON value holds.
pub enum Json {
    Null,
    Bool(bool),
    /// A number, with its value if it is a whole number that fits in 64
    /// bits with a sign.
    Number(Option<i64>),
    Text(Seq<char>),
    List(Seq<Json>),
    Object(Map<Seq<char>, Json>),
}

/// What the JSON value `v` holds.
pub uninterp spec fn json_of(v: serde_json::Value) -> Json;

/// The JSON value that a text is parsed to, if it is JSON.
pub uninterp spec fn parsed_json(text: Seq<char>) -> Option<serde_json::Value>;

/// The member `key` of an object; none for a value that is no object or
/// has no such member.
pub open spec fn member(j: Json, key: Seq<char>) -> Option<Json> {
    match j {
        Json::Object(m) => if m.contains_key(key) {
            Some(m[key])
        } else {
            None
        },
        _ => None,
    }
}

/// The text of a string value.
pub open spec fn as_text(j: Json) -> Option<Seq<char>> {
    match j {
        Json::Text(t) => Some(t),
        _ => None,
    }
}

/// The value of a whole number.
pub open spec fn as_whole(j: Json) -> Option<i64> {
    match j {
        Json::Number(n) => n,
        _ => None,
    }
}

/// The items of an array.
pub open spec fn as_list(j: Json) -> Option<Seq<Json>> {
    match j {
        Json::List(items) => Some(items),
        _ => None,
    }
}

/// What the values of `items` hold.
pub open spec fn jsons_of(items: Seq<serde_json::Value>) -> Seq<Json> {
    items.map_values(|v: serde_json::Value| json_of(v))
}

/// `serde_json::from_str` gives, for a text, always the same value or an
/// error.
#[verifier::external_body]
pub(crate) fn json_parse(text: &str) -> (r: Result<serde_json::Value, String>)
    ensures
        match r {
            Ok(v) => parsed_json(text@) == Some(v),
            Err(_) => parsed_json(text@) is None,
        },
{
    serde_json::from_str::<serde_json::Value>(text).map_err(|e| e.to_string())
}

/// `Value::get` with a text key gives the member of an object, and none
/// for any other value.
#[verifier::external_body]
pub(crate) fn json_get<'a>(v: &'a serde_json::Value, key: &str) -> (r: Option<
    &'a serde_json::Value,
>)
    ensures
        match member(json_of(*v), key@) {
            Some(x) => r matches Some(y) && json_of(*y) == x,
            None => r is None,
        },
{
    v.get(key)
}

/// `Value::as_str` gives the text of a string value, and none for any
/// other value.
#[verifier::external_body]
pub(crate) fn json_as_str(v: &serde_json::Value) -> (r: Option<String>)
    ensures
        crate::pathkey::opt_view(r) == as_text(json_of(*v)),
{
    v.as_str().map(|s| s.to_string())
}

/// `Value::as_i64` gives the value of a whole number that fits, and none
/// for any other value.
#[verifier::external_body]
pub(crate) fn json_as_i64(v: &serde_json::Value) -> (r: Option<i64>)
    ensures
        r == as_whole(json_of(*v)),
{
    v.as_i64()
}

/// `Value::as_array` gives the items of an array, and none for any other
/// value.
#[verifier::external_body]
pub(crate) fn json_as_array<'a>(v: &'a serde_json::Value) -> (r: Option<
    &'a Vec<serde_json::Value>,
>)
    ensures
        match as_list(json_of(*v)) {
            Some(items) => r matches Some(list) && jsons_of(list@) == items,
            None => r is None,
        },
{
    v.as_array()
}

/// `Value::is_object` tells whether a value is an object.
#[verifier::external_body]
pub(crate) fn json_is_object(v: &serde_json::Value) -> (r: bool)
    ensures
        r == (json_of(*v) is Object),
{
    v.is_object()
}

} // verus!
