//! The parts of `serde_json` that the store calls, with what the crate's
//! source shows of each. Nothing in this module is proved: every item here is
//! trusted, and each doc comment says what it claims.
//!
//! Two JSON values, or two maps, count as the same value where they hold the
//! same contents (as `Value`'s and `Map`'s `==` compare them); the spare
//! capacity of the strings, vectors and trees inside them is not modelled,
//! as vstd does not model it for `String::clone`.

use vstd::prelude::*;
use serde_json::Value;
use std::time::Duration;

verus! {

/// `serde_json::Value`, an opaque JSON document that the store carries.
#[verifier::external_type_specification]
#[verifier::external_body]
pub struct ExJsonValue(serde_json::Value);

/// `serde_json::Map`, the string-keyed map inside a JSON object.
#[verifier::external_type_specification]
#[verifier::external_body]
#[verifier::reject_recursive_types(K)]
#[verifier::reject_recursive_types(V)]
pub struct ExJsonMap<K, V>(serde_json::Map<K, V>);

/// The map type of a JSON object.
pub type JsonObject = serde_json::Map<String, Value>;

/// What `Value::as_object` finds: the map of an object, `None` for any other value.
pub uninterp spec fn json_as_object(v: Value) -> Option<JsonObject>;

/// What a `serde_json::Map` holds: its keys, by their characters, and their values.
pub uninterp spec fn json_object_fields(m: JsonObject) -> Map<Seq<char>, Value>;

/// What `Value::as_str` finds: the characters of a string, `None` for any other value.
pub uninterp spec fn json_as_str(v: Value) -> Option<Seq<char>>;

/// What `Value::as_array` finds: the items of an array, `None` for any other value.
pub uninterp spec fn json_as_array(v: Value) -> Option<Seq<Value>>;

/// What `Value::as_u64` finds: a number that is a non-negative integer, `None` otherwise.
pub uninterp spec fn json_as_u64(v: Value) -> Option<u64>;

/// What `Value::as_f64` followed by `Duration::try_from_secs_f64` finds: the
/// duration of a number read as seconds; `None` for a value that is no number,
/// and for a number of seconds that is negative or too large for a `Duration`.
pub uninterp spec fn json_as_duration(v: Value) -> Option<Duration>;

/// What `Value::from` makes of `Duration::from_micros(n).as_secs_f64()`: a JSON
/// number holding `n` microseconds as seconds.
pub uninterp spec fn json_seconds_of_micros(n: u64) -> Value;

/// What `Value::is_null` answers: whether the value is JSON `null`.
pub uninterp spec fn json_is_null(v: Value) -> bool;

/// Calls `Value::as_object`. Claims: the result is the map that `json_as_object` names.
#[verifier::external_body]
pub(crate) fn value_as_object(v: &Value) -> (r: Option<&JsonObject>)
    ensures
        match r {
            Some(m) => json_as_object(*v) == Some(*m),
            None => json_as_object(*v) is None,
        },
{
    v.as_object()
}

/// Calls `serde_json::Map::get` with a `str` key. Claims: the result is the value
/// that the map holds under the key's characters, `None` where it holds none.
#[verifier::external_body]
pub(crate) fn object_get<'a>(m: &'a JsonObject, key: &str) -> (r: Option<&'a Value>)
    ensures
        match r {
            Some(x) => json_object_fields(*m).contains_key(key@) && json_object_fields(*m)[key@] == *x,
            None => !json_object_fields(*m).contains_key(key@),
        },
{
    m.get(key)
}

/// Calls `Value::as_str`. Claims: the result holds the characters that `json_as_str` names.
#[verifier::external_body]
pub(crate) fn value_as_str(v: &Value) -> (r: Option<&str>)
    ensures
        match r {
            Some(s) => json_as_str(*v) == Some(s@),
            None => json_as_str(*v) is None,
        },
{
    v.as_str()
}

/// Calls `Value::as_array`. Claims: the result holds the items that `json_as_array` names.
#[verifier::external_body]
pub(crate) fn value_as_array(v: &Value) -> (r: Option<&Vec<Value>>)
    ensures
        match r {
            Some(a) => json_as_array(*v) == Some(a@),
            None => json_as_array(*v) is None,
        },
{
    v.as_array()
}

/// Calls `Value::as_u64`. Claims: the result is what `json_as_u64` names.
#[verifier::external_body]
pub(crate) fn value_as_u64(v: &Value) -> (r: Option<u64>)
    ensures
        r == json_as_u64(*v),
{
    v.as_u64()
}

/// Calls `Value::as_f64` and passes a number it finds to
/// `Duration::try_from_secs_f64`, turning an error into `None`. Claims: the result
/// is what `json_as_duration` names.
#[verifier::external_body]
pub(crate) fn value_as_duration(v: &Value) -> (r: Option<Duration>)
    ensures
        r == json_as_duration(*v),
{
    v.as_f64().and_then(|secs| Duration::try_from_secs_f64(secs).ok())
}

/// Calls `Duration::from_micros`, `Duration::as_secs_f64` on the duration and
/// `Value::from` on the seconds. Claims: the result is what
/// `json_seconds_of_micros` names, and it reads back as some duration: the
/// seconds of a `u64` of microseconds are finite, not negative and below the
/// largest `Duration`, so `Value::from` makes a number of them, `as_f64` finds
/// it, and `try_from_secs_f64` accepts it.
#[verifier::external_body]
pub(crate) fn value_from_micros(n: u64) -> (r: Value)
    ensures
        r == json_seconds_of_micros(n),
        json_as_duration(r) is Some,
{
    Value::from(Duration::from_micros(n).as_secs_f64())
}

/// `Value::clone` (derived). Claims: the copy equals the original, as the
/// derived `Clone` copies every variant and field.
pub assume_specification[ <serde_json::Value as Clone>::clone ](v: &Value) -> (r: Value)
    ensures
        r == *v,
;

/// Builds `Value::Null`. Claims: `is_null` holds of it, and of no other value
/// (`is_null` matches the variant `Null` alone, which holds no data).
#[verifier::external_body]
pub(crate) fn value_null() -> (r: Value)
    ensures
        json_is_null(r),
        forall|m: Value| json_is_null(m) ==> m == r,
{
    Value::Null
}

/// Calls `Value::from` on a `String` (it makes `Value::String`). Claims:
/// `as_str` then finds the same characters, `as_object` and `as_array` find
/// nothing, and every value in which `as_str` finds those characters is this one
/// (`as_str` answers for the variant `String` alone).
#[verifier::external_body]
pub(crate) fn value_from_string(s: String) -> (r: Value)
    ensures
        json_as_str(r) == Some(s@),
        json_as_object(r) is None,
        json_as_array(r) is None,
        forall|w: Value| json_as_str(w) == Some(s@) ==> w == r,
{
    Value::from(s)
}

/// Calls `Value::from` on a `u64` (it makes a number held as `PosInt`).
/// Claims: `as_u64` then finds the same number, `as_object`, `as_array` and
/// `as_str` find nothing, and every value in which `as_u64` finds that number is
/// this one (`as_u64` answers for a `PosInt` number alone).
#[verifier::external_body]
pub(crate) fn value_from_u64(n: u64) -> (r: Value)
    ensures
        json_as_u64(r) == Some(n),
        json_as_object(r) is None,
        json_as_array(r) is None,
        json_as_str(r) is None,
        forall|w: Value| json_as_u64(w) == Some(n) ==> w == r,
{
    Value::from(n)
}

/// Calls `Value::from` on a `Vec<Value>` (it makes `Value::Array` of the same
/// items). Claims: `as_array` then finds the same items in the same order,
/// `as_object` and `as_str` find nothing, and every value in which `as_array`
/// finds those items is this one (`as_array` answers for the variant `Array` alone).
#[verifier::external_body]
pub(crate) fn value_from_items(items: Vec<Value>) -> (r: Value)
    ensures
        json_as_array(r) == Some(items@),
        json_as_object(r) is None,
        json_as_str(r) is None,
        forall|w: Value| json_as_array(w) == Some(items@) ==> w == r,
{
    Value::from(items)
}

/// Calls `Value::from` on a `serde_json::Map` (it makes `Value::Object`).
/// Claims: `as_object` then finds that map, `as_array` and `as_str` find
/// nothing, and every value in which `as_object` finds that map is this one
/// (`as_object` answers for the variant `Object` alone).
#[verifier::external_body]
pub(crate) fn value_from_object(m: JsonObject) -> (r: Value)
    ensures
        json_as_object(r) == Some(m),
        json_as_array(r) is None,
        json_as_str(r) is None,
        forall|w: Value| json_as_object(w) == Some(m) ==> w == r,
{
    Value::from(m)
}

/// Calls `serde_json::Map::new`. Claims: the new map holds nothing, and it is
/// the only map that holds nothing (a map is its ordered key-value pairs).
#[verifier::external_body]
pub(crate) fn object_new() -> (r: JsonObject)
    ensures
        json_object_fields(r) =~= Map::empty(),
        forall|o: JsonObject| #[trigger] json_object_fields(o) == json_object_fields(r) ==> o == r,
{
    serde_json::Map::new()
}

/// Calls `serde_json::Map::insert`. Claims: afterwards the map holds `v` under
/// the characters of `k`, and is otherwise unchanged; and every map that holds
/// the same keys and values is this map (a map is its ordered key-value pairs).
#[verifier::external_body]
pub(crate) fn object_insert(m: &mut JsonObject, k: String, v: Value)
    ensures
        json_object_fields(*final(m)) =~= json_object_fields(*old(m)).insert(k@, v),
        forall|o: JsonObject| #[trigger] json_object_fields(o) == json_object_fields(*final(m)) ==> o == *final(m),
{
    m.insert(k, v);
}

} // verus!
