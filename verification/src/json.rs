//! JSON values as parsed by `serde_json`, and what the library reads of them.
use vstd::prelude::*;

verus! {

#[verifier::external_type_specification]
#[verifier::external_body]
pub struct ExJsonValue(serde_json::Value);

/// A JSON value as data.  A number is an `Integer` when `serde_json` keeps
/// it as one (an unsigned or a negative integer within the `u64` or `i64`
/// range), and a `Float` when it keeps it as a floating-point number (a
/// fraction, an exponent, `-0`, or an integer out of range).
pub enum JsonView {
    Null,
    Bool(bool),
    Integer(int),
    Float,
    Str(Seq<char>),
    Array(Seq<JsonView>),
    Object(Map<Seq<char>, JsonView>),
}

/// What a `serde_json::Value` holds.
pub uninterp spec fn json_contents(v: serde_json::Value) -> JsonView;

/// The items of the JSON array that `serde_json::from_str` reads from
/// `text`; `None` when the text is not a JSON array (or not JSON at all).
pub uninterp spec fn json_array_items(text: Seq<char>) -> Option<Seq<JsonView>>;

/// Calls `serde_json::from_str::<Vec<serde_json::Value>>`.  Claimed: it
/// succeeds exactly when the named result has items, and then yields values
/// holding those items in order.
#[verifier::external_body]
pub(crate) fn parse_json_array(text: &str) -> (r: Option<Vec<serde_json::Value>>)
    ensures
        r is Some <==> json_array_items(text@) is Some,
        r matches Some(v) ==> v@.len() == json_array_items(text@)->0.len() && forall|i: int|
            0 <= i < v@.len() ==> json_contents(#[trigger] v@[i]) == json_array_items(text@)->0[i],
{
    serde_json::from_str::<Vec<serde_json::Value>>(text).ok()
}

/// Calls `serde_json::Value::get` with a string key.  Claimed, as its
/// documentation says: on an object, the value under the key when the key
/// is there; on anything else, `None`.
#[verifier::external_body]
pub(crate) fn json_get<'a>(v: &'a serde_json::Value, key: &str) -> (r: Option<&'a serde_json::Value>)
    ensures
        match json_contents(*v) {
            JsonView::Object(m) => match r {
                Some(x) => m.contains_key(key@) && json_contents(*x) == m[key@],
                None => !m.contains_key(key@),
            },
            _ => r is None,
        },
{
    v.get(key)
}

/// Calls `serde_json::Value::as_str`.  Claimed: the string when the value
/// is a string, `None` otherwise.
#[verifier::external_body]
pub(crate) fn json_as_str(v: &serde_json::Value) -> (r: Option<&str>)
    ensures
        match json_contents(*v) {
            JsonView::Str(s) => r matches Some(t) && t@ == s,
            _ => r is None,
        },
{
    v.as_str()
}

/// Calls `serde_json::Value::as_i64`.  Claimed: the number when the value
/// is an integer that fits in `i64`, `None` otherwise.
#[verifier::external_body]
pub(crate) fn json_as_i64(v: &serde_json::Value) -> (r: Option<i64>)
    ensures
        match json_contents(*v) {
            JsonView::Integer(n) => if i64::MIN <= n <= i64::MAX {
                r == Some(n as i64)
            } else {
                r is None
            },
            _ => r is None,
        },
{
    v.as_i64()
}

} // verus!
