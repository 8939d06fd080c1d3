//! The serde_json calls the library makes, one trusted item each. A JSON
//! value is carried as serde_json's own `Value`, opaque to the proofs; what a
//! call gives is named after the call.

use vstd::prelude::*;

use serde_json::Value;

verus! {

/// `serde_json::Value`, carried through without looking inside.
#[verifier::external_type_specification]
#[verifier::external_body]
pub struct ExValue(serde_json::Value);

/// What `serde_json::from_str::<Value>` gives for `text`, nothing when the
/// text is not JSON.
pub uninterp spec fn json_from_str(text: Seq<char>) -> Option<Value>;

/// What `value[key]` gives: the member `key` of an object, null otherwise.
pub uninterp spec fn json_index(value: Value, key: Seq<char>) -> Value;

/// What `Value::as_array` gives: the elements of an array, nothing for any
/// other value.
pub uninterp spec fn json_array(value: Value) -> Option<Seq<Value>>;

/// The text `Value`'s `Display` writes for `value`.
pub uninterp spec fn json_text(value: Value) -> Seq<char>;

/// `serde_json::from_str::<Value>`, its error dropped. Stated: the result is
/// the name `json_from_str` of the text.
#[verifier::external_body]
pub(crate) fn parse_json(text: &str) -> (r: Option<Value>)
    ensures
        r == json_from_str(text@),
{
    serde_json::from_str::<Value>(text).ok()
}

/// `Index<&str>` of `Value`, which gives null rather than panicking on a
/// missing member or a value that is no object. Stated: the result is the
/// name `json_index` of the value and the key.
#[verifier::external_body]
pub(crate) fn json_get<'a>(value: &'a Value, key: &str) -> (r: &'a Value)
    ensures
        *r == json_index(*value, key@),
{
    &value[key]
}

/// `Value::as_array`. Stated: the elements are the name `json_array` of the
/// value, `None` exactly when that name gives nothing.
#[verifier::external_body]
pub(crate) fn json_as_array(value: &Value) -> (r: Option<&Vec<Value>>)
    ensures
        match r {
            Some(a) => json_array(*value) == Some(a@),
            None => json_array(*value) is None,
        },
{
    value.as_array()
}

/// `Value`'s `Display`, through `to_string`. Stated: the text is the name
/// `json_text` of the value.
#[verifier::external_body]
pub(crate) fn json_to_text(value: &Value) -> (r: String)
    ensures
        r@ == json_text(*value),
{
    value.to_string()
}

} // verus!
