//! The JSON reader that records are decoded with.
//!
//! Nothing in this file is proved: the contracts below describe `serde_json`
//! and are taken on trust by the rest of the library.
use serde_json::Value;
use vstd::prelude::*;

verus! {

/// `serde_json::Value`, a JSON document or a part of one. Nothing inside it
/// is visible here: it is read through the functions below.
#[verifier::external_type_specification]
#[verifier::external_body]
pub struct ExValue(serde_json::Value);

/// `serde_json::Error`, which says why a text is no JSON document.
#[verifier::external_type_specification]
#[verifier::external_body]
pub struct ExJsonError(serde_json::Error);

/// The document that `serde_json::from_str` reads from `text`, or `None` where
/// it reports an error.
pub uninterp spec fn document_of(text: Seq<char>) -> Option<Value>;

/// The value that `Value::get` finds under `key` in `doc`.
pub uninterp spec fn member_of(doc: Value, key: Seq<char>) -> Option<Value>;

/// The text that `Value::as_str` reads from `value`.
pub uninterp spec fn text_of(value: Value) -> Option<Seq<char>>;

/// The integer that `Value::as_i64` reads from `value`.
pub uninterp spec fn integer_of(value: Value) -> Option<i64>;

/// Calls `serde_json::from_str` for a `Value`. The contract only names the
/// outcome: the same text always reads as the same document, or always fails.
#[verifier::external_body]
pub(crate) fn parse_document(text: &str) -> (r: Result<Value, serde_json::Error>)
    ensures
        r is Ok <==> document_of(text@) is Some,
        r matches Ok(doc) ==> document_of(text@) == Some(doc),
{
    serde_json::from_str::<Value>(text)
}

/// Calls `Value::get` with a string key, which looks the key up where the
/// value is an object and gives `None` otherwise. The contract names the
/// outcome.
#[verifier::external_body]
pub(crate) fn member<'a>(doc: &'a Value, key: &str) -> (r: Option<&'a Value>)
    ensures
        r is Some <==> member_of(*doc, key@) is Some,
        r matches Some(value) ==> member_of(*doc, key@) == Some(*value),
{
    doc.get(key)
}

/// Calls `Value::as_str`, which gives the text of a JSON string and `None` for
/// every other value. The contract names the outcome.
#[verifier::external_body]
pub(crate) fn as_text(value: &Value) -> (r: Option<&str>)
    ensures
        r is Some <==> text_of(*value) is Some,
        r matches Some(text) ==> text_of(*value) == Some(text@),
{
    value.as_str()
}

/// Calls `Value::as_i64`, which gives a JSON number that is an integer within
/// the range of `i64` and `None` for every other value. The contract names the
/// outcome.
#[verifier::external_body]
pub(crate) fn as_integer(value: &Value) -> (r: Option<i64>)
    ensures
        r == integer_of(*value),
{
    value.as_i64()
}

} // verus!
