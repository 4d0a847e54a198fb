//! The calls into `serde_json`, each with the contract that the verified
//! code relies on.

use vstd::prelude::*;

verus! {

/// `serde_json::Value`, carried through as it is: nothing in this library
/// looks inside a JSON value.
#[verifier::external_type_specification]
#[verifier::external_body]
pub struct ExValue(serde_json::Value);

/// `serde_json::Error`, of which this library only asks whether there is
/// one.
#[verifier::external_type_specification]
#[verifier::external_body]
pub struct ExError(serde_json::Error);

/// The compact JSON text that `serde_json` writes for `value`.
pub uninterp spec fn json_text(value: serde_json::Value) -> Seq<char>;

/// The JSON string value that holds `text`.
pub uninterp spec fn json_string(text: Seq<char>) -> serde_json::Value;

/// The JSON value that `text` writes, where it is well-formed JSON.
pub uninterp spec fn json_value(text: Seq<char>) -> Option<serde_json::Value>;

/// Writes `value` as compact JSON, through the `Display` impl of
/// `serde_json::Value`.
///
/// Trusted: the text depends on the value alone, and is named `json_text`.
#[verifier::external_body]
pub(crate) fn value_text(value: &serde_json::Value) -> (text: String)
    ensures
        text@ == json_text(*value),
{
    value.to_string()
}

/// Wraps `text` in a JSON string value, through `From<&str>` for
/// `serde_json::Value`.
///
/// Trusted: the value depends on the text alone, and is named `json_string`.
#[verifier::external_body]
pub(crate) fn string_value(text: &str) -> (value: serde_json::Value)
    ensures
        value == json_string(text@),
{
    serde_json::Value::from(text)
}

/// Reads `text` as one JSON value with `serde_json::from_str`.
///
/// Trusted: whether the text is accepted, and the value it gives, depend on
/// the text alone, and are named `json_value`.
#[verifier::external_body]
pub(crate) fn parse_value(text: &str) -> (parsed: Result<serde_json::Value, serde_json::Error>)
    ensures
        match parsed {
            Ok(value) => json_value(text@) == Some(value),
            Err(_) => json_value(text@) is None,
        },
{
    serde_json::from_str::<serde_json::Value>(text)
}

} // verus!
