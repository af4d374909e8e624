//! Structured context that travels with an entry as a JSON value.

use vstd::prelude::*;

verus! {

/// Outside type: a JSON value, carried through unread.
#[verifier::external_type_specification]
#[verifier::external_body]
pub struct ExValue(serde_json::Value);

/// Outside type: why a JSON value could not be written or read.
#[verifier::external_type_specification]
#[verifier::external_body]
pub struct ExJsonError(serde_json::Error);

/// Trusted: cloning a `serde_json::Value` gives the same value.
pub assume_specification[ <serde_json::Value as Clone>::clone ](
    value: &serde_json::Value,
) -> (r: serde_json::Value)
    ensures
        r == *value,
;

/// The JSON text that `serde_json::to_string` writes for a value; none where
/// it refuses.
pub uninterp spec fn json_text(value: serde_json::Value) -> Option<Seq<char>>;

/// The JSON value that `serde_json::from_str` reads from a text; none where it
/// refuses.
pub uninterp spec fn json_value(text: Seq<char>) -> Option<serde_json::Value>;

/// Trusted: `serde_json::to_string` on a value depends on the value alone.
#[verifier::external_body]
pub(crate) fn write_json(value: &serde_json::Value) -> (r: Result<String, serde_json::Error>)
    ensures
        match r {
            Ok(text) => json_text(*value) == Some(text@),
            Err(_) => json_text(*value) is None,
        },
{
    serde_json::to_string(value)
}

/// Trusted: `serde_json::from_str` to a value depends on the text alone.
#[verifier::external_body]
pub(crate) fn read_json(text: &str) -> (r: Option<serde_json::Value>)
    ensures
        r == json_value(text@),
{
    serde_json::from_str(text).ok()
}

/// A copy of an optional JSON value.
pub(crate) fn copy_metadata(value: &Option<serde_json::Value>) -> (r: Option<serde_json::Value>)
    ensures
        r == *value,
{
    match value {
        Some(v) => Some(v.clone()),
        None => None,
    }
}

} // verus!
