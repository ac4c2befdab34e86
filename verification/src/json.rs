//! JSON values, which a request body is made of, and their text.

use vstd::prelude::*;

verus! {

/// A JSON value of `serde_json`, carried through without being inspected.
#[verifier::external_type_specification]
#[verifier::external_body]
pub struct ExValue(serde_json::Value);

/// The compact JSON text of a value: what `serde_json`'s `Display` for
/// `Value` writes.
pub uninterp spec fn json_text(value: serde_json::Value) -> Seq<char>;

/// What `serde_json::from_str` reads from a text as an optional value: the
/// outer `None` where it reports an error, `Some(None)` for the text `null`,
/// and the value otherwise.
pub uninterp spec fn json_body(text: Seq<char>) -> Option<Option<serde_json::Value>>;

/// `serde_json::Value::to_string`: the value written as JSON text, without
/// added whitespace.
#[verifier::external_body]
pub(crate) fn render(value: &serde_json::Value) -> (text: String)
    ensures
        text@ == json_text(*value),
{
    value.to_string()
}

/// `serde_json::from_str` at the type `Option<Value>`: the value that `text`
/// stands for, none for `null`, or the error that says why `text` is not
/// JSON.
#[verifier::external_body]
pub(crate) fn parse(text: &str) -> (r: Result<Option<serde_json::Value>, serde_json::Error>)
    ensures
        match r {
            Ok(body) => json_body(text@) == Some(body),
            Err(_) => json_body(text@) is None,
        },
{
    serde_json::from_str::<Option<serde_json::Value>>(text)
}

} // verus!
