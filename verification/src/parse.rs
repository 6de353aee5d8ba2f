use vstd::prelude::*;
use crate::formatter::{FormatterError, Result};
use crate::layout::numbers_plain;
use crate::value::{tally, Json, JsonValue};

verus! {

#[verifier::external_type_specification]
#[verifier::external_body]
pub struct ExJsonError(serde_json::Error);

#[verifier::external_type_specification]
#[verifier::external_body]
pub struct ExJsonTree(serde_json::Value);

/// The document that `serde_json::from_str` reads from a text, or `None`
/// where it reports an error.
pub uninterp spec fn parsed(text: Seq<char>) -> Option<Json>;

/// Converts a tree that `serde_json` built into the library's own value:
/// variant for variant, numbers by their `Display` text, members in map order.
#[verifier::external_body]
fn from_tree(t: &serde_json::Value) -> JsonValue {
    match t {
        serde_json::Value::Null => JsonValue::Null,
        serde_json::Value::Bool(b) => JsonValue::Bool(*b),
        serde_json::Value::Number(n) => JsonValue::Number(n.to_string()),
        serde_json::Value::String(s) => JsonValue::Str(s.clone()),
        serde_json::Value::Array(a) => JsonValue::Array(a.iter().map(from_tree).collect()),
        serde_json::Value::Object(m) => JsonValue::Object(
            m.iter().map(|(k, v)| (k.clone(), from_tree(v))).collect(),
        ),
    }
}

/// Reads a JSON document with `serde_json::from_str::<serde_json::Value>`
/// (map order preserved). Trusted: the result is the document named by
/// `parsed` (an error exactly where that is `None`); its objects have
/// pairwise different keys, as the keys of a `serde_json::Map` are;
/// containers nest fewer than 128 deep, the parser's recursion limit; and
/// every number's text is one token without quotes or whitespace, as the
/// `Display` of `serde_json::Number` writes it (digits, sign, point and
/// exponent).
/// Nothing is said of the error's content.
#[verifier::external_body]
pub(crate) fn read_json(text: &str) -> (r: std::result::Result<JsonValue, serde_json::Error>)
    ensures
        match r {
            Ok(v) => parsed(text@) == Some(v@) && v@.wf() && tally(v@).depth < 128 && numbers_plain(v@),
            Err(_) => parsed(text@) is None,
        },
{
    let tree: serde_json::Value = serde_json::from_str(text)?;
    Ok(from_tree(&tree))
}


/// Reads a JSON document; an error where the text is not JSON.
pub fn parse_json(text: &str) -> (r: Result<JsonValue>)
    ensures
        match parsed(text@) {
            None => r matches Err(FormatterError::ParseError(_)),
            Some(v) => r matches Ok(x) && x@ == v && v.wf() && tally(v).depth < 128 && numbers_plain(v),
        },
{
    match read_json(text) {
        Ok(v) => Ok(v),
        Err(e) => Err(FormatterError::ParseError(e)),
    }
}

} // verus!
