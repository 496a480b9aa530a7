//! Reading and writing JSON text.
//!
//! The grammar of JSON is left to `serde_json`. What that crate computes is
//! known here by name only: `parsed` for the document that a text denotes,
//! `canonical_text` for the text of a document, `float_text` for the value of
//! a number as a double.
use crate::json::{fits, Json, JsonModel};
use vstd::prelude::*;

verus! {

/// `serde_json::Value`, a document as the parser holds it. Nothing is known
/// of what is inside.
#[verifier::external_type_specification]
#[verifier::external_body]
pub struct ExOutsideValue(serde_json::Value);

/// `serde_json::Error`, the parser's account of a fault. Nothing is known of
/// what is inside.
#[verifier::external_type_specification]
#[verifier::external_body]
pub struct ExOutsideError(serde_json::Error);

/// What `serde_json::from_str` makes of `text`: the document that it
/// denotes, the members of every object in the order of their keys, or `None`
/// where `text` is no JSON.
pub uninterp spec fn parsed(text: Seq<char>) -> Option<JsonModel>;

/// What `serde_json::Value::to_string` makes of `document`: its compact JSON
/// text, the members of every object in the order of their keys.
pub uninterp spec fn canonical_text(document: JsonModel) -> Seq<char>;

/// What `serde_json::Number::as_f64` makes of the number that the text
/// `number` denotes, written in decimal: the text of the nearest double, or
/// `None` where `number` denotes no number.
pub uninterp spec fn float_text(number: Seq<char>) -> Option<Seq<char>>;

/// Rebuilds a value of `serde_json::Value` as a `Json`, one arm for each
/// variant; a number is kept as the text that `serde_json::Number` prints.
/// Nothing is claimed of the outcome here: `read_document` speaks for it.
#[verifier::external_body]
fn from_outside(v: &serde_json::Value) -> Json {
    match v {
        serde_json::Value::Null => Json::Null,
        serde_json::Value::Bool(b) => Json::Bool(*b),
        serde_json::Value::Number(n) => Json::Number(n.to_string()),
        serde_json::Value::String(s) => Json::String(s.clone()),
        serde_json::Value::Array(a) => Json::Array(a.iter().map(from_outside).collect()),
        serde_json::Value::Object(o) => Json::Object(
            o.iter().map(|(k, v)| (k.clone(), from_outside(v))).collect(),
        ),
    }
}

/// Rebuilds a `Json` as a value of `serde_json::Value`, one arm for each
/// variant; a number is read back from its text by `serde_json::Number`, and
/// one that cannot be read is handed on as `null`. Nothing is claimed of the
/// outcome here: `serialize` speaks for it.
#[verifier::external_body]
fn to_outside(v: &Json) -> serde_json::Value {
    match v {
        Json::Null => serde_json::Value::Null,
        Json::Bool(b) => serde_json::Value::Bool(*b),
        Json::Number(t) => t.parse().map_or(serde_json::Value::Null, serde_json::Value::Number),
        Json::String(s) => serde_json::Value::String(s.clone()),
        Json::Array(a) => serde_json::Value::Array(a.iter().map(to_outside).collect()),
        Json::Object(o) => serde_json::Value::Object(
            o.iter().map(|(k, v)| (k.clone(), to_outside(v))).collect(),
        ),
    }
}

/// Calls `serde_json::from_str` for a `serde_json::Value` and rebuilds the
/// value as a `Json`. The contract claims that the outcome depends on the
/// text alone: the same text always gives the same document, or always fails.
#[verifier::external_body]
fn read_document(text: &str) -> (r: Result<Json, serde_json::Error>)
    ensures
        match r {
            Ok(document) => parsed(text@) == Some(document@),
            Err(_) => parsed(text@) is None,
        },
{
    match serde_json::from_str::<serde_json::Value>(text) {
        Ok(v) => Ok(from_outside(&v)),
        Err(e) => Err(e),
    }
}

/// Calls `to_string` of `serde_json::Error`, which gives the message with
/// the line and the column of the fault. Nothing is claimed of the text.
#[verifier::external_body]
fn error_message(e: &serde_json::Error) -> String {
    e.to_string()
}

/// Rebuilds the document as a `serde_json::Value` and calls its `to_string`,
/// which prints the compact form. The contract claims that the text depends
/// on the document alone.
#[verifier::external_body]
pub(crate) fn serialize(document: &Json) -> (r: String)
    ensures
        r@ == canonical_text(document@),
{
    to_outside(document).to_string()
}

/// Reads `number` as a `serde_json::Number`, calls its `as_f64` and writes
/// the double out with `to_string`, since no double is held here. The
/// contract claims that the outcome depends on the text alone.
#[verifier::external_body]
pub(crate) fn number_as_float(number: &str) -> (r: Option<String>)
    ensures
        match r {
            Some(text) => float_text(number@) == Some(text@),
            None => float_text(number@) is None,
        },
{
    number.parse::<serde_json::Number>().ok().and_then(|n| n.as_f64()).map(|x| x.to_string())
}

/// Why a text was not accepted as a document.
#[derive(Debug, PartialEq)]
pub struct ParseError {
    /// What is wrong, and where.
    pub message: String,
}

impl Clone for ParseError {
    fn clone(&self) -> (r: ParseError)
        ensures
            r.message@ == self.message@,
    {
        ParseError { message: self.message.clone() }
    }
}

/// The document that a text denotes, where it can be aligned on this machine.
pub open spec fn readable(text: Seq<char>) -> Option<JsonModel> {
    match parsed(text) {
        Some(document) => if fits(document) {
            Some(document)
        } else {
            None
        },
        None => None,
    }
}

/// Reads a JSON text.
///
/// Succeeds exactly on the texts that denote a document none of whose arrays
/// has more than `array_limit()` elements, and then returns that document.
pub fn parse(text: &str) -> (r: Result<Json, ParseError>)
    ensures
        match r {
            Ok(document) => readable(text@) == Some(document@),
            Err(_) => readable(text@) is None,
        },
{
    match read_document(text) {
        Ok(document) => {
            if document.within_limits() {
                Ok(document)
            } else {
                Err(ParseError { message: "array too long".to_string() })
            }
        },
        Err(e) => Err(ParseError { message: error_message(&e) }),
    }
}

} // verus!
