//! Structural comparison of two JSON documents.
//!
//! `json_diff::diff` compares two JSON texts and returns a tree that says for
//! every place of the documents whether they agree there;
//! `html_generator::generate` shows such a tree as HTML.
use vstd::prelude::*;

pub mod codec;
pub mod decimal;
pub mod edit_distance;
pub mod html_generator;
pub mod json;
pub mod json_diff;
pub mod keys;
pub mod laws;
pub mod order;
pub mod text;

verus! {

/// Compares two JSON texts and shows their difference as HTML.
///
/// Where one of the texts is not readable, the result is the text `error!`.
pub fn find_diff(arg1: &str, arg2: &str) -> (html_str: String)
    ensures
        html_str@ == match (codec::readable(arg1@), codec::readable(arg2@)) {
            (Some(first), Some(second)) => html_generator::page_of(
                seq![html_generator::LineModel::Start] + html_generator::lines_of(
                    0,
                    json_diff::diff_model(first, second),
                    html_generator::Label::Same,
                ),
            ),
            _ => "error!"@,
        },
{
    match json_diff::diff(arg1, arg2) {
        Ok(json) => html_generator::generate(json),
        Err(_) => "error!".to_owned(),
    }
}

} // verus!
