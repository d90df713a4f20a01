//! A pipeline for Rust alone: Rust is rendered, and every other language is
//! reported as one without a grammar here.

use vstd::prelude::*;
use crate::languages::Language;
use crate::process::{as_seq, outcome, process_code, RenderError};
use crate::provider::parsed_tree;

verus! {

/// Renders `code` as a Rust text: the result is what `outcome` makes of the
/// parser's answer for Rust.
pub fn process_rust_code(code: &[u8]) -> (result: Result<Vec<u8>, RenderError>)
    ensures
        as_seq(result) == outcome(parsed_tree(Language::Rust, code@), code@, Language::Rust),
{
    process_code(code, &Language::Rust)
}

/// What `parse` gives: the rendered text for Rust, and for every other
/// language the report that it has no grammar here.
pub open spec fn parse_outcome(language: Language, code: Seq<u8>) -> Result<Seq<u8>, RenderError> {
    if language == Language::Rust {
        outcome(parsed_tree(Language::Rust, code), code, Language::Rust)
    } else {
        Err(RenderError::GrammarUnavailable(language))
    }
}

/// Renders `code` where `language` is Rust. Any other language has no
/// grammar here: it is reported by name, and nothing is passed through.
pub fn parse(language: Language, code: &[u8]) -> (result: Result<Vec<u8>, RenderError>)
    ensures
        as_seq(result) == parse_outcome(language, code@),
{
    match language {
        Language::Rust => process_rust_code(code),
        _ => Err(RenderError::GrammarUnavailable(language)),
    }
}

} // verus!
