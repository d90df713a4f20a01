//! The pipeline: from a language and a source text to the rendered text.

use vstd::prelude::*;
use crate::elide::{elide, rendered};
use crate::languages::{registered_grammar, Language};
use crate::provider::{parsed_tree, syntax_tree, ParseError};
use crate::tree::SyntaxNode;

verus! {

/// Why a text could not be rendered.
#[derive(Clone, Copy, Debug, PartialEq, Eq, Structural)]
pub enum RenderError {
    /// The language is known but has no grammar where it was asked for.
    GrammarUnavailable(Language),
    /// The parser gave no syntax tree for a text in this language.
    Parse(Language, ParseError),
    /// The parser's tree has a reversed range, a child outside its parent,
    /// overlapping siblings, or reaches beyond the text.
    MalformedTree(Language),
}

/// What is rendered from `code` once the parser has answered with `parsed`.
pub open spec fn outcome(
    parsed: Result<SyntaxNode, ParseError>,
    code: Seq<u8>,
    language: Language,
) -> Result<Seq<u8>, RenderError> {
    match parsed {
        Err(error) => Err(RenderError::Parse(language, error)),
        Ok(root) => if root.wf() && root.end_byte <= code.len() {
            Ok(rendered(code, root, registered_grammar(language)))
        } else {
            Err(RenderError::MalformedTree(language))
        },
    }
}

/// A result with the rendered bytes as a sequence.
pub open spec fn as_seq(result: Result<Vec<u8>, RenderError>) -> Result<Seq<u8>, RenderError> {
    match result {
        Ok(bytes) => Ok(bytes@),
        Err(error) => Err(error),
    }
}

/// A copy of `code`.
pub fn copy_of(code: &[u8]) -> (copy: Vec<u8>)
    ensures
        copy@ == code@,
{
    let mut copy: Vec<u8> = Vec::new();
    let mut i: usize = 0;
    while i < code.len()
        invariant
            i <= code@.len(),
            copy@ == code@.subrange(0, i as int),
        decreases code@.len() - i,
    {
        copy.push(code[i]);
        i += 1;
        assert(copy@ =~= code@.subrange(0, i as int));
    }
    assert(code@.subrange(0, code@.len() as int) =~= code@);
    copy
}

/// Renders `code` from the parser's answer `parsed`: a parser's error is
/// handed on, a tree with ill-formed ranges is refused, and any other tree
/// is walked under the grammar registered for `language`.
pub fn render_parsed(parsed: Result<SyntaxNode, ParseError>, code: &[u8], language: &Language) -> (result:
    Result<Vec<u8>, RenderError>)
    ensures
        as_seq(result) == outcome(parsed, code@, *language),
{
    match parsed {
        Err(error) => Err(RenderError::Parse(*language, error)),
        Ok(root) => {
            if !root.is_well_formed() || root.end_byte > code.len() {
                return Err(RenderError::MalformedTree(*language));
            }
            let grammar = language.get_grammar().unwrap();
            Ok(elide(&root, code, &grammar))
        },
    }
}

/// Renders `code`, a text in `language`: parses it and replaces the body of
/// every function by the language's placeholder. The result is what
/// `outcome` makes of the parser's answer.
pub fn process_code(code: &[u8], language: &Language) -> (result: Result<Vec<u8>, RenderError>)
    ensures
        as_seq(result) == outcome(parsed_tree(*language, code@), code@, *language),
{
    let parsed = syntax_tree(language, code);
    render_parsed(parsed, code, language)
}

/// What `process` gives for `code`: the text itself where no language is
/// known, and otherwise what is rendered from the parser's answer.
pub open spec fn processed(language: Option<Language>, code: Seq<u8>) -> Result<
    Seq<u8>,
    RenderError,
> {
    match language {
        None => Ok(code),
        Some(known) => outcome(parsed_tree(known, code), code, known),
    }
}

/// Renders `code`: a text of no known language is returned unchanged, a
/// text of a known language is rendered as `process_code` does.
pub fn process(language: Option<Language>, code: &[u8]) -> (result: Result<Vec<u8>, RenderError>)
    ensures
        as_seq(result) == processed(language, code@),
{
    match language {
        None => Ok(copy_of(code)),
        Some(language) => process_code(code, &language),
    }
}

} // verus!
