//! The syntax tree provider: hands a source text to the tree-sitter parser
//! of its language and copies the tree that comes back into a `SyntaxNode`.

use vstd::prelude::*;
use crate::languages::Language;
use crate::tree::SyntaxNode;

verus! {

/// `tree_sitter::LanguageError`, the parser's reason for refusing a grammar: carried through as an opaque value.
#[verifier::external_type_specification]
#[verifier::external_body]
pub struct ExLanguageError(tree_sitter::LanguageError);

/// `tree_sitter::Node`, a node of a parsed tree: carried through as an opaque value.
#[verifier::external_type_specification]
#[verifier::external_body]
pub struct ExNode<'tree>(tree_sitter::Node<'tree>);

/// Why the parser refused a grammar.
#[derive(Clone, Copy, Debug, PartialEq, Eq, Structural)]
pub enum LoadFailure {
    /// The grammar was generated for the given version, which the parser
    /// does not support.
    Version(usize),
    /// The grammar cannot be used for parsing.
    NotParseable,
}

/// Why no syntax tree could be had for a text.
#[derive(Clone, Copy, Debug, PartialEq, Eq, Structural)]
pub enum ParseError {
    /// The parser refused the language's grammar.
    GrammarLoad(LoadFailure),
    /// The parser gave no tree.
    NoTree,
    /// A child that the parser counted could not be had.
    Unreadable,
}

/// The parser's answer for a text in a language: the tree that
/// `tree_sitter::Parser::parse` builds from the bytes `code` under the
/// grammar of `language`, copied node by node, or why there is none.
pub uninterp spec fn parsed_tree(language: Language, code: Seq<u8>) -> Result<SyntaxNode, ParseError>;

/// Reads a `tree_sitter::LanguageError` into the library's own type,
/// variant by variant. Nothing is claimed of which variant comes.
#[verifier::external_body]
fn load_failure(error: tree_sitter::LanguageError) -> ParseError {
    match error {
        tree_sitter::LanguageError::Version(version) => ParseError::GrammarLoad(
            LoadFailure::Version(version),
        ),
        tree_sitter::LanguageError::NotParseable => ParseError::GrammarLoad(
            LoadFailure::NotParseable,
        ),
    }
}

/// Copies a node and all below it, one for one: `tree_sitter::Node::kind`,
/// `start_byte`, `end_byte`, and each of the `child_count` children that
/// `child` gives, in their order. `None` where a counted child is missing.
/// Nothing is tested and nothing is claimed of what is copied.
#[verifier::external_body]
fn copy_node(node: &tree_sitter::Node) -> Option<SyntaxNode> {
    let mut children = Vec::new();
    for index in 0..node.child_count() {
        children.push(copy_node(&node.child(index)?)?);
    }
    let kind = node.kind().to_string();
    Some(SyntaxNode { kind, start_byte: node.start_byte(), end_byte: node.end_byte(), children })
}

/// `tree_sitter::Parser::new`, `Parser::set_language` with the grammar of
/// Rust, `tree_sitter_rust::LANGUAGE`, `Parser::parse` on the whole text
/// with no earlier tree, and `Tree::root_node`, copied. The claim: the answer
/// is a function of the bytes alone, as a fresh parser keeps no state and
/// the parse reads nothing else. Nothing is claimed of what the answer is.
#[verifier::external_body]
fn parse_rust(code: &[u8]) -> (parsed: Result<SyntaxNode, ParseError>)
    ensures
        parsed == parsed_tree(Language::Rust, code@),
{
    let mut parser = tree_sitter::Parser::new();
    parser.set_language(&tree_sitter_rust::LANGUAGE.into()).map_err(load_failure)?;
    let tree = parser.parse(code, None).ok_or(ParseError::NoTree)?;
    copy_node(&tree.root_node()).ok_or(ParseError::Unreadable)
}

/// `tree_sitter::Parser::new`, `Parser::set_language` with the grammar of
/// Go, `tree_sitter_go::LANGUAGE`, `Parser::parse` on the whole text
/// with no earlier tree, and `Tree::root_node`, copied. The claim: the answer
/// is a function of the bytes alone, as a fresh parser keeps no state and
/// the parse reads nothing else. Nothing is claimed of what the answer is.
#[verifier::external_body]
fn parse_go(code: &[u8]) -> (parsed: Result<SyntaxNode, ParseError>)
    ensures
        parsed == parsed_tree(Language::Go, code@),
{
    let mut parser = tree_sitter::Parser::new();
    parser.set_language(&tree_sitter_go::LANGUAGE.into()).map_err(load_failure)?;
    let tree = parser.parse(code, None).ok_or(ParseError::NoTree)?;
    copy_node(&tree.root_node()).ok_or(ParseError::Unreadable)
}

/// `tree_sitter::Parser::new`, `Parser::set_language` with the grammar of
/// JavaScript, `tree_sitter_javascript::LANGUAGE`, `Parser::parse` on the whole text
/// with no earlier tree, and `Tree::root_node`, copied. The claim: the answer
/// is a function of the bytes alone, as a fresh parser keeps no state and
/// the parse reads nothing else. Nothing is claimed of what the answer is.
#[verifier::external_body]
fn parse_javascript(code: &[u8]) -> (parsed: Result<SyntaxNode, ParseError>)
    ensures
        parsed == parsed_tree(Language::JavaScript, code@),
{
    let mut parser = tree_sitter::Parser::new();
    parser.set_language(&tree_sitter_javascript::LANGUAGE.into()).map_err(load_failure)?;
    let tree = parser.parse(code, None).ok_or(ParseError::NoTree)?;
    copy_node(&tree.root_node()).ok_or(ParseError::Unreadable)
}

/// `tree_sitter::Parser::new`, `Parser::set_language` with the grammar of
/// Python, `tree_sitter_python::LANGUAGE`, `Parser::parse` on the whole text
/// with no earlier tree, and `Tree::root_node`, copied. The claim: the answer
/// is a function of the bytes alone, as a fresh parser keeps no state and
/// the parse reads nothing else. Nothing is claimed of what the answer is.
#[verifier::external_body]
fn parse_python(code: &[u8]) -> (parsed: Result<SyntaxNode, ParseError>)
    ensures
        parsed == parsed_tree(Language::Python, code@),
{
    let mut parser = tree_sitter::Parser::new();
    parser.set_language(&tree_sitter_python::LANGUAGE.into()).map_err(load_failure)?;
    let tree = parser.parse(code, None).ok_or(ParseError::NoTree)?;
    copy_node(&tree.root_node()).ok_or(ParseError::Unreadable)
}

/// The syntax tree of `code` in `language`: the parser's answer under the
/// grammar of that language. Nothing of the tree is tested here: whether its
/// ranges are well formed is for the one who walks it to ask.
pub fn syntax_tree(language: &Language, code: &[u8]) -> (parsed: Result<SyntaxNode, ParseError>)
    ensures
        parsed == parsed_tree(*language, code@),
{
    match language {
        Language::Rust => parse_rust(code),
        Language::Go => parse_go(code),
        Language::JavaScript => parse_javascript(code),
        Language::Python => parse_python(code),
    }
}

} // verus!
