//! Renders a condensed map of a source file: the file's text with every
//! function body collapsed to a short placeholder and everything else kept
//! byte for byte.

pub mod languages;
pub mod tree;
pub mod elide;
pub mod provider;
pub mod process;
pub mod parser;
pub mod laws;
