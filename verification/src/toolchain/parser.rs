//! The compilation unit: the parsed page, its style rules and its event
//! handlers, with the sources they came from.
use vstd::prelude::*;

use super::css::CssRule;
use super::html::HtmlElement;
use super::js::EventHandler;

verus! {

/// The kind of a source file.
#[derive(Debug, Clone, Copy, PartialEq, Eq)]
pub enum SourceKind {
    Html,
    Css,
    JavaScript,
}

/// A source file: its path, kind and text.
#[derive(Debug)]
pub struct SourceFile {
    pub path: String,
    pub kind: SourceKind,
    pub content: String,
}

/// A page after parsing: its elements, style rules and event handlers,
/// and the files they were read from.
#[derive(Debug)]
pub struct CompilationUnit {
    pub elements: Vec<HtmlElement>,
    pub css_rules: Vec<CssRule>,
    pub event_handlers: Vec<EventHandler>,
    pub source_files: Vec<SourceFile>,
}

/// The parser that reads a page's three sources into a compilation unit.
#[derive(Debug)]
pub struct Parser;

} // verus!
