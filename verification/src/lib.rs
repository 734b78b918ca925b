//! A converter from a small subset of Markdown to HTML: headers, paragraphs and
//! raw HTML tags.
//!
//! A text goes through these stages, each in a module of its own:
//!
//! - `grammar` cuts the text into lines and gathers the lines into blocks;
//! - `text` normalises the whitespace of header and paragraph text and escapes
//!   it;
//! - `fragment` has raw tag blocks read by an HTML parser and brings the result
//!   into the tree;
//! - `dom` holds the tree, writes it out as HTML and knows the subtitle rule,
//!   which gives every `h2` the class `subtitle`;
//! - `document` puts the stages together: `Document::parse` is the whole
//!   conversion, `Document::to_writer` the output;
//! - `fixture` decides whether a conversion is what a stored expectation says.

pub mod document;
pub mod dom;
pub mod error;
pub mod fixture;
pub mod fragment;
pub mod grammar;
pub mod text;

pub use crate::document::Document;
pub use crate::error::Error;
