//! A small XML parser, verified end to end.
//!
//! The input document is cut into sections after every `>` — except that a
//! section opening a CDATA block runs through its closing `]]>`, so markup
//! inside CDATA is kept verbatim — each section is classified as a tag or a
//! text run, and a stack-based assembler reduces the classified stream into a
//! forest of [`XMLElement`] nodes. The behaviour of [`parse`] is pinned down,
//! for every input, by the ghost function [`engine::spec_parse`] over the
//! view of the input.
pub mod ast;
pub mod engine;
pub mod grammar;
pub mod laws;
pub mod lexer;
pub mod model;

pub use ast::Attribute;
pub use engine::parse;
pub use ast::ParseError;
pub use ast::XMLElement;
