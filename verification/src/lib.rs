//! A small tag-based markup language and its recursive-descent parser.
//!
//! The grammar is given as specification functions over character sequences;
//! every parsing function is proved to return exactly what the grammar says.
//!
//! - [`parser`] holds the language: literal values, traits, attributes and
//!   tags, each with its grammar, its parser and what is proved of both.
//! - [`elements`] holds the plain form of the markup, whose attributes are
//!   bare words, and the widgets that a tag can name.
//! - [`graphics`] holds the plain data of the viewer that draws a document.

pub mod elements;
pub mod graphics;
pub mod parser;
