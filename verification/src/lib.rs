//! Structural comparison of two JSON-like documents, reported as an indented
//! listing of added, removed and changed entries.
//!
//! A line of input holds two documents around ` => `. Each is read into a
//! [`json::Json`], normalized ([`pair::normalize`]), and the two are compared
//! ([`parser::diff`]) into a sequence of [`line::Line`]s, which
//! [`line::Line::render`] shows.
//!
//! Contracts are stated over the views of these types: [`json::JsonView`]
//! for a document and [`line::LineView`] for a line. What holds of every
//! document and comparison stands in [`laws`], [`depth`] and [`rewrite`].

pub mod depth;
pub mod error;
pub mod input;
pub mod json;
pub mod laws;
pub mod line;
pub mod pair;
pub mod parser;
pub mod reader;
pub mod rewrite;
pub mod strings;
pub mod text;
pub mod util;
