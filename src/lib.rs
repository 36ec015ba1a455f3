//! A reader for a small Lisp.
//!
//! `parser::parse` is the entry point: a byte-level lexer (`lexer`) and a
//! recursive-descent parser turn source text into cons-cell trees (`model`), or
//! into a `ParseError` that points at a place in the source (`error`). Each step
//! is proved against a specification of what the source reads as
//! (`parser::parse_source`), and `comments` proves that a leading line comment
//! changes nothing in it.
//!
//! `reader` is a simpler, character-level reader into `ast` expressions that
//! keep their positions and print back as text.
use vstd::prelude::*;

pub mod ast;
pub mod comments;
pub mod error;
pub mod lexer;
pub mod model;
pub mod parser;
pub mod pos;
pub mod reader;
pub mod text;

verus! {

} // verus!
