//! A zero-copy recursive-descent parser for a small brace-delimited markup
//! language: a tree of named elements, each with attributes, an optional
//! inline text and nested children.
//!
//! Every span of the resulting tree borrows from the input buffer; nothing is
//! copied while scanning. All executable code is verified against the
//! grammar in [`grammar`].
//!
//! - [`cursor`]: the reading position over the buffer.
//! - [`classify`]: which bytes are letters, digits and whitespace.
//! - [`tokenizer`]: whitespace, identifiers and expressions.
//! - [`parser`]: elements, and [`parser::parse`], the entry point.
//! - [`document`] and [`error`]: what parsing gives.
//! - [`grammar`] and [`wellformed`]: what the parser computes, and what
//!   holds of every tree it gives.
//! - [`chars2`]: an iterator over the characters of a string slice.

pub mod chars2;
pub mod classify;
pub mod cursor;
pub mod document;
pub mod error;
pub mod grammar;
pub mod parser;
pub mod tokenizer;
pub mod wellformed;
