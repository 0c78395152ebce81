//! A recursive-descent parser for a small JSON subset: integers, booleans,
//! strings without escapes, arrays and objects.
//!
//! - [`value`]: the value tree that parsing gives, and its model.
//! - [`error`]: the ways in which parsing fails, each with its position.
//! - [`cursor`]: the input text with one character of lookahead.
//! - [`grammar`]: what reading each construct at an offset of a text gives;
//!   the contracts of the parsing routines are stated over these functions.
//! - [`parser`]: the parsing routines, from [`parser::match_char`] to
//!   [`parser::parse`].
//! - [`syntax`]: the texts of the grammar as trees, and the law that every
//!   valid text is read as the document it denotes, whatever whitespace
//!   stands between its tokens.
//! - [`derivation`]: the converse law, that only valid texts are read as
//!   documents.
//! - [`render`]: the text that a document is written as, and the law that
//!   reading it gives the document back.

pub mod cursor;
pub mod derivation;
pub mod error;
pub mod grammar;
pub mod parser;
pub mod render;
pub mod syntax;
pub mod value;
