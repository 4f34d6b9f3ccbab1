//! A parser for a small, closed dialect of HTML-like markup.
//!
//! The text is read once, front to back, into a tree of [`Element`]s held
//! by a [`Document`].  Every function states what it returns over plain
//! sequences of characters, and the verifier checks each body against
//! that statement.

pub mod cursor;
pub mod document;
pub mod element;
pub mod error;
pub mod laws;
pub mod parser;
pub mod skip_spaces;
pub mod strings;
pub mod tag;
pub mod whitespace;

pub use crate::cursor::Cursor;
pub use crate::document::Document;
pub use crate::element::{Element, ElementType};
pub use crate::error::DOMParseError;
pub use crate::skip_spaces::skip_spaces;
pub use crate::whitespace::is_whitespace;
