//! The ways in which reading a document fails.

use vstd::prelude::*;

verus! {

/// Why a text could not be read.  Each failure ends the whole reading: no
/// part of a tree is handed out beside an error.
#[derive(Debug, Clone, Copy, PartialEq, Eq, Structural)]
pub enum DOMParseError {
    /// An element was opened and the text ended before it was closed.
    /// Kept for callers that want to report it; the end of the text closes
    /// every open element, so no function here returns it.
    UnclosedTag,
    /// The text holds no element at all.
    EmptyDocument,
    /// The text ends right after the `<` that opens a tag.
    TagUnclosed,
    /// A `>` stands where nothing is open.
    UnexpectedClosingTag,
    /// Kept for callers that want to report a child below a text run; a
    /// text run ends where a tag begins, so no function here returns it.
    UnexpectedChild,
    /// A character stands directly inside an element that takes only
    /// elements as children.
    UnexpectedSymbol,
    /// A tag was to be read where no `<` stands.
    MissingOpeningTag,
    /// A tag carries a name outside the dialect.
    UnimplementedElement,
    /// A backslash stands outside a tag; the dialect has no escapes.
    UnimplementedEscape,
}

} // verus!
