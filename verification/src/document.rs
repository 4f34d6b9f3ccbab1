//! A whole document.

use crate::cursor::Cursor;
use crate::element::{Element, ElementTree};
use crate::error::DOMParseError;
use crate::parser::element;
use vstd::prelude::*;

verus! {

/// A document: its root element and, where the text declares one, its
/// doctype.  Reading a text declares none.
#[derive(Debug, PartialEq, Eq)]
pub struct Document {
    pub doctype: Option<String>,
    pub html: Element,
}

/// The model of a [`Document`].
pub struct DocumentTree {
    pub doctype: Option<Seq<char>>,
    pub html: ElementTree,
}

impl View for Document {
    type V = DocumentTree;

    open spec fn view(&self) -> DocumentTree {
        DocumentTree {
            doctype: match self.doctype {
                Some(text) => Some(text@),
                None => None,
            },
            html: self.html@,
        }
    }
}

/// The document that `text` holds: its first element as the root, and no
/// doctype.  What follows the first element is not read.  A text without
/// an element, as one that is empty or begins with a closing tag, holds no
/// document.
pub open spec fn document_of(text: Seq<char>) -> Result<DocumentTree, DOMParseError> {
    match element(text).result {
        Ok(Some(root)) => Ok(DocumentTree { doctype: None, html: root }),
        Ok(None) => Err(DOMParseError::EmptyDocument),
        Err(e) => Err(e),
    }
}

/// The model of what reading a document hands out.
pub open spec fn document_view(
    document: Result<Document, DOMParseError>,
) -> Result<DocumentTree, DOMParseError> {
    match document {
        Ok(d) => Ok(d@),
        Err(e) => Err(e),
    }
}

impl Document {
    /// Reads `document` into a tree.
    pub fn from_str(document: &str) -> (parsed: Result<Document, DOMParseError>)
        ensures
            document_view(parsed) == document_of(document@),
            parsed matches Ok(d) ==> d@.html.well_formed(),
    {
        let mut iter = Cursor::new(document);
        match Document::parse(&mut iter) {
            Ok(Some(e)) => Ok(Document { doctype: None, html: e }),
            Ok(None) => Err(DOMParseError::EmptyDocument),
            Err(e) => Err(e),
        }
    }
}

} // verus!
