use html_dom::DOMParseError::{
    EmptyDocument, TagUnclosed, UnexpectedClosingTag, UnexpectedSymbol, UnimplementedElement,
    UnimplementedEscape,
};
use html_dom::ElementType::{Container, Text};
use html_dom::{Document, Element};

#[test]
fn document_holds_the_first_element() {
    let document = Document::from_str("<html>\n  <body>\n    <p>Hi</p>\n  </body>\n</html>\n");
    assert_eq!(
        document,
        Ok(Document {
            doctype: None,
            html: Element {
                kind: Container,
                children: vec![Element {
                    kind: Container,
                    children: vec![Element { kind: Text(2), ..Default::default() }],
                    attr: String::new(),
                }],
                attr: String::new(),
            },
        })
    );
}

#[test]
fn document_has_no_doctype() {
    let document = Document::from_str("<div id=main></div>").unwrap();
    assert_eq!(document.doctype, None);
    assert_eq!(document.html.kind, Container);
    assert_eq!(document.html.attr, "id=main");
    assert!(document.html.children.is_empty());
}

#[test]
fn empty_document() {
    assert_eq!(Document::from_str(""), Err(EmptyDocument));
    assert_eq!(Document::from_str("  \n"), Err(EmptyDocument));
    assert_eq!(Document::from_str("</div>"), Err(EmptyDocument));
    assert_eq!(Document::from_str("</div><div></div>"), Err(EmptyDocument));
}

#[test]
fn document_failures() {
    assert_eq!(Document::from_str("<span>"), Err(UnimplementedElement));
    assert_eq!(Document::from_str("<"), Err(TagUnclosed));
    assert_eq!(Document::from_str(">"), Err(UnexpectedClosingTag));
    assert_eq!(Document::from_str("<html>text</html>"), Err(UnexpectedSymbol));
    assert_eq!(Document::from_str("\\"), Err(UnimplementedEscape));
}

#[test]
fn default_element_is_an_empty_text_run() {
    let element = Element::default();
    assert_eq!(element.kind, Text(0));
    assert!(element.children.is_empty());
    assert_eq!(element.attr, "");
}
