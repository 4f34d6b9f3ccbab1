use html_dom::DOMParseError::{MissingOpeningTag, TagUnclosed, UnimplementedElement};
use html_dom::ElementType::{self, Container, Text};
use html_dom::{Cursor, DOMParseError, Document};

type Scanned = Result<(bool, ElementType, String), DOMParseError>;

fn ok(closing: bool, kind: ElementType, attr: &str) -> Scanned {
    Ok((closing, kind, attr.to_string()))
}

/// Scans a tag at the start of `text`, folding whitespace, and gives the
/// tag and the character that the cursor then stands at.
fn scan(text: &str) -> (Scanned, Option<char>) {
    let mut i = Cursor::new(text);
    let tag = Document::tag(&mut i);
    (tag, i.peek())
}

/// The same through `parse_tag`.
fn scan_parse_tag(text: &str) -> (Scanned, Option<char>) {
    let mut i = Cursor::new(text);
    let tag = Document::parse_tag(&mut i);
    (tag, i.peek())
}

#[test]
fn parsing_tag() {
    const F: bool = false;
    const T: bool = true;

    assert_eq!(scan("b>"), (Err(MissingOpeningTag), Some('>')));
    assert_eq!(scan(" b>"), (Err(MissingOpeningTag), Some('b')));
    assert_eq!(scan("<b>"), (ok(F, Text(0), ""), None));
    assert_eq!(scan("<div> "), (ok(F, Container, ""), Some(' ')));
    assert_eq!(scan("</div>X"), (ok(T, Container, ""), Some('X')));
    assert_eq!(scan("</div this will not be read>"), (ok(T, Container, ""), None));
    assert_eq!(scan("<div this will be read>"), (ok(F, Container, "this will be read"), None));
    // `p` opens a text run; its attribute text is folded like any other.
    assert_eq!(
        scan("<p this    will\tnot  have \t\t\n\t that  many\n\n\t whitespace>"),
        (ok(F, Text(0), "this will not have that many whitespace"), None)
    );
}

#[test]
fn tag_names_of_the_dialect() {
    for name in ["html", "body", "div"] {
        assert_eq!(scan(&format!("<{}>", name)).0, ok(false, Container, ""));
        assert_eq!(scan(&format!("</{}>", name)).0, ok(true, Container, ""));
        assert_eq!(ElementType::from_str(name), Ok(Container));
    }
    for name in ["b", "p"] {
        assert_eq!(scan(&format!("<{}>", name)).0, ok(false, Text(0), ""));
        assert_eq!(scan(&format!("</{}>", name)).0, ok(true, Text(0), ""));
        assert_eq!(ElementType::from_str(name), Ok(Text(0)));
    }
}

#[test]
fn tag_name_outside_the_dialect() {
    assert_eq!(scan("<span>x"), (Err(UnimplementedElement), Some('x')));
    assert_eq!(scan("<span class>x"), (Err(UnimplementedElement), Some('c')));
    assert_eq!(scan("</span>x"), (Err(UnimplementedElement), Some('x')));
    assert_eq!(scan("<>x"), (Err(UnimplementedElement), Some('x')));
    assert_eq!(scan("< div>"), (Err(UnimplementedElement), Some('d')));
    assert_eq!(scan("<DIV>"), (Err(UnimplementedElement), None));
    assert_eq!(scan("<div\t>"), (Err(UnimplementedElement), None));
    assert_eq!(scan("<divs"), (Err(UnimplementedElement), None));
    for name in ["", "span", "Div", "htm", "html5", "pp", " p"] {
        assert_eq!(ElementType::from_str(name), Err(UnimplementedElement));
    }
    for other in [
        DOMParseError::UnclosedTag,
        DOMParseError::EmptyDocument,
        DOMParseError::TagUnclosed,
        DOMParseError::UnexpectedClosingTag,
        DOMParseError::UnexpectedChild,
        DOMParseError::UnexpectedSymbol,
        DOMParseError::MissingOpeningTag,
        DOMParseError::UnimplementedEscape,
    ] {
        assert_ne!(UnimplementedElement, other);
    }
}

#[test]
fn tag_without_an_opening_bracket() {
    assert_eq!(scan(""), (Err(MissingOpeningTag), None));
    assert_eq!(scan(">"), (Err(MissingOpeningTag), None));
    assert_eq!(scan("div>"), (Err(MissingOpeningTag), Some('i')));
}

#[test]
fn tag_cut_off_by_the_end() {
    assert_eq!(scan("<"), (Err(TagUnclosed), None));
    assert_eq!(scan_parse_tag("<"), (Err(TagUnclosed), None));
    // Behind the bracket anything decides: the end then closes the tag.
    assert_eq!(scan("<div"), (ok(false, Container, ""), None));
    assert_eq!(scan("<div a  b"), (ok(false, Container, "a b"), None));
    assert_eq!(scan("<div a  "), (ok(false, Container, "a"), None));
    assert_eq!(scan("</"), (Err(UnimplementedElement), None));
    assert_eq!(scan("</p"), (ok(true, Text(0), ""), None));
}

#[test]
fn tag_folds_whitespace_in_attribute_text() {
    assert_eq!(scan("<div a   b>").0, ok(false, Container, "a b"));
    assert_eq!(scan("<div a b>").0, ok(false, Container, "a b"));
    assert_eq!(scan("<div   a\t\tb  >").0, ok(false, Container, "a b"));
    assert_eq!(scan("<div \n>").0, ok(false, Container, ""));
    assert_eq!(scan("<div a=\"x  y\" \u{a0} c>").0, ok(false, Container, "a=\"x y\" c"));
    assert_eq!(scan("<div a<b\\c/>z"), (ok(false, Container, "a<b\\c/"), Some('z')));
}

#[test]
fn tag_folding_again_changes_nothing() {
    for attr in ["a   b", " a\tb ", "x", "", "  ", "a \n b \r c"] {
        let (first, _) = scan(&format!("<div {}>", attr));
        let folded = first.unwrap().2;
        let (second, _) = scan(&format!("<div {}>", folded));
        assert_eq!(second.unwrap().2, folded);
    }
}

#[test]
fn parse_tag_folds_whitespace_in_attribute_text() {
    assert_eq!(scan_parse_tag("<div a   b>x"), (ok(false, Container, "a b"), Some('x')));
    assert_eq!(scan_parse_tag("<div  a\t>"), (ok(false, Container, "a"), None));
    assert_eq!(
        scan_parse_tag("<p this will be read>"),
        (ok(false, Text(0), "this will be read"), None)
    );
    assert_eq!(scan_parse_tag("</div a   b>x"), (ok(true, Container, ""), Some('x')));
}

#[test]
fn parse_tag_reads_as_tag_does() {
    for text in [
        "",
        "<",
        "b>",
        " b>",
        "<b>",
        "<div> ",
        "</div>X",
        "</div this will not be read>",
        "<div this will be read>",
        "<div a   b>",
        "<div \t a\n\nb \r>rest",
        "<span a>",
        "<div",
        "</",
    ] {
        assert_eq!(scan_parse_tag(text), scan(text), "{:?}", text);
    }
}
