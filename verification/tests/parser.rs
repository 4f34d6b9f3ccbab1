use html_dom::DOMParseError::{
    TagUnclosed, UnexpectedClosingTag, UnexpectedSymbol, UnimplementedElement, UnimplementedEscape,
};
use html_dom::ElementType::{Container, Text};
use html_dom::{Cursor, DOMParseError, Document, Element};

type Parsed = Result<Option<Element>, DOMParseError>;

fn parse(text: &str) -> Parsed {
    let mut i = Cursor::new(text);
    Document::parse(&mut i)
}

fn parse_handler(text: &str) -> Parsed {
    let mut i = Cursor::new(text);
    Document::parse_handler(&mut i)
}

/// What `parse` gives, and how many characters it left unread.
fn parse_and_rest(text: &str) -> (Parsed, usize) {
    let mut i = Cursor::new(text);
    let parsed = Document::parse(&mut i);
    let mut left = 0;
    while i.next().is_some() {
        left += 1;
    }
    (parsed, left)
}

fn text(count: usize) -> Element {
    Element { kind: Text(count), ..Default::default() }
}

fn container(attr: &str, children: Vec<Element>) -> Element {
    Element { kind: Container, children, attr: attr.to_string() }
}

fn depth(e: &Element) -> usize {
    1 + e.children.iter().map(depth).max().unwrap_or(0)
}

fn text_runs_are_leaves(e: &Element) -> bool {
    let leaf = match e.kind {
        Text(_) => e.children.is_empty() && e.attr.is_empty(),
        Container => true,
    };
    leaf && e.children.iter().all(text_runs_are_leaves)
}

#[test]
fn parsing() {
    assert_eq!(parse("<p>OO</p>"), Ok(Some(Element { kind: Text(2), ..Default::default() })));
    assert_eq!(
        parse("<div><p></p></div>"),
        Ok(Some(Element {
            kind: Container,
            children: vec![Element { kind: Text(0), ..Default::default() }],
            ..Default::default()
        }))
    );
    assert_eq!(
        parse("<div some  attributes\t\n></div>"),
        Ok(Some(Element {
            kind: Container,
            attr: "some attributes".to_string(),
            ..Default::default()
        }))
    );

    // A text run ends before the next tag, whatever that tag is, and a
    // closing tag ends the container around it, whatever its name.
    assert_eq!(parse("<p><div></div></p>"), Ok(Some(text(0))));
    assert_eq!(parse("<div><p></div></p>"), Ok(Some(container("", vec![text(0)]))));
}

#[test]
fn single_containers() {
    for name in ["html", "body", "div"] {
        let parsed = parse(&format!("<{0}></{0}>", name));
        assert_eq!(parsed, Ok(Some(container("", vec![]))));
    }
}

#[test]
fn text_tags_count_their_characters() {
    for name in ["b", "p"] {
        for run in ["", "x", "OO", "Hello", "a>b/c=d", "日本語"] {
            let parsed = parse(&format!("<{0}>{1}</{0}>", name, run));
            assert_eq!(parsed, Ok(Some(text(run.chars().count()))));
        }
    }
}

#[test]
fn nesting_depth() {
    for k in 1..=40usize {
        let document = format!("{}{}", "<div>".repeat(k), "</div>".repeat(k));
        let (parsed, left) = parse_and_rest(&document);
        let root = parsed.unwrap().unwrap();
        assert_eq!(depth(&root), k);
        assert_eq!(left, 0);
    }
}

#[test]
fn text_and_the_tag_behind_it_are_siblings() {
    let parsed = parse("<body><p>Hello<div><p>World</div></body>");
    assert_eq!(
        parsed,
        Ok(Some(container("", vec![text(5), container("", vec![text(5)])])))
    );
    assert!(text_runs_are_leaves(&parsed.unwrap().unwrap()));
}

#[test]
fn text_directly_inside_a_container() {
    assert_eq!(parse_and_rest("<body>Hello<div>World</div></body>"), (Err(UnexpectedSymbol), 28));
    assert_eq!(parse("<div>O</div>"), Err(UnexpectedSymbol));
    assert_eq!(parse("<div>></div>"), Err(UnexpectedSymbol));
    assert_eq!(parse("<div><div>x"), Err(UnexpectedSymbol));
}

#[test]
fn nothing_to_parse() {
    assert_eq!(parse(""), Ok(None));
    assert_eq!(parse(" \n\t "), Ok(None));
    assert_eq!(parse_and_rest("</div>"), (Ok(None), 0));
    assert_eq!(parse_and_rest("  </div><div>"), (Ok(None), 5));
}

#[test]
fn bare_text_is_a_text_run() {
    assert_eq!(parse("Hello world"), Ok(Some(text(10))));
    assert_eq!(parse_and_rest("  Hi <p>"), (Ok(Some(text(2))), 3));
    assert_eq!(parse("x>y"), Ok(Some(text(3))));
}

#[test]
fn whitespace_is_dropped() {
    assert_eq!(parse("<p> O \n O\t</p>"), Ok(Some(text(2))));
    assert_eq!(
        parse(" <div> <p> a \n <div> </div> </div> "),
        Ok(Some(container("", vec![text(1), container("", vec![])])))
    );
}

#[test]
fn closing_bracket_with_nothing_open() {
    assert_eq!(parse_and_rest(">"), (Err(UnexpectedClosingTag), 1));
    assert_eq!(parse_and_rest("  > x"), (Err(UnexpectedClosingTag), 3));
}

#[test]
fn escapes_are_outside_the_dialect() {
    assert_eq!(parse_and_rest("\\n"), (Err(UnimplementedEscape), 2));
    assert_eq!(parse("<p>a\\b</p>"), Err(UnimplementedEscape));
    assert_eq!(parse("<div>\\</div>"), Err(UnimplementedEscape));
    // Inside a tag a backslash is attribute text.
    assert_eq!(parse("<div a\\b>"), Ok(Some(container("a\\b", vec![]))));
}

#[test]
fn failures_below_fail_the_whole() {
    assert_eq!(parse("<div><span></span></div>"), Err(UnimplementedElement));
    assert_eq!(parse("<div><div><"), Err(TagUnclosed));
    assert_eq!(parse("<div><p>x<div>y</div></div>"), Err(UnexpectedSymbol));
}

#[test]
fn the_end_closes_what_is_open() {
    assert_eq!(parse("<div>"), Ok(Some(container("", vec![]))));
    assert_eq!(parse("<div><div><p>abc"), Ok(Some(container("", vec![container("", vec![text(3)])]))));
    assert_eq!(parse("<p"), Ok(Some(text(0))));
}

#[test]
fn text_runs_carry_no_attribute_text() {
    assert_eq!(parse("<p class>ab</p>"), Ok(Some(text(2))));
    assert_eq!(parse("<div><b x y></b></div>"), Ok(Some(container("", vec![text(0)]))));
}

#[test]
fn the_closing_tag_of_a_text_run_closes_its_parent() {
    assert_eq!(
        parse_and_rest("<div><p>x</p><div></div></div>"),
        (Ok(Some(container("", vec![text(1)]))), 17)
    );
}

#[test]
fn only_the_first_element_is_read() {
    assert_eq!(parse_and_rest("<div></div><div></div>"), (Ok(Some(container("", vec![]))), 11));
    assert_eq!(parse_and_rest("<p>ab</p>"), (Ok(Some(text(2))), 4));
}

#[test]
fn parse_handler_drops_whitespace() {
    assert_eq!(parse_handler("<p>O O</p>"), Ok(Some(text(2))));
    assert_eq!(parse_handler("<p> O \n O\t</p>"), Ok(Some(text(2))));
    assert_eq!(parse_handler("<div> <p></p></div>"), Ok(Some(container("", vec![text(0)]))));
    assert_eq!(parse_handler("<div a   b></div>"), Ok(Some(container("a b", vec![]))));
    assert_eq!(parse_handler("  x y"), Ok(Some(text(2))));
}

#[test]
fn parse_handler_reads_as_parse_does() {
    for document in [
        "",
        " \n",
        "</div>",
        ">",
        "\\",
        "<",
        "<span>",
        "<p>OO</p>",
        "<p>O O</p>",
        "<p class>ab</p>",
        "<p>a\\b</p>",
        "<div><p></p></div>",
        "<div some  attributes\t\n></div>",
        "<div>O</div>",
        "<div> <p> a <div> </div> </div> ",
        "<body><p>Hello<div><p>World</div></body>",
        "<div></div><div></div>",
    ] {
        let mut i = Cursor::new(document);
        let by_handler = Document::parse_handler(&mut i);
        let left = i.peek();
        let mut j = Cursor::new(document);
        let by_parse = Document::parse(&mut j);
        assert_eq!(by_handler, by_parse, "{:?}", document);
        assert_eq!(left, j.peek(), "{:?}", document);
    }
}
