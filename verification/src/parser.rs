//! Building the tree: one element with everything below it.

use crate::cursor::Cursor;
use crate::document::Document;
use crate::element::{lemma_element_view, Element, ElementKind, ElementTree, ElementType};
use crate::error::DOMParseError;
use crate::tag::{lemma_scan_tag_rest, lemma_span, scan_tag, span};
use crate::whitespace::{
    count_visible, is_whitespace, lemma_count_visible_front, lemma_trim_start, trim_start,
};
use vstd::prelude::*;

verus! {

/// What reading one element gives, and the text that is left after it.
pub struct Parsed {
    /// The element; `None` where the text gave a closing tag or nothing;
    /// or why the reading failed.
    pub result: Result<Option<ElementTree>, DOMParseError>,
    pub rest: Seq<char>,
}

/// What reading the children of a container gives, and the text that is
/// left after them.
pub struct ParsedChildren {
    pub result: Result<Seq<ElementTree>, DOMParseError>,
    pub rest: Seq<char>,
}

/// The characters at which a text run stops: the `<` of the next tag, and
/// the backslash, which the dialect does not read.
pub open spec fn text_stops() -> Set<char> {
    set!['<', '\\']
}

/// A text run that has `seen` characters already and goes on at the start
/// of `s`.  It takes everything up to the next `<`, which it leaves
/// unread, or up to the end of the text, and counts what is not
/// whitespace.  A backslash in its way fails it.
pub open spec fn text_run(s: Seq<char>, seen: nat) -> Parsed {
    let n = span(s, text_stops());
    if n < s.len() && s[n as int] == '\\' {
        Parsed { result: Err(DOMParseError::UnimplementedEscape), rest: s.skip(n as int) }
    } else {
        Parsed {
            result: Ok(Some(ElementTree::text(seen + count_visible(s.take(n as int))))),
            rest: s.skip(n as int),
        }
    }
}

/// A container with the children `before` and those that `more` adds.
pub open spec fn close_container(
    attr: Seq<char>,
    before: Seq<ElementTree>,
    more: ParsedChildren,
) -> Parsed {
    Parsed {
        result: match more.result {
            Ok(children) => Ok(Some(ElementTree::container(attr, before + children))),
            Err(e) => Err(e),
        },
        rest: more.rest,
    }
}

/// The element at the start of `s`, whitespace before it passed over.
///
///  - An opening tag with a container's name starts a container; its
///    children follow.
///  - An opening tag with the name of a text run starts an empty text run,
///    which the characters that follow fill.  Its attribute text is not
///    kept: a text run carries none.
///  - A closing tag gives `None`: it ends whatever was open around it.
///  - Any other character starts a text run of its own, but for `>` and
///    the backslash, which fail.
///  - At the end of the text there is nothing: `None`.
pub open spec fn element(s: Seq<char>) -> Parsed
    decreases s.len(), 0nat,
{
    let t = trim_start(s);
    if t.len() == 0 {
        Parsed { result: Ok(None), rest: t }
    } else if t[0] == '<' {
        let tag = scan_tag(t);
        match tag.result {
            Err(e) => Parsed { result: Err(e), rest: tag.rest },
            Ok((closing, kind, attr)) => {
                if closing {
                    Parsed { result: Ok(None), rest: tag.rest }
                } else {
                    match kind {
                        ElementType::Text(n) => text_run(tag.rest, n as nat),
                        ElementType::Container => {
                            proof {
                                lemma_trim_start(s);
                                lemma_scan_tag_rest(t);
                            }
                            close_container(attr, Seq::empty(), children(tag.rest))
                        },
                    }
                }
            },
        }
    } else if t[0] == '>' {
        Parsed { result: Err(DOMParseError::UnexpectedClosingTag), rest: t }
    } else if t[0] == '\\' {
        Parsed { result: Err(DOMParseError::UnimplementedEscape), rest: t }
    } else {
        text_run(t.skip(1), 1)
    }
}

/// The children of a container whose opening tag has been read, up to and
/// with the closing tag that ends them, or up to the end of the text.
///
/// Each child begins with a tag.  Between children whitespace is passed
/// over; any other character there fails with `UnexpectedSymbol`, the
/// backslash with `UnimplementedEscape`.  The first failure below fails
/// them all.
///
/// A child that begins with a tag is at least that tag long, so the test
/// on the lengths never fails (`lemma_element_rest`); it is there to show
/// that the definition ends.
pub open spec fn children(s: Seq<char>) -> ParsedChildren
    decreases s.len(), 1nat,
{
    let t = trim_start(s);
    if t.len() == 0 {
        ParsedChildren { result: Ok(Seq::empty()), rest: t }
    } else if t[0] == '<' {
        proof {
            lemma_trim_start(s);
        }
        let first = element(t);
        match first.result {
            Err(e) => ParsedChildren { result: Err(e), rest: first.rest },
            Ok(None) => ParsedChildren { result: Ok(Seq::empty()), rest: first.rest },
            Ok(Some(child)) => {
                if first.rest.len() < t.len() {
                    let more = children(first.rest);
                    ParsedChildren {
                        result: match more.result {
                            Ok(others) => Ok(seq![child] + others),
                            Err(e) => Err(e),
                        },
                        rest: more.rest,
                    }
                } else {
                    ParsedChildren { result: Ok(seq![child]), rest: first.rest }
                }
            },
        }
    } else if t[0] == '\\' {
        ParsedChildren { result: Err(DOMParseError::UnimplementedEscape), rest: t }
    } else {
        ParsedChildren { result: Err(DOMParseError::UnexpectedSymbol), rest: t }
    }
}

/// The model of what the tree builder hands out.
pub open spec fn parsed_view(
    parsed: Result<Option<Element>, DOMParseError>,
) -> Result<Option<ElementTree>, DOMParseError> {
    match parsed {
        Ok(Some(element)) => Ok(Some(element@)),
        Ok(None) => Ok(None),
        Err(e) => Err(e),
    }
}

/// Where the builder stands while it reads: what it goes on to give from
/// the text `s`, with `open` the element that it has begun.
spec fn resume(open: Option<ElementTree>, s: Seq<char>) -> Parsed {
    match open {
        None => element(s),
        Some(e) => match e.kind {
            ElementKind::Text(n) => text_run(s, n),
            ElementKind::Container => close_container(e.attr, e.children, children(s)),
        },
    }
}

/// The model of an element that may be there.
spec fn option_view(element: Option<Element>) -> Option<ElementTree> {
    match element {
        Some(e) => Some(e@),
        None => None,
    }
}

/// A text run takes a character that does not stop it, counts it unless
/// it is whitespace, and goes on behind it.
pub proof fn lemma_text_run_step(s: Seq<char>, seen: nat)
    requires
        s.len() > 0,
        s[0] != '<',
        s[0] != '\\',
    ensures
        text_run(s, seen) == text_run(
            s.skip(1),
            if is_whitespace(s[0]) {
                seen
            } else {
                seen + 1
            },
        ),
{
    reveal_with_fuel(count_visible, 2);
    assert(seq![s[0]].drop_last() =~= Seq::<char>::empty());
    let t = s.skip(1);
    let n = span(t, text_stops()) as int;
    lemma_span(t, text_stops());
    assert(span(s, text_stops()) == n + 1);
    assert(s.skip(n + 1) =~= t.skip(n));
    assert(s.take(n + 1) =~= seq![s[0]] + t.take(n));
    lemma_count_visible_front(s[0], t.take(n));
    if n < t.len() {
        assert(s[n + 1] == t[n]);
    }
}

/// A text run ends where a tag begins, and at the end of the text.
pub proof fn lemma_text_run_stop(s: Seq<char>, seen: nat)
    requires
        s.len() == 0 || s[0] == '<',
    ensures
        text_run(s, seen) == (Parsed { result: Ok(Some(ElementTree::text(seen))), rest: s }),
{
    assert(s.take(0) =~= Seq::<char>::empty());
    assert(s.skip(0) =~= s);
}

/// Reading moves forward only: what is left is never longer than what was
/// there, and an element that begins with a tag takes at least one
/// character.
pub proof fn lemma_element_rest(s: Seq<char>)
    ensures
        element(s).rest.len() <= s.len(),
        trim_start(s).len() > 0 && trim_start(s)[0] == '<' ==> element(s).rest.len() < s.len(),
    decreases s.len(), 0nat,
{
    let t = trim_start(s);
    lemma_trim_start(s);
    if t.len() == 0 {
    } else if t[0] == '<' {
        let tag = scan_tag(t);
        lemma_scan_tag_rest(t);
        match tag.result {
            Err(e) => {},
            Ok((closing, kind, attr)) => {
                if !closing {
                    match kind {
                        ElementType::Text(n) => {
                            lemma_span(tag.rest, text_stops());
                        },
                        ElementType::Container => {
                            lemma_children_rest(tag.rest);
                        },
                    }
                }
            },
        }
    } else if t[0] == '>' {
    } else if t[0] == '\\' {
    } else {
        lemma_span(t.skip(1), text_stops());
    }
}

/// Reading children moves forward only.
pub proof fn lemma_children_rest(s: Seq<char>)
    ensures
        children(s).rest.len() <= s.len(),
    decreases s.len(), 1nat,
{
    let t = trim_start(s);
    lemma_trim_start(s);
    if t.len() > 0 && t[0] == '<' {
        let first = element(t);
        lemma_element_rest(t);
        lemma_trim_start(t);
        if first.result is Ok && first.result->Ok_0 is Some {
            lemma_children_rest(first.rest);
        }
    }
}

/// Every tree that the builder gives is well formed: its text runs, at any
/// depth, have no children and no attribute text.  So what follows a text
/// run is its sibling, never its child.
pub proof fn lemma_element_well_formed(s: Seq<char>)
    ensures
        element(s).result matches Ok(Some(tree)) ==> tree.well_formed(),
    decreases s.len(), 0nat,
{
    let t = trim_start(s);
    lemma_trim_start(s);
    if t.len() > 0 && t[0] == '<' {
        let tag = scan_tag(t);
        lemma_scan_tag_rest(t);
        if tag.result is Ok && !tag.result->Ok_0.0 && tag.result->Ok_0.1 is Container {
            lemma_children_well_formed(tag.rest);
            let more = children(tag.rest);
            if more.result is Ok {
                assert(Seq::<ElementTree>::empty() + more.result->Ok_0 =~= more.result->Ok_0);
            }
        }
    }
}

/// Every child that the builder gives is well formed.
pub proof fn lemma_children_well_formed(s: Seq<char>)
    ensures
        children(s).result matches Ok(trees) ==> forall|i: int|
            0 <= i < trees.len() ==> (#[trigger] trees[i]).well_formed(),
    decreases s.len(), 1nat,
{
    let t = trim_start(s);
    lemma_trim_start(s);
    if t.len() > 0 && t[0] == '<' {
        let first = element(t);
        lemma_element_well_formed(t);
        if first.result is Ok && first.result->Ok_0 is Some && first.rest.len() < t.len() {
            lemma_children_well_formed(first.rest);
        }
    }
}

impl Document {
    /// Reads one element with everything below it.  Whitespace around
    /// children and inside text runs is dropped.  Gives `None` where the
    /// text holds a closing tag or nothing.  The cursor is left behind what
    /// was read: behind the closing tag that ended a container, before the
    /// tag that ended a text run, at the character that failed the reading.
    pub fn parse(iter: &mut Cursor) -> (parsed: Result<Option<Element>, DOMParseError>)
        ensures
            parsed_view(parsed) == element(old(iter).remaining()).result,
            final(iter).remaining() == element(old(iter).remaining()).rest,
            parsed matches Ok(Some(e)) ==> e@.well_formed(),
        decreases old(iter).remaining().len(),
    {
        let ghost text = iter.remaining();
        proof {
            lemma_element_well_formed(text);
        }
        let mut ctx: Option<Element> = None;
        loop
            invariant
                text == old(iter).remaining(),
                element(text).result matches Ok(Some(tree)) ==> tree.well_formed(),
                resume(option_view(ctx), iter.remaining()) == element(text),
                iter.remaining().len() <= text.len(),
                ctx matches Some(e) ==> match e.kind {
                    ElementType::Text(n) => e@ == ElementTree::text(n as nat) && n
                        + iter.remaining().len() <= usize::MAX,
                    ElementType::Container => iter.remaining().len() < text.len(),
                },
            ensures
                parsed_view(Ok(ctx)) == element(text).result,
                iter.remaining() == element(text).rest,
                ctx matches Some(e) ==> e@.well_formed(),
            decreases iter.remaining().len(),
        {
            let ghost here = iter.remaining();
            proof {
                lemma_trim_start(here);
            }
            let letter = match iter.peek() {
                Some(letter) => letter,
                None => {
                    proof {
                        lemma_text_run_stop(here, 0);
                        if ctx is Some {
                            let open = ctx->Some_0@;
                            lemma_text_run_stop(here, open.kind->Text_0);
                            assert(open.children + Seq::<ElementTree>::empty() =~= open.children);
                        }
                    }
                    break ;
                },
            };
            if letter == '<' {
                match ctx {
                    None => {
                        let (closing, kind, attr) = match Document::tag(iter) {
                            Ok(tag) => tag,
                            Err(e) => {
                                return Err(e);
                            },
                        };
                        if closing {
                            return Ok(None);
                        }
                        proof {
                            lemma_scan_tag_rest(here);
                        }
                        let node = match kind {
                            ElementType::Text(_) => Element {
                                kind,
                                children: Vec::new(),
                                attr: String::new(),
                            },
                            ElementType::Container => Element { kind, children: Vec::new(), attr },
                        };
                        assert(node@.children =~= Seq::<ElementTree>::empty());
                        ctx = Some(node);
                    },
                    Some(open) => {
                        match open.kind {
                            ElementType::Text(n) => {
                                proof {
                                    lemma_text_run_stop(here, n as nat);
                                }
                                return Ok(Some(open));
                            },
                            ElementType::Container => {
                                proof {
                                    lemma_element_rest(here);
                                }
                                let child = match Document::parse(iter) {
                                    Ok(Some(child)) => child,
                                    Ok(None) => {
                                        assert(open@.children + Seq::<ElementTree>::empty()
                                            =~= open@.children);
                                        return Ok(Some(open));
                                    },
                                    Err(e) => {
                                        return Err(e);
                                    },
                                };
                                let ghost before = open@;
                                let ghost elder = open.children@;
                                proof {
                                    lemma_element_view(open);
                                }
                                let mut open = open;
                                open.children.push(child);
                                assert(open@.children =~= before.children.push(child@)) by {
                                    lemma_element_view(open);
                                    assert(open.children@ == elder.push(child));
                                }
                                proof {
                                    let more = children(iter.remaining());
                                    if more.result is Ok {
                                        let others = more.result->Ok_0;
                                        assert(before.children + (seq![child@] + others)
                                            =~= before.children.push(child@) + others);
                                    }
                                }
                                ctx = Some(open);
                            },
                        }
                    },
                }
            } else if is_whitespace(letter) {
                proof {
                    if ctx is Some && ctx->Some_0.kind is Text {
                        lemma_text_run_step(here, ctx->Some_0@.kind->Text_0);
                    }
                }
                iter.next();
            } else if letter == '>' && ctx.is_none() {
                return Err(DOMParseError::UnexpectedClosingTag);
            } else if letter == '\\' {
                proof {
                    assert(span(here, text_stops()) == 0);
                    assert(here.skip(0) =~= here);
                }
                return Err(DOMParseError::UnimplementedEscape);
            } else {
                match ctx {
                    None => {
                        iter.next();
                        let node = Element {
                            kind: ElementType::Text(1),
                            children: Vec::new(),
                            attr: String::new(),
                        };
                        assert(node@.children =~= Seq::<ElementTree>::empty());
                        ctx = Some(node);
                    },
                    Some(open) => {
                        match open.kind {
                            ElementType::Text(n) => {
                                proof {
                                    lemma_text_run_step(here, n as nat);
                                            }
                                iter.next();
                                let node = Element {
                                    kind: ElementType::Text(n + 1),
                                    children: open.children,
                                    attr: open.attr,
                                };
                                assert(node@.children =~= Seq::<ElementTree>::empty());
                                ctx = Some(node);
                            },
                            ElementType::Container => {
                                return Err(DOMParseError::UnexpectedSymbol);
                            },
                        }
                    },
                }
            }
        }
        Ok(ctx)
    }

    /// Reads one element with everything below it: `parse` under its other
    /// name.
    pub fn parse_handler(iter: &mut Cursor) -> (parsed: Result<Option<Element>, DOMParseError>)
        ensures
            parsed_view(parsed) == element(old(iter).remaining()).result,
            final(iter).remaining() == element(old(iter).remaining()).rest,
            parsed matches Ok(Some(e)) ==> e@.well_formed(),
    {
        Document::parse(iter)
    }
}

} // verus!
