//! What holds of every text: laws of the scanner and of the tree builder,
//! stated over the functions that their contracts use.

use crate::cursor::rest_of;
use crate::document::{document_of, DocumentTree};
use crate::element::{resolve_name, ElementTree, ElementType};
use crate::error::DOMParseError;
use crate::parser::{children, element, text_stops, Parsed, ParsedChildren};
use crate::tag::{
    attribute_text, lemma_scan_tag_rest, lemma_span, lemma_span_is, name_stops, scan_body,
    scan_tag, span, tag_stops, TagScan,
};
use crate::whitespace::{
    count_visible, fold_spaces, is_whitespace, lemma_leading_whitespace, lemma_trim_start,
    trim_start, visible,
};
use vstd::prelude::*;

verus! {

/// The opening tag with the name `name` and no attribute text.
pub open spec fn open_tag(name: Seq<char>) -> Seq<char> {
    seq!['<'] + name + seq!['>']
}

/// The closing tag with the name `name`.
pub open spec fn close_tag(name: Seq<char>) -> Seq<char> {
    seq!['<', '/'] + name + seq!['>']
}

/// A name that a tag can carry as it stands: no space and no `>` in it,
/// and no `/` in front.
pub open spec fn plain_name(name: Seq<char>) -> bool {
    &&& forall|i: int| 0 <= i < name.len() ==> name[i] != ' ' && name[i] != '>'
    &&& name.len() > 0 ==> name[0] != '/'
}

/// The names of the dialect are plain.
pub proof fn lemma_names_of_the_dialect(name: Seq<char>)
    requires
        resolve_name(name) is Ok,
    ensures
        plain_name(name),
        name.len() > 0,
{
    reveal_strlit("html");
    reveal_strlit("body");
    reveal_strlit("div");
    reveal_strlit("b");
    reveal_strlit("p");
}

/// What the scanner makes of a name: the tag, or the name's refusal.
pub open spec fn named(name: Seq<char>, closing: bool) -> Result<
    (bool, ElementType, Seq<char>),
    DOMParseError,
> {
    match resolve_name(name) {
        Ok(kind) => Ok((closing, kind, Seq::empty())),
        Err(e) => Err(e),
    }
}

/// An opening tag without attribute text is read up to its `>`, and gives
/// what its name stands for.
pub proof fn lemma_scan_open_tag(name: Seq<char>, rest: Seq<char>)
    requires
        plain_name(name),
    ensures
        scan_tag(open_tag(name) + rest) == (TagScan { result: named(name, false), rest }),
{
    let text = open_tag(name) + rest;
    let body = text.skip(1);
    assert(body =~= name + seq!['>'] + rest);
    lemma_scan_plain_body(body, name, rest, false);
}

/// A closing tag is read up to its `>`, and gives what its name stands for.
pub proof fn lemma_scan_close_tag(name: Seq<char>, rest: Seq<char>)
    requires
        plain_name(name),
    ensures
        scan_tag(close_tag(name) + rest) == (TagScan { result: named(name, true), rest }),
{
    let text = close_tag(name) + rest;
    let body = text.skip(2);
    assert(body =~= name + seq!['>'] + rest);
    lemma_scan_plain_body(body, name, rest, true);
}

proof fn lemma_scan_plain_body(
    body: Seq<char>,
    name: Seq<char>,
    rest: Seq<char>,
    closing: bool,
)
    requires
        plain_name(name),
        body == name + seq!['>'] + rest,
    ensures
        scan_body(body, closing) == (TagScan { result: named(name, closing), rest }),
{
    let n = name.len();
    assert forall|i: int| 0 <= i < n implies !name_stops().contains(#[trigger] body[i]) by {
        assert(body[i] == name[i]);
    }
    assert forall|i: int| 0 <= i < n implies !tag_stops().contains(#[trigger] body[i]) by {
        assert(body[i] == name[i]);
    }
    assert(body[n as int] == '>');
    lemma_span_is(body, name_stops(), n);
    lemma_span_is(body, tag_stops(), n);
    assert(body.take(n as int) =~= name);
    assert(body.skip(n as int).skip(1) =~= rest);
}

/// The opening tag with the name `name` and, behind the space that ends the
/// name, `between`.
pub open spec fn open_tag_with(name: Seq<char>, between: Seq<char>) -> Seq<char> {
    seq!['<'] + name + seq![' '] + between + seq!['>']
}

/// An opening tag is read up to its first `>`.  What stands between the
/// space behind its name and that `>`, with its whitespace folded, is its
/// attribute text.
pub proof fn lemma_scan_open_tag_with(
    name: Seq<char>,
    between: Seq<char>,
    rest: Seq<char>,
)
    requires
        resolve_name(name) is Ok,
        forall|i: int| 0 <= i < between.len() ==> between[i] != '>',
    ensures
        scan_tag(open_tag_with(name, between) + rest) == (TagScan {
            result: Ok((false, resolve_name(name)->Ok_0, attribute_text(between, false))),
            rest,
        }),
{
    lemma_names_of_the_dialect(name);
    let text = open_tag_with(name, between) + rest;
    let body = text.skip(1);
    let n = name.len();
    let end = n + 1 + between.len();
    assert(body =~= name + seq![' '] + between + seq!['>'] + rest);
    assert forall|i: int| 0 <= i < n implies !name_stops().contains(#[trigger] body[i]) by {
        assert(body[i] == name[i]);
    }
    assert(body[n as int] == ' ');
    assert forall|i: int| 0 <= i < end implies !tag_stops().contains(#[trigger] body[i]) by {
        if i < n {
            assert(body[i] == name[i]);
        } else if i > n {
            assert(body[i] == between[i - n - 1]);
        }
    }
    assert(body[end as int] == '>');
    lemma_span_is(body, name_stops(), n);
    lemma_span_is(body, tag_stops(), end);
    assert(body.take(n as int) =~= name);
    assert(body.subrange(n as int + 1, end as int) =~= between);
    assert(body.skip(end as int).skip(1) =~= rest);
}

/// Folding puts in spaces and nothing else: a character that is no space
/// and does not stand in a text does not stand in its folded form.
pub proof fn lemma_fold_spaces_adds_spaces_only(s: Seq<char>, c: char)
    requires
        c != ' ',
        forall|i: int| 0 <= i < s.len() ==> #[trigger] s[i] != c,
    ensures
        forall|i: int| 0 <= i < fold_spaces(s).len() ==> #[trigger] fold_spaces(s)[i] != c,
    decreases s.len(),
{
    if s.len() > 0 {
        let before = fold_spaces(s.drop_last());
        lemma_fold_spaces_adds_spaces_only(s.drop_last(), c);
        assert(s.last() != c);
        assert forall|i: int| 0 <= i < fold_spaces(s).len() implies #[trigger] fold_spaces(s)[i]
            != c by {
            if i < before.len() {
                assert(fold_spaces(s)[i] == before[i]);
            }
        }
    }
}

/// A tag whose attribute text is folded already gives the tag that the
/// text before folding gives: `<div a   b>` and `<div a b>` read alike.
pub proof fn lemma_folded_attribute_text(
    name: Seq<char>,
    between: Seq<char>,
    rest: Seq<char>,
)
    requires
        resolve_name(name) is Ok,
        forall|i: int| 0 <= i < between.len() ==> between[i] != '>',
    ensures
        scan_tag(open_tag_with(name, fold_spaces(between)) + rest)
            == scan_tag(open_tag_with(name, between) + rest),
{
    lemma_fold_spaces_adds_spaces_only(between, '>');
    lemma_fold_spaces_idempotent(between);
    lemma_scan_open_tag_with(name, between, rest);
    lemma_scan_open_tag_with(name, fold_spaces(between), rest);
}

/// A closing tag is no element: where one stands first, there is nothing
/// to hand out, and the tag is read.
pub proof fn lemma_closing_tag_is_no_element(name: Seq<char>, rest: Seq<char>)
    requires
        resolve_name(name) is Ok,
    ensures
        element(close_tag(name) + rest) == (Parsed { result: Ok(None), rest }),
        children(close_tag(name) + rest) == (ParsedChildren { result: Ok(Seq::empty()), rest }),
        document_of(close_tag(name) + rest) == Err::<DocumentTree, DOMParseError>(
            DOMParseError::EmptyDocument,
        ),
{
    let text = close_tag(name) + rest;
    lemma_names_of_the_dialect(name);
    lemma_scan_close_tag(name, rest);
    assert(text[0] == '<');
    lemma_trim_start(text);
}

/// An empty text holds no document.
pub proof fn lemma_empty_document()
    ensures
        document_of(Seq::empty()) == Err::<DocumentTree, DOMParseError>(DOMParseError::EmptyDocument),
{
    lemma_trim_start(Seq::<char>::empty());
}

/// A tag with a name outside the dialect fails the reading, with an error
/// of its own, wherever the builder comes upon it first.
pub proof fn lemma_unknown_name_fails(name: Seq<char>, rest: Seq<char>)
    requires
        plain_name(name),
        resolve_name(name) is Err,
    ensures
        element(open_tag(name) + rest) == (Parsed {
            result: Err(DOMParseError::UnimplementedElement),
            rest,
        }),
        document_of(open_tag(name) + rest) == Err::<DocumentTree, DOMParseError>(
            DOMParseError::UnimplementedElement,
        ),
{
    let text = open_tag(name) + rest;
    lemma_scan_open_tag(name, rest);
    assert(text[0] == '<');
    lemma_trim_start(text);
}

/// A container that is opened and closed at once has no children and no
/// attribute text.
pub proof fn lemma_single_container(name: Seq<char>)
    requires
        resolve_name(name) == Ok::<ElementType, DOMParseError>(ElementType::Container),
    ensures
        element(open_tag(name) + close_tag(name)) == (Parsed {
            result: Ok(Some(ElementTree::container(Seq::empty(), Seq::empty()))),
            rest: Seq::empty(),
        }),
{
    let text = open_tag(name) + close_tag(name);
    lemma_names_of_the_dialect(name);
    lemma_scan_open_tag(name, close_tag(name));
    assert(text[0] == '<');
    lemma_trim_start(text);
    lemma_closing_tag_is_no_element(name, Seq::empty());
    assert(close_tag(name) + Seq::<char>::empty() =~= close_tag(name));
    assert(Seq::<ElementTree>::empty() + Seq::<ElementTree>::empty() =~= Seq::<
        ElementTree,
    >::empty());
}

/// What a text run may hold between its tags: no `<` and no backslash.
pub open spec fn plain_run(run: Seq<char>) -> bool {
    forall|i: int| 0 <= i < run.len() ==> run[i] != '<' && run[i] != '\\'
}

/// A text run between the tags of a text-bearing name counts its
/// characters that are not whitespace.  Its closing tag is left unread.
pub proof fn lemma_text_tag_counts(name: Seq<char>, run: Seq<char>)
    requires
        resolve_name(name) == Ok::<ElementType, DOMParseError>(ElementType::Text(0)),
        plain_run(run),
    ensures
        element(open_tag(name) + run + close_tag(name)) == (Parsed {
            result: Ok(Some(ElementTree::text(count_visible(run)))),
            rest: close_tag(name),
        }),
{
    lemma_names_of_the_dialect(name);
    assert(close_tag(name)[0] == '<');
    lemma_text_run_has_siblings(name, run, close_tag(name));
}

/// What follows a text run is its sibling: inside a container, a text
/// run and the element behind it are two children, one after the other.
/// The tag that begins that element ends the run and is not read by it.
pub proof fn lemma_text_run_has_siblings(
    name: Seq<char>,
    run: Seq<char>,
    rest: Seq<char>,
)
    requires
        resolve_name(name) == Ok::<ElementType, DOMParseError>(ElementType::Text(0)),
        plain_run(run),
        rest.len() > 0 && rest[0] == '<',
    ensures
        element(open_tag(name) + run + rest) == (Parsed {
            result: Ok(Some(ElementTree::text(count_visible(run)))),
            rest,
        }),
        children(open_tag(name) + run + rest) == (ParsedChildren {
            result: match children(rest).result {
                Ok(others) => Ok(seq![ElementTree::text(count_visible(run))] + others),
                Err(e) => Err(e),
            },
            rest: children(rest).rest,
        }),
{
    let text = open_tag(name) + run + rest;
    let after = run + rest;
    lemma_names_of_the_dialect(name);
    assert(text =~= open_tag(name) + after);
    lemma_scan_open_tag(name, after);
    assert(text[0] == '<');
    lemma_trim_start(text);
    let n = run.len();
    assert forall|i: int| 0 <= i < n implies !text_stops().contains(#[trigger] after[i]) by {
        assert(after[i] == run[i]);
    }
    assert(after[n as int] == '<');
    lemma_span_is(after, text_stops(), n);
    assert(after.take(n as int) =~= run);
    assert(after.skip(n as int) =~= rest);
}

/// A text run of `k` characters, none of them whitespace, between the tags
/// of a text-bearing name gives `Text(k)`.
pub proof fn lemma_text_tag_counts_run(name: Seq<char>, run: Seq<char>)
    requires
        resolve_name(name) == Ok::<ElementType, DOMParseError>(ElementType::Text(0)),
        plain_run(run),
        forall|i: int| 0 <= i < run.len() ==> !is_whitespace(run[i]),
    ensures
        element(open_tag(name) + run + close_tag(name)).result == Ok::<
            Option<ElementTree>,
            DOMParseError,
        >(Some(ElementTree::text(run.len()))),
{
    lemma_text_tag_counts(name, run);
    lemma_count_visible_without_whitespace(run);
}

/// A run without whitespace is counted in full.
pub proof fn lemma_count_visible_without_whitespace(run: Seq<char>)
    requires
        forall|i: int| 0 <= i < run.len() ==> !is_whitespace(run[i]),
    ensures
        count_visible(run) == run.len(),
    decreases run.len(),
{
    if run.len() > 0 {
        lemma_count_visible_without_whitespace(run.drop_last());
    }
}

/// `k` elements of the name `name`, each inside the one before.
pub open spec fn nested(name: Seq<char>, k: nat) -> Seq<char>
    decreases k,
{
    if k == 0 {
        Seq::empty()
    } else {
        open_tag(name) + nested(name, (k - 1) as nat) + close_tag(name)
    }
}

/// A container that holds a container, and so on, `k` of them in all; the
/// innermost is empty.
pub open spec fn chain(k: nat) -> ElementTree
    decreases k,
{
    if k <= 1 {
        ElementTree::container(Seq::empty(), Seq::empty())
    } else {
        ElementTree::container(Seq::empty(), seq![chain((k - 1) as nat)])
    }
}

/// A chain of `k` containers is `k` deep.
pub proof fn lemma_chain_depth(k: nat)
    requires
        k >= 1,
    ensures
        chain(k).depth() == k,
    decreases k,
{
    let none = Seq::<ElementTree>::empty();
    assert(ElementTree::deepest(none) == 0);
    if k > 1 {
        let inner = chain((k - 1) as nat);
        lemma_chain_depth((k - 1) as nat);
        assert(seq![inner].drop_last() =~= none);
        assert(seq![inner].last() == inner);
        assert(ElementTree::deepest(seq![inner]) == inner.depth());
        assert(chain(k).children == seq![inner]);
    } else {
        assert(chain(k).children == none);
    }
}

/// Containers nested `k` deep in the text give containers nested `k` deep
/// in the tree, and what follows them is left unread.
pub proof fn lemma_nested_containers(name: Seq<char>, k: nat, rest: Seq<char>)
    requires
        resolve_name(name) == Ok::<ElementType, DOMParseError>(ElementType::Container),
        k >= 1,
    ensures
        element(nested(name, k) + rest) == (Parsed { result: Ok(Some(chain(k))), rest }),
    decreases k,
{
    let text = nested(name, k) + rest;
    let inner = nested(name, (k - 1) as nat);
    let closed = close_tag(name) + rest;
    let after = inner + closed;
    let none = Seq::<ElementTree>::empty();
    lemma_names_of_the_dialect(name);
    assert(text =~= open_tag(name) + after);
    lemma_scan_open_tag(name, after);
    assert(text[0] == '<');
    lemma_trim_start(text);
    lemma_closing_tag_is_no_element(name, rest);
    if k == 1 {
        assert(after =~= closed);
        assert(none + none =~= none);
    } else {
        let j = (k - 1) as nat;
        lemma_nested_containers(name, j, closed);
        assert(inner =~= open_tag(name) + (nested(name, (j - 1) as nat) + close_tag(name)));
        assert(after[0] == '<');
        lemma_trim_start(after);
        assert(none + (seq![chain(j)] + none) =~= seq![chain(j)]);
    }
}

/// The tree of `k` nested containers is `k` deep.
pub proof fn lemma_nesting_depth(name: Seq<char>, k: nat)
    requires
        resolve_name(name) == Ok::<ElementType, DOMParseError>(ElementType::Container),
        k >= 1,
    ensures
        element(nested(name, k)).result == Ok::<Option<ElementTree>, DOMParseError>(
            Some(chain(k)),
        ),
        chain(k).depth() == k,
{
    lemma_nested_containers(name, k, Seq::empty());
    assert(nested(name, k) + Seq::<char>::empty() =~= nested(name, k));
    lemma_chain_depth(k);
}

/// The end of an end of a text is an end of that text.
pub proof fn lemma_suffix_of_suffix(a: Seq<char>, b: Seq<char>, c: Seq<char>)
    requires
        a.is_suffix_of(b),
        b.is_suffix_of(c),
    ensures
        a.is_suffix_of(c),
{
}

/// Trimming leaves an end of the text.
pub proof fn lemma_trim_start_suffix(s: Seq<char>)
    ensures
        trim_start(s).is_suffix_of(s),
{
    lemma_leading_whitespace(s);
}

/// The scanner reads forward only: what it leaves is an end of the text.
pub proof fn lemma_scan_tag_suffix(text: Seq<char>)
    ensures
        scan_tag(text).rest.is_suffix_of(text),
{
    if text.len() >= 2 && text[0] == '<' {
        let body = if text[1] == '/' {
            text.skip(2)
        } else {
            text.skip(1)
        };
        lemma_span(body, name_stops());
        lemma_span(body, tag_stops());
        let name_len = span(body, name_stops()) as int;
        let end = span(body, tag_stops()) as int;
        assert(rest_of(body.skip(name_len)).is_suffix_of(body));
        assert(rest_of(body.skip(end)).is_suffix_of(body));
        assert(body.is_suffix_of(text));
    }
}

/// The builder reads forward only: what it leaves is an end of the text.
pub proof fn lemma_element_suffix(s: Seq<char>)
    ensures
        element(s).rest.is_suffix_of(s),
    decreases s.len(), 0nat,
{
    let t = trim_start(s);
    lemma_trim_start(s);
    lemma_trim_start_suffix(s);
    if t.len() == 0 {
    } else if t[0] == '<' {
        let tag = scan_tag(t);
        lemma_scan_tag_rest(t);
        lemma_scan_tag_suffix(t);
        lemma_suffix_of_suffix(tag.rest, t, s);
        if tag.result is Ok && !tag.result->Ok_0.0 {
            match tag.result->Ok_0.1 {
                ElementType::Text(n) => {
                    lemma_span(tag.rest, text_stops());
                    lemma_suffix_of_suffix(element(s).rest, tag.rest, s);
                },
                ElementType::Container => {
                    lemma_children_suffix(tag.rest);
                    lemma_suffix_of_suffix(element(s).rest, tag.rest, s);
                },
            }
        }
    } else if t[0] == '>' {
    } else if t[0] == '\\' {
    } else {
        lemma_span(t.skip(1), text_stops());
        assert(element(s).rest.is_suffix_of(t));
    }
}

/// Reading children goes forward only.
pub proof fn lemma_children_suffix(s: Seq<char>)
    ensures
        children(s).rest.is_suffix_of(s),
    decreases s.len(), 1nat,
{
    let t = trim_start(s);
    lemma_trim_start(s);
    lemma_trim_start_suffix(s);
    if t.len() > 0 && t[0] == '<' {
        let first = element(t);
        lemma_element_suffix(t);
        lemma_suffix_of_suffix(first.rest, t, s);
        if first.result is Ok && first.result->Ok_0 is Some && first.rest.len() < t.len() {
            lemma_children_suffix(first.rest);
            lemma_suffix_of_suffix(children(first.rest).rest, first.rest, s);
        }
    }
}

/// Folding leaves no whitespace at the end.
pub proof fn lemma_fold_spaces_ends_visibly(s: Seq<char>)
    ensures
        fold_spaces(s).len() > 0 ==> !is_whitespace(fold_spaces(s).last()),
    decreases s.len(),
{
    if s.len() > 0 {
        lemma_fold_spaces_ends_visibly(s.drop_last());
    }
}

/// Folding keeps what is visible of a text, and its order.
pub proof fn lemma_fold_spaces_keeps_visible(s: Seq<char>)
    ensures
        visible(fold_spaces(s)) == visible(s),
    decreases s.len(),
{
    if s.len() > 0 {
        let t = s.drop_last();
        let c = s.last();
        let folded = fold_spaces(t);
        lemma_fold_spaces_keeps_visible(t);
        if is_whitespace(c) {
        } else if folded.len() > 0 && is_whitespace(s[s.len() - 2]) {
            let spaced = folded.push(' ');
            assert(spaced.push(c).drop_last() =~= spaced);
            assert(spaced.drop_last() =~= folded);
            assert(visible(spaced) == visible(folded));
        } else {
            assert(folded.push(c).drop_last() =~= folded);
        }
    }
}

/// In a folded text whitespace only separates: each whitespace character
/// is one space that stands between two characters that are not
/// whitespace.
pub proof fn lemma_fold_spaces_separates(s: Seq<char>)
    ensures
        forall|i: int|
            0 <= i < fold_spaces(s).len() && is_whitespace(#[trigger] fold_spaces(s)[i]) ==> {
                &&& fold_spaces(s)[i] == ' '
                &&& 0 < i < fold_spaces(s).len() - 1
                &&& !is_whitespace(fold_spaces(s)[i - 1])
                &&& !is_whitespace(fold_spaces(s)[i + 1])
            },
    decreases s.len(),
{
    if s.len() > 0 {
        let t = s.drop_last();
        let before = fold_spaces(t);
        let whole = fold_spaces(s);
        lemma_fold_spaces_separates(t);
        lemma_fold_spaces_ends_visibly(t);
        assert forall|i: int| 0 <= i < whole.len() && is_whitespace(#[trigger] whole[i]) implies {
            &&& whole[i] == ' '
            &&& 0 < i < whole.len() - 1
            &&& !is_whitespace(whole[i - 1])
            &&& !is_whitespace(whole[i + 1])
        } by {
            if i < before.len() {
                assert(whole[i] == before[i]);
                assert(whole[i - 1] == before[i - 1]);
                assert(whole[i + 1] == before[i + 1]);
            }
        }
    }
}

/// Folding a folded text changes nothing.
pub proof fn lemma_fold_spaces_idempotent(s: Seq<char>)
    ensures
        fold_spaces(fold_spaces(s)) == fold_spaces(s),
    decreases s.len(),
{
    if s.len() > 0 {
        let t = s.drop_last();
        let c = s.last();
        let folded = fold_spaces(t);
        lemma_fold_spaces_idempotent(t);
        lemma_fold_spaces_ends_visibly(t);
        if is_whitespace(c) {
        } else if folded.len() > 0 && is_whitespace(s[s.len() - 2]) {
            let spaced = folded.push(' ');
            let whole = spaced.push(c);
            assert(whole.drop_last() =~= spaced);
            assert(spaced.drop_last() =~= folded);
            assert(fold_spaces(spaced) == folded);
            assert(whole[whole.len() - 2] == ' ');
        } else {
            let whole = folded.push(c);
            assert(whole.drop_last() =~= folded);
            if folded.len() > 0 {
                assert(whole[whole.len() - 2] == folded.last());
            }
        }
    }
}

} // verus!
