//! Reading one tag: from its `<` through its `>`.

use crate::cursor::{rest_of, Cursor};
use crate::document::Document;
use crate::element::{resolve_name, ElementType};
use crate::error::DOMParseError;
use crate::skip_spaces::skip_spaces;
use crate::whitespace::{
    fold_spaces, is_whitespace, lemma_fold_spaces_trailing, lemma_leading_whitespace,
    leading_whitespace,
};
use vstd::prelude::*;

verus! {

/// What reading a tag gives, and the text that is left after it.
pub struct TagScan {
    /// Whether the tag closes, what its name stands for, and its attribute
    /// text; or why there is no tag.
    pub result: Result<(bool, ElementType, Seq<char>), DOMParseError>,
    pub rest: Seq<char>,
}

/// The characters at which a tag's name ends: a space, or the tag's end.
pub open spec fn name_stops() -> Set<char> {
    set![' ', '>']
}

/// The character at which a tag ends.
pub open spec fn tag_stops() -> Set<char> {
    set!['>']
}

/// The length of the longest prefix of `s` that holds no character of
/// `stops`.
pub open spec fn span(s: Seq<char>, stops: Set<char>) -> nat
    decreases s.len(),
{
    if s.len() == 0 || stops.contains(s[0]) {
        0
    } else {
        1 + span(s.skip(1), stops)
    }
}

/// The attribute text that a tag carries, given what stands between its
/// name and its end: that text with its whitespace folded.  A closing tag
/// carries none.
pub open spec fn attribute_text(between: Seq<char>, closing: bool) -> Seq<char> {
    if closing {
        Seq::empty()
    } else {
        fold_spaces(between)
    }
}

/// Reading a tag's inside: `body` begins behind the `<`, and behind the
/// `/` of a closing tag.  The name runs up to the first space or `>`, the
/// tag up to the first `>`, and the end of the text ends both.  A name
/// outside the dialect stops the reading right behind the name and the
/// character that ends it.
pub open spec fn scan_body(body: Seq<char>, closing: bool) -> TagScan {
    let name_len = span(body, name_stops());
    let end = span(body, tag_stops());
    match resolve_name(body.take(name_len as int)) {
        Err(e) => TagScan { result: Err(e), rest: rest_of(body.skip(name_len as int)) },
        Ok(kind) => TagScan {
            result: Ok(
                (
                    closing,
                    kind,
                    if name_len < end {
                        attribute_text(body.subrange(name_len as int + 1, end as int), closing)
                    } else {
                        Seq::empty()
                    },
                ),
            ),
            rest: rest_of(body.skip(end as int)),
        },
    }
}

/// Reading a tag at the start of `text`.
pub open spec fn scan_tag(text: Seq<char>) -> TagScan {
    if text.len() == 0 || text[0] != '<' {
        TagScan { result: Err(DOMParseError::MissingOpeningTag), rest: rest_of(text) }
    } else if text.len() == 1 {
        TagScan { result: Err(DOMParseError::TagUnclosed), rest: text.skip(1) }
    } else if text[1] == '/' {
        scan_body(text.skip(2), true)
    } else {
        scan_body(text.skip(1), false)
    }
}

/// The model of what the tag scanner hands out.
pub open spec fn tag_view(
    tag: Result<(bool, ElementType, String), DOMParseError>,
) -> Result<(bool, ElementType, Seq<char>), DOMParseError> {
    match tag {
        Ok((closing, kind, attr)) => Ok((closing, kind, attr@)),
        Err(e) => Err(e),
    }
}

/// `span` is the place of the first character at which `stop` is true, or
/// the length of `s` where there is none.
pub proof fn lemma_span(s: Seq<char>, stops: Set<char>)
    ensures
        span(s, stops) <= s.len(),
        forall|i: int| 0 <= i < span(s, stops) ==> !stops.contains(#[trigger] s[i]),
        span(s, stops) < s.len() ==> stops.contains(s[span(s, stops) as int]),
    decreases s.len(),
{
    if !(s.len() == 0 || stops.contains(s[0])) {
        let t = s.skip(1);
        lemma_span(t, stops);
        assert forall|i: int| 0 <= i < span(s, stops) implies !stops.contains(#[trigger] s[i]) by {
            if i > 0 {
                assert(s[i] == t[i - 1]);
            }
        }
        if span(s, stops) < s.len() {
            assert(s[span(s, stops) as int] == t[span(t, stops) as int]);
        }
    }
}

/// A prefix without a stop, followed by the end or by a stop, is the span.
pub proof fn lemma_span_is(s: Seq<char>, stops: Set<char>, n: nat)
    requires
        n <= s.len(),
        forall|i: int| 0 <= i < n ==> !stops.contains(#[trigger] s[i]),
        n < s.len() ==> stops.contains(s[n as int]),
    ensures
        span(s, stops) == n,
    decreases n,
{
    if n > 0 {
        let t = s.skip(1);
        assert(!stops.contains(s[0]));
        assert forall|i: int| 0 <= i < n - 1 implies !stops.contains(#[trigger] t[i]) by {
            assert(t[i] == s[i + 1]);
        }
        lemma_span_is(t, stops, (n - 1) as nat);
    }
}

/// A tag is at least its `<`, and no longer than the text.
pub proof fn lemma_scan_tag_rest(text: Seq<char>)
    ensures
        scan_tag(text).rest.len() <= text.len(),
        text.len() > 0 ==> scan_tag(text).rest.len() < text.len(),
{
    if text.len() >= 2 && text[0] == '<' {
        let body = if text[1] == '/' {
            text.skip(2)
        } else {
            text.skip(1)
        };
        lemma_span(body, name_stops());
        lemma_span(body, tag_stops());
    }
}

impl Document {
    /// Reads the tag that the cursor stands at.  Gives whether the tag
    /// closes, what its name stands for, and its attribute text with the
    /// whitespace folded.  The cursor is left behind the tag's `>`, or at
    /// the end where the text ends first.  Where the cursor does not stand
    /// at a `<`, one character is read and the reading fails with
    /// `MissingOpeningTag`.
    pub fn tag(iter: &mut Cursor) -> (tag: Result<(bool, ElementType, String), DOMParseError>)
        ensures
            tag_view(tag) == scan_tag(old(iter).remaining()).result,
            final(iter).remaining() == scan_tag(old(iter).remaining()).rest,
    {
        let ghost text = iter.remaining();
        match iter.next() {
            Some(c) => {
                if c != '<' {
                    return Err(DOMParseError::MissingOpeningTag);
                }
            },
            None => {
                return Err(DOMParseError::MissingOpeningTag);
            },
        }
        let closing = match iter.peek() {
            Some(c) => c == '/',
            None => {
                return Err(DOMParseError::TagUnclosed);
            },
        };
        if closing {
            iter.next();
        }
        let ghost body = iter.remaining();
        assert(body == if closing {
            text.skip(2)
        } else {
            text.skip(1)
        }) by {
            assert(text.skip(1).skip(1) =~= text.skip(2));
        }

        let mut tag_name = String::new();
        let mut attr = String::new();
        let mut tag: Option<ElementType> = None;
        // Whether whitespace has been passed since the last character of `attr`.
        let mut pending = false;
        let ghost mut k: int = 0;
        let ghost mut n: int = 0;
        assert(body.take(0) =~= tag_name@);
        loop
            invariant_except_break
                0 <= k <= body.len(),
                iter.remaining() == body.skip(k),
                forall|i: int| 0 <= i < k ==> body[i] != '>',
                tag is None ==> {
                    &&& tag_name@ == body.take(k)
                    &&& forall|i: int| 0 <= i < k ==> body[i] != ' '
                    &&& attr@.len() == 0
                    &&& !pending
                },
                tag matches Some(kind) ==> {
                    &&& 0 <= n < k
                    &&& span(body, name_stops()) == n
                    &&& resolve_name(body.take(n)) == Ok::<ElementType, DOMParseError>(kind)
                    &&& attr@ == attribute_text(body.subrange(n + 1, k), closing)
                    &&& pending == (!closing && attr@.len() > 0 && is_whitespace(body[k - 1]))
                },
            invariant
                scan_tag(old(iter).remaining()) == scan_body(body, closing),
            ensures
                0 <= k <= body.len(),
                span(body, tag_stops()) == k,
                iter.remaining() == rest_of(body.skip(k)),
                tag is None ==> tag_name@ == body.take(k) && span(body, name_stops()) == k
                    && attr@.len() == 0,
                tag matches Some(kind) ==> {
                    &&& 0 <= n < k
                    &&& span(body, name_stops()) == n
                    &&& resolve_name(body.take(n)) == Ok::<ElementType, DOMParseError>(kind)
                    &&& attr@ == attribute_text(body.subrange(n + 1, k), closing)
                },
            decreases iter.remaining().len(),
        {
            let letter = match iter.next() {
                Some(letter) => letter,
                None => {
                    proof {
                        lemma_span_is(body, tag_stops(), k as nat);
                        if tag is None {
                            lemma_span_is(body, name_stops(), k as nat);
                        }
                    }
                    break ;
                },
            };
            assert(letter == body[k]);
            assert(iter.remaining() == body.skip(k + 1)) by {
                assert(body.skip(k).skip(1) =~= body.skip(k + 1));
            }
            if letter == '>' {
                proof {
                    lemma_span_is(body, tag_stops(), k as nat);
                    if tag is None {
                        lemma_span_is(body, name_stops(), k as nat);
                    }
                }
                break ;
            }
            assert(body.take(k + 1) =~= body.take(k).push(letter));
            match tag {
                None => {
                    if letter == ' ' {
                        proof {
                            lemma_span_is(body, name_stops(), k as nat);
                            n = k;
                        }
                        match ElementType::from_str(tag_name.as_str()) {
                            Ok(kind) => {
                                tag = Some(kind);
                            },
                            Err(e) => {
                                return Err(e);
                            },
                        }
                        assert(body.subrange(n + 1, k + 1) =~= Seq::<char>::empty());
                    } else {
                        tag_name.push(letter);
                    }
                    proof {
                        k = k + 1;
                    }
                },
                Some(_) => {
                    assert(body.subrange(n + 1, k + 1).drop_last() =~= body.subrange(n + 1, k));
                    if closing {
                        proof {
                            k = k + 1;
                        }
                    } else if is_whitespace(letter) {
                        skip_spaces(iter);
                        pending = !attr.as_str().is_empty();
                        proof {
                            let after = body.skip(k + 1);
                            let m = leading_whitespace(after);
                            lemma_leading_whitespace(after);
                            assert(after.skip(m as int) =~= body.skip(k + 1 + m));
                            assert forall|i: int| k <= i < k + 1 + m implies is_whitespace(
                                #[trigger] body[i],
                            ) by {
                                if i > k {
                                    assert(body[i] == after[i - k - 1]);
                                }
                            }
                            let wide = body.subrange(n + 1, k + 1 + m);
                            lemma_fold_spaces_trailing(wide, (k - n - 1) as nat);
                            assert(wide.take(k - n - 1) =~= body.subrange(n + 1, k));
                            k = k + 1 + m;
                        }
                    } else {
                        if pending {
                            attr.push(' ');
                            pending = false;
                        }
                        attr.push(letter);
                        proof {
                            k = k + 1;
                        }
                    }
                },
            }
        }
        match tag {
            Some(kind) => Ok((closing, kind, attr)),
            None => {
                match ElementType::from_str(tag_name.as_str()) {
                    Ok(kind) => {
                        assert(attr@ =~= Seq::<char>::empty());
                        Ok((closing, kind, attr))
                    },
                    Err(e) => Err(e),
                }
            },
        }
    }

    /// Reads the tag that the cursor stands at: `tag` under its other name.
    pub fn parse_tag(iter: &mut Cursor) -> (tag: Result<
        (bool, ElementType, String),
        DOMParseError,
    >)
        ensures
            tag_view(tag) == scan_tag(old(iter).remaining()).result,
            final(iter).remaining() == scan_tag(old(iter).remaining()).rest,
    {
        Document::tag(iter)
    }
}

} // verus!
