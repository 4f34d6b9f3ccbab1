//! A forward-only position in a text.

use crate::strings::chars_of;
use vstd::prelude::*;

verus! {

/// A text and a place in it.  Reading moves the place towards the end and
/// never back; what lies before it is out of reach.
pub struct Cursor {
    chars: Vec<char>,
    pos: usize,
}

impl Cursor {
    #[verifier::type_invariant]
    spec fn in_bounds(&self) -> bool {
        self.pos <= self.chars.len()
    }

    /// The characters that are still to be read, the next one first.
    pub closed spec fn remaining(&self) -> Seq<char> {
        self.chars@.skip(self.pos as int)
    }

    /// A cursor at the start of `text`.
    pub fn new(text: &str) -> (cursor: Cursor)
        ensures
            cursor.remaining() == text@,
    {
        Cursor { chars: chars_of(text), pos: 0 }
    }

    /// The next character, which stays unread; `None` at the end.
    pub fn peek(&self) -> (next: Option<char>)
        ensures
            next == first_of(self.remaining()),
            self.remaining().len() <= usize::MAX,
    {
        proof {
            use_type_invariant(self);
        }
        if self.pos < self.chars.len() {
            Some(self.chars[self.pos])
        } else {
            None
        }
    }

    /// Reads the next character; `None` at the end, where nothing moves.
    pub fn next(&mut self) -> (next: Option<char>)
        ensures
            next == first_of(old(self).remaining()),
            final(self).remaining() == rest_of(old(self).remaining()),
    {
        proof {
            use_type_invariant(&*self);
        }
        if self.pos < self.chars.len() {
            let c = self.chars[self.pos];
            self.pos = self.pos + 1;
            Some(c)
        } else {
            None
        }
    }
}

/// The first item of `s`, if it has one.
pub open spec fn first_of(s: Seq<char>) -> Option<char> {
    if s.len() == 0 {
        None
    } else {
        Some(s[0])
    }
}

/// `s` without its first item; an empty `s` as it is.
pub open spec fn rest_of(s: Seq<char>) -> Seq<char> {
    if s.len() == 0 {
        s
    } else {
        s.skip(1)
    }
}

} // verus!
