//! Moving a cursor over whitespace.

use crate::cursor::Cursor;
use crate::whitespace::{is_whitespace, lemma_trim_start, trim_start};
use vstd::prelude::*;

verus! {

/// Reads on while the next character is whitespace.  The cursor then
/// stands at the first character that is not, or at the end.
pub fn skip_spaces(iter: &mut Cursor)
    ensures
        final(iter).remaining() == trim_start(old(iter).remaining()),
{
    loop
        invariant
            trim_start(iter.remaining()) == trim_start(old(iter).remaining()),
        ensures
            iter.remaining() == trim_start(old(iter).remaining()),
        decreases iter.remaining().len(),
    {
        proof {
            lemma_trim_start(iter.remaining());
        }
        match iter.peek() {
            Some(c) => {
                if !is_whitespace(c) {
                    break ;
                }
                iter.next();
            },
            None => {
                break ;
            },
        }
    }
}

} // verus!
