//! Text as sequences of characters: what the standard library's strings are
//! taken to do, and two small conversions built on it.

use vstd::prelude::*;

verus! {

/// `String::push` is taken to append `ch` to the end of the string and to
/// leave what was there as it was.
pub assume_specification[ String::push ](s: &mut String, ch: char)
    ensures
        final(s)@ == old(s)@.push(ch),
;

/// The characters of `text`, in order.
pub fn chars_of(text: &str) -> (chars: Vec<char>)
    ensures
        chars@ == text@,
{
    broadcast use vstd::string::group_string_axioms;

    let mut chars: Vec<char> = Vec::new();
    for c in it: text.chars()
        invariant
            it.seq() == text@,
            chars@ == text@.take(it.index() as int),
    {
        chars.push(c);
    }
    chars
}

/// Tells whether `name` spells `word`.
pub fn spells(name: &Vec<char>, word: &str) -> (same: bool)
    ensures
        same == (name@ == word@),
{
    let letters = chars_of(word);
    if name.len() != letters.len() {
        return false;
    }
    let mut i: usize = 0;
    while i < name.len()
        invariant
            i <= name.len(),
            name.len() == letters.len(),
            letters@ == word@,
            forall|j: int| 0 <= j < i ==> name[j] == letters[j],
        decreases name.len() - i,
    {
        if name[i] != letters[i] {
            return false;
        }
        i = i + 1;
    }
    assert(name@ =~= letters@);
    true
}

} // verus!
