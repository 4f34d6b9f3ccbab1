//! Which characters count as whitespace.

use vstd::prelude::*;

verus! {

/// The code points that carry Unicode's `White_Space` property.
pub open spec fn spec_is_whitespace(c: char) -> bool {
    let n = c as u32;
    ||| 0x09 <= n <= 0x0D
    ||| n == 0x20
    ||| n == 0x85
    ||| n == 0xA0
    ||| n == 0x1680
    ||| 0x2000 <= n <= 0x200A
    ||| n == 0x2028
    ||| n == 0x2029
    ||| n == 0x202F
    ||| n == 0x205F
    ||| n == 0x3000
}

/// Tells whether `c` is whitespace.
#[verifier::when_used_as_spec(spec_is_whitespace)]
pub fn is_whitespace(c: char) -> (b: bool)
    ensures
        b == spec_is_whitespace(c),
{
    let n: u32 = c as u32;
    (0x09 <= n && n <= 0x0D) || n == 0x20 || n == 0x85 || n == 0xA0 || n == 0x1680 || (0x2000 <= n
        && n <= 0x200A) || n == 0x2028 || n == 0x2029 || n == 0x202F || n == 0x205F || n == 0x3000
}

/// The number of whitespace characters that `s` begins with.
pub open spec fn leading_whitespace(s: Seq<char>) -> nat
    decreases s.len(),
{
    if s.len() > 0 && is_whitespace(s[0]) {
        1 + leading_whitespace(s.skip(1))
    } else {
        0
    }
}

/// `s` without the whitespace that it begins with.
pub open spec fn trim_start(s: Seq<char>) -> Seq<char> {
    s.skip(leading_whitespace(s) as int)
}

/// The characters of `s` that are not whitespace, in order.
pub open spec fn visible(s: Seq<char>) -> Seq<char>
    decreases s.len(),
{
    if s.len() == 0 {
        Seq::empty()
    } else if is_whitespace(s.last()) {
        visible(s.drop_last())
    } else {
        visible(s.drop_last()).push(s.last())
    }
}

/// The number of characters of `s` that are not whitespace.
pub open spec fn count_visible(s: Seq<char>) -> nat
    decreases s.len(),
{
    if s.len() == 0 {
        0
    } else if is_whitespace(s.last()) {
        count_visible(s.drop_last())
    } else {
        count_visible(s.drop_last()) + 1
    }
}

/// `s` with its whitespace folded: the characters that are not whitespace
/// stay, in order; one space stands wherever whitespace lay between two of
/// them; whitespace before the first and after the last is dropped.
pub open spec fn fold_spaces(s: Seq<char>) -> Seq<char>
    decreases s.len(),
{
    if s.len() == 0 {
        Seq::empty()
    } else {
        let folded = fold_spaces(s.drop_last());
        if is_whitespace(s.last()) {
            folded
        } else if folded.len() > 0 && is_whitespace(s[s.len() - 2]) {
            folded.push(' ').push(s.last())
        } else {
            folded.push(s.last())
        }
    }
}

/// `leading_whitespace` is the length of the longest prefix made of
/// whitespace alone.
pub proof fn lemma_leading_whitespace(s: Seq<char>)
    ensures
        leading_whitespace(s) <= s.len(),
        forall|i: int| 0 <= i < leading_whitespace(s) ==> is_whitespace(#[trigger] s[i]),
        leading_whitespace(s) < s.len() ==> !is_whitespace(s[leading_whitespace(s) as int]),
    decreases s.len(),
{
    if s.len() > 0 && is_whitespace(s[0]) {
        let t = s.skip(1);
        lemma_leading_whitespace(t);
        assert forall|i: int| 0 <= i < leading_whitespace(s) implies is_whitespace(
            #[trigger] s[i],
        ) by {
            if i > 0 {
                assert(s[i] == t[i - 1]);
            }
        }
        if leading_whitespace(s) < s.len() {
            assert(s[leading_whitespace(s) as int] == t[leading_whitespace(t) as int]);
        }
    }
}

/// Trimming drops whitespace and nothing else: what is left is the end of
/// `s`, and it does not begin with whitespace.
pub proof fn lemma_trim_start(s: Seq<char>)
    ensures
        trim_start(s).len() <= s.len(),
        trim_start(s).len() > 0 ==> !is_whitespace(trim_start(s)[0]),
        s.len() > 0 && is_whitespace(s[0]) ==> trim_start(s) == trim_start(s.skip(1)),
        s.len() == 0 || !is_whitespace(s[0]) ==> trim_start(s) == s,
{
    lemma_leading_whitespace(s);
    if s.len() > 0 && is_whitespace(s[0]) {
        assert(s.skip(1).skip(leading_whitespace(s.skip(1)) as int) =~= s.skip(
            leading_whitespace(s) as int,
        ));
    } else {
        assert(s.skip(0) =~= s);
    }
}

/// Counting goes character by character, from the front too.
pub proof fn lemma_count_visible_front(c: char, run: Seq<char>)
    ensures
        count_visible(seq![c] + run) == count_visible(seq![c]) + count_visible(run),
    decreases run.len(),
{
    let whole = seq![c] + run;
    if run.len() == 0 {
        assert(whole =~= seq![c]);
    } else {
        assert(whole.drop_last() =~= seq![c] + run.drop_last());
        assert(whole.last() == run.last());
        lemma_count_visible_front(c, run.drop_last());
    }
}

/// `count_visible` is the length of what is visible.
pub proof fn lemma_count_visible(s: Seq<char>)
    ensures
        count_visible(s) == visible(s).len(),
    decreases s.len(),
{
    if s.len() > 0 {
        lemma_count_visible(s.drop_last());
    }
}

/// Whitespace at the end of a text leaves its folded form as it is.
pub proof fn lemma_fold_spaces_trailing(s: Seq<char>, n: nat)
    requires
        n <= s.len(),
        forall|i: int| n <= i < s.len() ==> is_whitespace(#[trigger] s[i]),
    ensures
        fold_spaces(s) == fold_spaces(s.take(n as int)),
    decreases s.len(),
{
    if n < s.len() {
        assert(is_whitespace(s.last()));
        lemma_fold_spaces_trailing(s.drop_last(), n);
        assert(s.drop_last().take(n as int) =~= s.take(n as int));
    } else {
        assert(s.take(n as int) =~= s);
    }
}

/// Trimming twice is trimming once.
pub proof fn lemma_trim_start_idempotent(s: Seq<char>)
    ensures
        trim_start(trim_start(s)) == trim_start(s),
{
    lemma_trim_start(s);
    lemma_trim_start(trim_start(s));
}

} // verus!
