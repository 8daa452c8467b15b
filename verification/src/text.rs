//! Helpers on text: comparison, and conversion between strings and characters.

use vstd::prelude::*;
use vstd::string::*;
use vstd::utf8::*;

verus! {

/// The standard library's `String::push`, for which vstd has no
/// specification: it appends the character `c` to the end of the string and
/// leaves what the string held before in place. This is stated, not proved.
pub assume_specification[ String::push ](text: &mut String, c: char)
    ensures
        final(text)@ == old(text)@.push(c),
;

/// Whether `c` is white space: a character with the Unicode property `White_Space`.
pub open spec fn is_whitespace_spec(c: char) -> bool {
    ||| '\u{0009}' <= c <= '\u{000D}'
    ||| c == ' '
    ||| c == '\u{0085}'
    ||| c == '\u{00A0}'
    ||| c == '\u{1680}'
    ||| '\u{2000}' <= c <= '\u{200A}'
    ||| c == '\u{2028}'
    ||| c == '\u{2029}'
    ||| c == '\u{202F}'
    ||| c == '\u{205F}'
    ||| c == '\u{3000}'
}

/// Whether `c` may stand in a name: an ASCII letter, an ASCII digit or a hyphen.
pub open spec fn is_word_char_spec(c: char) -> bool {
    ('a' <= c <= 'z') || ('A' <= c <= 'Z') || c == '-' || ('0' <= c <= '9')
}

/// Whether `c` is an ASCII digit.
pub open spec fn is_digit_spec(c: char) -> bool {
    '0' <= c <= '9'
}

/// Where the run of characters that `accepts` accepts, which starts at
/// `from` in `text`, ends: the place of the first character from there on that
/// it does not accept, or the end of the text.
pub open spec fn scan(text: Seq<char>, from: int, accepts: spec_fn(char) -> bool) -> int
    decreases text.len() - from,
{
    if 0 <= from < text.len() && accepts(text[from]) {
        scan(text, from + 1, accepts)
    } else {
        from
    }
}

/// A run ends at or behind its start and within the text, holds accepted
/// characters only, and cannot be made longer.
pub proof fn lemma_scan(text: Seq<char>, from: int, accepts: spec_fn(char) -> bool)
    requires
        0 <= from <= text.len(),
    ensures
        from <= scan(text, from, accepts) <= text.len(),
        forall|k: int| from <= k < scan(text, from, accepts) ==> accepts(#[trigger] text[k]),
        scan(text, from, accepts) < text.len() ==> !accepts(text[scan(text, from, accepts)]),
    decreases text.len() - from,
{
    if from < text.len() && accepts(text[from]) {
        lemma_scan(text, from + 1, accepts);
    }
}

/// A run that is entered in its middle ends where it ends.
pub proof fn lemma_scan_resumes(text: Seq<char>, from: int, middle: int, accepts: spec_fn(char) -> bool)
    requires
        0 <= from <= middle <= text.len(),
        forall|k: int| from <= k < middle ==> accepts(#[trigger] text[k]),
    ensures
        scan(text, from, accepts) == scan(text, middle, accepts),
    decreases middle - from,
{
    if from < middle {
        lemma_scan_resumes(text, from + 1, middle, accepts);
    }
}

/// The items `done` before the items that `rest` holds, if it holds any.
pub open spec fn after<T, E>(done: Seq<T>, rest: Result<(Seq<T>, int), E>) -> Result<
    (Seq<T>, int),
    E,
> {
    match rest {
        Ok((more, end)) => Ok((done + more, end)),
        Err(error) => Err(error),
    }
}

/// Items before items before a rest are all the items before the rest.
pub proof fn lemma_after_after<T, E>(done: Seq<T>, item: T, rest: Result<(Seq<T>, int), E>)
    ensures
        after(done, after(seq![item], rest)) == after(done.push(item), rest),
{
    match rest {
        Ok((more, end)) => {
            assert(done + (seq![item] + more) =~= done.push(item) + more);
        },
        Err(_) => {},
    }
}

/// Nothing before the items that `rest` holds changes nothing.
pub proof fn lemma_after_nothing<T, E>(rest: Result<(Seq<T>, int), E>)
    ensures
        after(Seq::<T>::empty(), rest) == rest,
{
    match rest {
        Ok((more, end)) => {
        },
        Err(_) => {},
    }
}

/// Whether `c` is white space.
pub fn is_whitespace(c: char) -> (white: bool)
    ensures
        white == is_whitespace_spec(c),
{
    ('\u{0009}' <= c && c <= '\u{000D}') || c == ' ' || c == '\u{0085}' || c == '\u{00A0}' || c
        == '\u{1680}' || ('\u{2000}' <= c && c <= '\u{200A}') || c == '\u{2028}' || c
        == '\u{2029}' || c == '\u{202F}' || c == '\u{205F}' || c == '\u{3000}'
}

/// Whether two strings hold the same characters.
pub fn str_eq(a: &str, b: &str) -> (same: bool)
    ensures
        same == (a@ == b@),
{
    let x = a.as_bytes();
    let y = b.as_bytes();
    proof {
        encode_utf8_decode_utf8(a@);
        encode_utf8_decode_utf8(b@);
    }
    if x.len() != y.len() {
        return false;
    }
    let mut i: usize = 0;
    while i < x.len()
        invariant
            i <= x.len(),
            x.len() == y.len(),
            x@ == a.spec_bytes(),
            y@ == b.spec_bytes(),
            forall|j: int| 0 <= j < i ==> x@[j] == y@[j],
        decreases x.len() - i,
    {
        if x[i] != y[i] {
            return false;
        }
        i += 1;
    }
    assert(x@ =~= y@);
    true
}

/// The characters of a string, in order.
pub fn chars_of(text: &str) -> (chars: Vec<char>)
    ensures
        chars@ == text@,
{
    let mut chars: Vec<char> = Vec::new();
    for c in it: text.chars()
        invariant
            chars@ == it.history(),
    {
        chars.push(c);
    }
    chars
}

} // verus!
