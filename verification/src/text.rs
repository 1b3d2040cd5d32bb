//! Reading the characters of a string and writing new strings.

use vstd::prelude::*;
use crate::chars::{lowercase, to_lower_char};

verus! {

/// `String::push` appends one character to the end of the string and leaves
/// what was there before untouched.
pub assume_specification[ String::push ](s: &mut String, ch: char)
    ensures
        final(s)@ == old(s)@.push(ch),
;

/// What a list of strings holds, as a list of character sequences.
pub open spec fn views(words: Seq<String>) -> Seq<Seq<char>> {
    words.map_values(|w: String| w@)
}

/// The characters of a string, in order.
pub fn chars_of(s: &str) -> (v: Vec<char>)
    ensures
        v@ == s@,
{
    let mut v: Vec<char> = Vec::new();
    for c in it: s.chars()
        invariant
            v@ == it.seq().take(it.index() as int),
    {
        v.push(c);
    }
    v
}

/// Whether a character list spells out the string `text`.
pub fn spells(w: &Vec<char>, text: &str) -> (eq: bool)
    ensures
        eq == (w@ == text@),
{
    let mut i: usize = 0;
    for c in it: text.chars()
        invariant
            i == it.index(),
            i <= w.len(),
            it.seq() == text@,
            w@.take(i as int) == text@.take(i as int),
    {
        if i >= w.len() || w[i] != c {
            assert(w@ != text@) by {
                if w@ == text@ {
                    assert(w@[i as int] == text@[i as int]);
                }
            }
            return false;
        }
        assert(w@.take(i + 1) == w@.take(i as int).push(w@[i as int]));
        assert(text@.take(i + 1) == text@.take(i as int).push(c));
        i += 1;
    }
    assert(text@.take(i as int) == text@);
    if i == w.len() {
        assert(w@.take(i as int) == w@);
        true
    } else {
        false
    }
}

/// A copy of `s` with each ASCII capital letter turned into its small letter.
pub fn to_lower(s: &str) -> (out: String)
    ensures
        out@ == lowercase(s@),
{
    let mut out = String::new();
    for c in it: s.chars()
        invariant
            it.seq() == s@,
            out@ == lowercase(s@.take(it.index() as int)),
    {
        assert(s@.take(it.index() + 1) == s@.take(it.index() as int).push(c));
        out.push(to_lower_char(c));
    }
    assert(s@.take(s@.len() as int) == s@);
    out
}

} // verus!
