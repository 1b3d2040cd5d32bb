//! The classes of characters that the word splitters tell apart, and the
//! ASCII mapping between small and capital letters.

use vstd::prelude::*;
use vstd::std_specs::convert::FromSpecImpl;

verus! {

/// The class of one character, as the word splitters see it.
#[derive(Clone, Copy, Debug, PartialEq, Eq, Structural)]
pub enum State {
    /// An ASCII capital letter, `A` to `Z`.
    Upper,
    /// An ASCII small letter, `a` to `z`.
    Lower,
    /// An ASCII decimal digit, `0` to `9`.
    Digit,
    /// Any other character: it separates words and belongs to none.
    Split,
}

pub open spec fn is_upper(c: char) -> bool {
    'A' <= c && c <= 'Z'
}

pub open spec fn is_lower(c: char) -> bool {
    'a' <= c && c <= 'z'
}

pub open spec fn is_digit(c: char) -> bool {
    '0' <= c && c <= '9'
}

/// A character that can stand inside a word: an ASCII letter or digit.
pub open spec fn is_alnum(c: char) -> bool {
    is_upper(c) || is_lower(c) || is_digit(c)
}

/// The class of a character.
pub open spec fn state_of(c: char) -> State {
    if is_digit(c) {
        State::Digit
    } else if is_lower(c) {
        State::Lower
    } else if is_upper(c) {
        State::Upper
    } else {
        State::Split
    }
}

/// The capital letter for an ASCII small letter; any other character itself.
pub open spec fn upper_char(c: char) -> char {
    if is_lower(c) {
        ((c as int) - 32) as char
    } else {
        c
    }
}

/// The small letter for an ASCII capital letter; any other character itself.
pub open spec fn lower_char(c: char) -> char {
    if is_upper(c) {
        ((c as int) + 32) as char
    } else {
        c
    }
}

/// A string with each ASCII small letter replaced by its capital.
pub open spec fn uppercase(s: Seq<char>) -> Seq<char> {
    s.map_values(|c: char| upper_char(c))
}

/// A string with each ASCII capital letter replaced by its small letter.
pub open spec fn lowercase(s: Seq<char>) -> Seq<char> {
    s.map_values(|c: char| lower_char(c))
}

/// A string with its first character replaced by its capital, the rest
/// unchanged. The empty string stays empty.
pub open spec fn upper_first(s: Seq<char>) -> Seq<char> {
    if s.len() == 0 {
        s
    } else {
        s.update(0, upper_char(s[0]))
    }
}

impl State {
    /// Classifies one character.
    pub fn of_char(c: char) -> (st: State)
        ensures
            st == state_of(c),
    {
        if '0' <= c && c <= '9' {
            State::Digit
        } else if 'a' <= c && c <= 'z' {
            State::Lower
        } else if 'A' <= c && c <= 'Z' {
            State::Upper
        } else {
            State::Split
        }
    }
}

/// The class of a character, by `State::from`.
impl<'a> From<&'a char> for State {
    fn from(c: &'a char) -> (st: State) {
        State::of_char(*c)
    }
}

impl<'a> FromSpecImpl<&'a char> for State {
    open spec fn obeys_from_spec() -> bool {
        true
    }

    open spec fn from_spec(c: &'a char) -> State {
        state_of(*c)
    }
}

/// The class of the character whose code is the byte, by `State::from`.
impl<'a> From<&'a u8> for State {
    fn from(b: &'a u8) -> (st: State) {
        State::of_char(*b as char)
    }
}

impl<'a> FromSpecImpl<&'a u8> for State {
    open spec fn obeys_from_spec() -> bool {
        true
    }

    open spec fn from_spec(b: &'a u8) -> State {
        state_of(*b as char)
    }
}

/// The capital of one character.
pub fn to_upper_char(c: char) -> (r: char)
    ensures
        r == upper_char(c),
{
    if 'a' <= c && c <= 'z' {
        ((c as u8) - 32) as char
    } else {
        c
    }
}

/// The small letter of one character.
pub fn to_lower_char(c: char) -> (r: char)
    ensures
        r == lower_char(c),
{
    if 'A' <= c && c <= 'Z' {
        ((c as u8) + 32) as char
    } else {
        c
    }
}

} // verus!
