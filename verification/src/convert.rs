//! The casing conventions: each writes the canonical word list of a string
//! in its own way.

use vstd::prelude::*;
use crate::chars::{to_upper_char, upper_first, uppercase};
use crate::error::CaseError;
use crate::initialism::{common_initialisms, is_initialism};
use crate::segment::{canonical_words, split_string_in_parts};
use crate::text::views;

verus! {

/// The words written one after the other, with `sep` between each two.
pub open spec fn join(words: Seq<Seq<char>>, sep: char) -> Seq<char>
    decreases words.len(),
{
    if words.len() == 0 {
        Seq::empty()
    } else if words.len() == 1 {
        words[0]
    } else {
        join(words.drop_last(), sep).push(sep) + words.last()
    }
}

/// A word as it stands inside a camelCase or PascalCase name: in capitals
/// throughout where it is a common initialism, else with a capital first
/// character.
pub open spec fn capitalized(word: Seq<char>) -> Seq<char> {
    if common_initialisms().contains(word) {
        uppercase(word)
    } else {
        upper_first(word)
    }
}

/// Each of `words` by `capitalized`, written one after the other.
pub open spec fn capitalized_concat(words: Seq<Seq<char>>) -> Seq<char> {
    words.map_values(|w: Seq<char>| capitalized(w)).flatten()
}

/// `s` in snake_case: its canonical words joined by `_`.
pub open spec fn snake_case(s: Seq<char>) -> Seq<char> {
    join(canonical_words(s), '_')
}

/// `s` in kebab-case: its canonical words joined by `-`.
pub open spec fn kebab_case(s: Seq<char>) -> Seq<char> {
    join(canonical_words(s), '-')
}

/// `s` in PascalCase: each canonical word capitalized, nothing between them.
pub open spec fn pascal_case(s: Seq<char>) -> Seq<char> {
    capitalized_concat(canonical_words(s))
}

/// `s` in camelCase: the first canonical word as it is, each later one
/// capitalized, nothing between them.
pub open spec fn camel_case(s: Seq<char>) -> Seq<char> {
    let words = canonical_words(s);
    if words.len() == 0 {
        Seq::empty()
    } else {
        words[0] + capitalized_concat(words.skip(1))
    }
}

/// Convert string to upper case: each ASCII small letter becomes its
/// capital, and every other character stays as it is, those beyond ASCII
/// too.
pub fn to_upper(s: &str) -> (out: String)
    ensures
        out@ == uppercase(s@),
{
    let mut out = String::new();
    for c in it: s.chars()
        invariant
            it.seq() == s@,
            out@ == uppercase(s@.take(it.index() as int)),
    {
        assert(s@.take(it.index() + 1) == s@.take(it.index() as int).push(c));
        out.push(to_upper_char(c));
    }
    assert(s@.take(s@.len() as int) == s@);
    out
}

/// A copy of `s` whose first character, if it has one, is turned into its
/// capital.
fn with_upper_first(s: &str) -> (out: String)
    ensures
        out@ == upper_first(s@),
{
    let mut out = String::new();
    let mut first = true;
    for c in it: s.chars()
        invariant
            it.seq() == s@,
            first == (it.index() == 0),
            out@ == upper_first(s@.take(it.index() as int)),
    {
        assert(s@.take(it.index() + 1) == s@.take(it.index() as int).push(c));
        if first {
            out.push(to_upper_char(c));
            first = false;
        } else {
            out.push(c);
        }
        assert(out@ =~= upper_first(s@.take(it.index() + 1)));
    }
    assert(s@.take(s@.len() as int) == s@);
    out
}

/// Convert string to upper first case: the first character becomes its
/// capital where it is an ASCII small letter, and the rest stays as it is.
/// The empty string is refused.
pub fn to_upper_first(s: &str) -> (r: Result<String, CaseError>)
    ensures
        s@.len() == 0 <==> r is Err,
        r matches Err(e) ==> e == CaseError::EmptyInput,
        r matches Ok(out) ==> out@ == upper_first(s@),
{
    if s.is_empty() {
        return Err(CaseError::EmptyInput);
    }
    Ok(with_upper_first(s))
}

/// A canonical word as it stands inside a camelCase or PascalCase name.
fn capitalize(word: &str) -> (out: String)
    ensures
        out@ == capitalized(word@),
{
    if is_initialism(word) {
        to_upper(word)
    } else {
        with_upper_first(word)
    }
}

/// Writes the words one after the other, with `sep` between each two.
fn join_words(words: &Vec<String>, sep: char) -> (out: String)
    ensures
        out@ == join(views(words@), sep),
{
    let mut out = String::new();
    let mut i: usize = 0;
    while i < words.len()
        invariant
            i <= words.len(),
            out@ == join(views(words@).take(i as int), sep),
        decreases words.len() - i,
    {
        proof {
            let next = views(words@).take(i + 1);
            assert(next.drop_last() == views(words@).take(i as int));
            assert(next.last() == words@[i as int]@);
        }
        if i > 0 {
            out.push(sep);
        }
        out.append(words[i].as_str());
        assert(out@ =~= join(views(words@).take(i + 1), sep));
        i += 1;
    }
    assert(views(words@).take(words.len() as int) == views(words@));
    out
}

/// Writes the words from index `from` on one after the other, each
/// capitalized, behind what `out` holds already.
fn append_capitalized(out: &mut String, words: &Vec<String>, from: usize)
    requires
        from <= words.len(),
    ensures
        final(out)@ == old(out)@ + capitalized_concat(views(words@).skip(from as int)),
{
    let ghost before = out@;
    let ghost rest = views(words@).skip(from as int);
    let mut i: usize = from;
    assert(rest.take(0).map_values(|w: Seq<char>| capitalized(w)) == Seq::<Seq<char>>::empty());
    while i < words.len()
        invariant
            from <= i <= words.len(),
            rest == views(words@).skip(from as int),
            out@ == before + capitalized_concat(rest.take(i - from)),
        decreases words.len() - i,
    {
        let word = capitalize(words[i].as_str());
        proof {
            let done = rest.take(i - from);
            let mapped = done.map_values(|w: Seq<char>| capitalized(w));
            assert(rest.take(i + 1 - from) == done.push(words@[i as int]@));
            assert(done.push(words@[i as int]@).map_values(|w: Seq<char>| capitalized(w))
                == mapped.push(word@));
            mapped.lemma_flatten_push(word@);
        }
        out.append(word.as_str());
        assert(out@ =~= before + capitalized_concat(rest.take(i + 1 - from)));
        i += 1;
    }
    assert(rest.take(words.len() - from) == rest);
}

/// Convert string to camel case: the first word in small letters, each
/// later word capitalized, nothing between them. The empty string is
/// refused; a string without a letter or digit gives the empty name.
pub fn to_camel(s: &str) -> (r: Result<String, CaseError>)
    ensures
        s@.len() == 0 <==> r is Err,
        r matches Err(e) ==> e == CaseError::EmptyInput,
        r matches Ok(out) ==> out@ == camel_case(s@),
{
    let words = match split_string_in_parts(s) {
        Ok(words) => words,
        Err(e) => {
            return Err(e);
        },
    };
    let mut out = String::new();
    if words.len() > 0 {
        out.append(words[0].as_str());
        append_capitalized(&mut out, &words, 1);
    }
    Ok(out)
}

/// Convert string to pascal case: each word capitalized, nothing between
/// them. The empty string is refused; a string without a letter or digit
/// gives the empty name.
pub fn to_pascal(s: &str) -> (r: Result<String, CaseError>)
    ensures
        s@.len() == 0 <==> r is Err,
        r matches Err(e) ==> e == CaseError::EmptyInput,
        r matches Ok(out) ==> out@ == pascal_case(s@),
{
    let words = match split_string_in_parts(s) {
        Ok(words) => words,
        Err(e) => {
            return Err(e);
        },
    };
    let mut out = String::new();
    append_capitalized(&mut out, &words, 0);
    assert(views(words@).skip(0) == views(words@));
    Ok(out)
}

/// Convert string to snack case: the words in small letters with `_`
/// between them. The empty string is refused; a string without a letter or
/// digit gives the empty name.
pub fn to_snack(s: &str) -> (r: Result<String, CaseError>)
    ensures
        s@.len() == 0 <==> r is Err,
        r matches Err(e) ==> e == CaseError::EmptyInput,
        r matches Ok(out) ==> out@ == snake_case(s@),
{
    match split_string_in_parts(s) {
        Ok(words) => Ok(join_words(&words, '_')),
        Err(e) => Err(e),
    }
}

/// Convert string to kebab case: the words in small letters with `-`
/// between them. The empty string is refused; a string without a letter or
/// digit gives the empty name.
pub fn to_kebab(s: &str) -> (r: Result<String, CaseError>)
    ensures
        s@.len() == 0 <==> r is Err,
        r matches Err(e) ==> e == CaseError::EmptyInput,
        r matches Ok(out) ==> out@ == kebab_case(s@),
{
    match split_string_in_parts(s) {
        Ok(words) => Ok(join_words(&words, '-')),
        Err(e) => Err(e),
    }
}

} // verus!
