//! What holds between the conventions: a name that is cut into words again
//! gives the words it was written from.

use vstd::prelude::*;
use crate::chars::{is_alnum, lowercase};
use crate::convert::{camel_case, join, kebab_case, pascal_case, snake_case};
use crate::segment::{
    canonical_words, case_words, case_words_from, fragments, fragments_from, has_alnum,
    is_canonical_word, is_fragment, lemma_canonical_words_are_plain, lemma_canonical_words_exist,
    lemma_case_words_from_parts, lemma_case_words_step, lemma_fragments_step,
    lemma_run_end_bounds, lowered, run_end, word_starts_at, words_of,
};

verus! {

/// `s` with every `from` replaced by `to`.
pub open spec fn replaced(s: Seq<char>, from: char, to: char) -> Seq<char> {
    s.map_values(
        |c: char|
            if c == from {
                to
            } else {
                c
            },
    )
}

/// The pieces of `s` between the occurrences of `sep`, in order: one more
/// than there are occurrences, empty where two of them touch or one stands
/// at an end.
pub open spec fn split_on(s: Seq<char>, sep: char) -> Seq<Seq<char>>
    decreases s.len(),
{
    if s.len() == 0 {
        seq![Seq::empty()]
    } else {
        let before = split_on(s.drop_last(), sep);
        if s.last() == sep {
            before.push(Seq::empty())
        } else {
            before.drop_last().push(before.last().push(s.last()))
        }
    }
}

/// A run ends at the same place of `b` whatever stands before `b`.
proof fn lemma_run_end_shift(p: Seq<char>, b: Seq<char>, k: int)
    requires
        0 <= k <= b.len(),
    ensures
        run_end(p + b, p.len() + k) == p.len() + run_end(b, k),
    decreases b.len() - k,
{
    if k < b.len() && is_alnum(b[k]) {
        assert((p + b)[p.len() + k] == b[k]);
        lemma_run_end_shift(p, b, k + 1);
    } else if k < b.len() {
        assert((p + b)[p.len() + k] == b[k]);
    }
}

/// The fragments of `b` are the same whatever stands before `b`.
proof fn lemma_fragments_shift(p: Seq<char>, b: Seq<char>, k: int)
    requires
        0 <= k <= b.len(),
    ensures
        fragments_from(p + b, p.len() + k) == fragments_from(b, k),
    decreases b.len() - k,
{
    let t = p + b;
    if k >= b.len() {
    } else if !is_alnum(b[k]) {
        assert(t[p.len() + k] == b[k]);
        lemma_fragments_shift(p, b, k + 1);
    } else {
        assert(t[p.len() + k] == b[k]);
        let e = run_end(b, k);
        lemma_run_end_shift(p, b, k);
        lemma_run_end_bounds(b, k + 1);
        lemma_fragments_shift(p, b, e);
        assert(t.subrange(p.len() + k, p.len() + e) == b.subrange(k, e));
    }
}

/// A run inside `a` ends at the same place whatever follows a separator
/// behind `a`.
proof fn lemma_run_end_stop(a: Seq<char>, c: char, b: Seq<char>, i: int)
    requires
        0 <= i <= a.len(),
        !is_alnum(c),
    ensures
        run_end(a.push(c) + b, i) == run_end(a, i),
    decreases a.len() - i,
{
    let t = a.push(c) + b;
    if i < a.len() {
        assert(t[i] == a[i]);
        if is_alnum(a[i]) {
            lemma_run_end_stop(a, c, b, i + 1);
        }
    } else {
        assert(t[i] == c);
    }
}

/// From any index of `a` on, the fragments of `a`, a separator and `b` are
/// those of `a`, then those of `b`.
proof fn lemma_fragments_from_split(a: Seq<char>, c: char, b: Seq<char>, i: int)
    requires
        0 <= i <= a.len(),
        !is_alnum(c),
    ensures
        fragments_from(a.push(c) + b, i) == fragments_from(a, i) + fragments(b),
    decreases a.len() - i,
{
    let t = a.push(c) + b;
    if i == a.len() {
        assert(t[i] == c);
        assert(fragments_from(t, i) == fragments_from(t, i + 1));
        lemma_fragments_shift(a.push(c), b, 0);
        assert(fragments_from(a, i) == Seq::<Seq<char>>::empty());
    } else if !is_alnum(a[i]) {
        assert(t[i] == a[i]);
        lemma_fragments_from_split(a, c, b, i + 1);
    } else {
        assert(t[i] == a[i]);
        let e = run_end(a, i);
        lemma_run_end_stop(a, c, b, i);
        lemma_run_end_bounds(a, i + 1);
        lemma_fragments_from_split(a, c, b, e);
        assert(t.subrange(i, e) == a.subrange(i, e));
        assert(fragments_from(t, i) == seq![t.subrange(i, e)] + fragments_from(t, e));
        assert(fragments_from(a, i) == seq![a.subrange(i, e)] + fragments_from(a, e));
        assert(seq![a.subrange(i, e)] + (fragments_from(a, e) + fragments(b)) == (seq![
            a.subrange(i, e),
        ] + fragments_from(a, e)) + fragments(b));
    }
}

/// Cutting at separators goes piece by piece: the fragments of two strings
/// with a separator between them are those of the first, then those of the
/// second.
pub proof fn law_fragments_around_separator(a: Seq<char>, c: char, b: Seq<char>)
    requires
        !is_alnum(c),
    ensures
        fragments(a.push(c) + b) == fragments(a) + fragments(b),
{
    lemma_fragments_from_split(a, c, b, 0);
}

/// The words of a string, written one after the other, are the string, and
/// none of them is empty.
pub proof fn law_case_words_partition(f: Seq<char>)
    ensures
        case_words(f).flatten() == f,
        f.len() > 0 ==> case_words(f).len() > 0,
        forall|k: int| 0 <= k < case_words(f).len() ==> (#[trigger] case_words(f)[k]).len() > 0,
{
    lemma_case_words_from_parts(f, 0);
    assert(f.skip(0) == f);
}

/// Words joined by a separator, the first of them not empty, give a string
/// that is not empty.
pub proof fn lemma_join_len(words: Seq<Seq<char>>, sep: char)
    requires
        words.len() > 0,
        words[0].len() > 0,
    ensures
        join(words, sep).len() > 0,
    decreases words.len(),
{
    if words.len() > 1 {
        assert(join(words, sep) == join(words.drop_last(), sep).push(sep) + words.last());
    }
}

/// A string of letters and digits only is its own single fragment.
pub proof fn lemma_fragments_of_run(w: Seq<char>)
    requires
        is_fragment(w),
    ensures
        fragments(w) == seq![w],
{
    lemma_fragments_step(w, 0, w.len() as int);
    assert(w.subrange(0, w.len() as int) == w);
    assert(fragments_from(w, w.len() as int + 1) == Seq::<Seq<char>>::empty());
}

/// Fragments joined by a separator are cut at it into the same fragments.
pub proof fn lemma_fragments_of_join(words: Seq<Seq<char>>, sep: char)
    requires
        forall|k: int| 0 <= k < words.len() ==> is_fragment(#[trigger] words[k]),
        !is_alnum(sep),
    ensures
        fragments(join(words, sep)) == words,
    decreases words.len(),
{
    if words.len() == 0 {
        assert(fragments(join(words, sep)).len() == 0);
    } else if words.len() == 1 {
        lemma_fragments_of_run(words[0]);
    } else {
        let init = words.drop_last();
        lemma_fragments_of_join(init, sep);
        law_fragments_around_separator(join(init, sep), sep, words.last());
        lemma_fragments_of_run(words.last());
        assert(init + seq![words.last()] == words);
    }
}

/// A word without a capital letter is not cut any further.
pub proof fn lemma_case_words_of_plain(w: Seq<char>)
    requires
        is_canonical_word(w),
    ensures
        case_words(w) == seq![w],
        lowercase(w) == w,
{
    assert forall|j: int| 0 < j < w.len() implies !word_starts_at(w, j) by {
        assert(is_canonical_word(w));
    }
    lemma_case_words_step(w, 0, w.len() as int);
    assert(w.subrange(0, w.len() as int) == w);
    assert(case_words_from(w, w.len() as int) == Seq::<Seq<char>>::empty());
    assert(lowercase(w) =~= w);
}

/// A list of canonical words is its own canonical word list.
pub proof fn lemma_words_of_plain(words: Seq<Seq<char>>)
    requires
        forall|k: int| 0 <= k < words.len() ==> is_canonical_word(#[trigger] words[k]),
    ensures
        words_of(words) == words,
        lowered(words) == words,
    decreases words.len(),
{
    let cased = words.map_values(|f: Seq<char>| case_words(f));
    if words.len() == 0 {
        assert(cased.flatten() == Seq::<Seq<char>>::empty());
    } else {
        let init = words.drop_last();
        let last = words.last();
        lemma_words_of_plain(init);
        lemma_case_words_of_plain(last);
        let init_cased = init.map_values(|f: Seq<char>| case_words(f));
        assert(cased == init_cased.push(case_words(last)));
        init_cased.lemma_flatten_push(case_words(last));
        assert(init + seq![last] == words);
    }
    assert forall|k: int| 0 <= k < words.len() implies lowered(words)[k] == words[k] by {
        lemma_case_words_of_plain(words[k]);
    }
    assert(lowered(words) =~= words);
}

/// In words joined by `from`, none of which holds it, replacing each `from`
/// by `to` gives the words joined by `to`.
pub proof fn lemma_replaced_join(words: Seq<Seq<char>>, from: char, to: char)
    requires
        forall|k: int| 0 <= k < words.len() ==> !(#[trigger] words[k]).contains(from),
    ensures
        replaced(join(words, from), from, to) == join(words, to),
    decreases words.len(),
{
    if words.len() == 0 {
    } else if words.len() == 1 {
        assert(!words[0].contains(from));
        assert(replaced(words[0], from, to) =~= words[0]);
    } else {
        let init = words.drop_last();
        let last = words.last();
        lemma_replaced_join(init, from, to);
        assert(!last.contains(from));
        assert(replaced(last, from, to) =~= last);
        assert(replaced(join(init, from).push(from) + last, from, to) =~= replaced(
            join(init, from),
            from,
            to,
        ).push(to) + replaced(last, from, to));
    }
}

/// A string without `sep` is its own single piece.
pub proof fn lemma_split_on_plain(w: Seq<char>, sep: char)
    requires
        !w.contains(sep),
    ensures
        split_on(w, sep) == seq![w],
    decreases w.len(),
{
    if w.len() > 0 {
        assert(w.last() == w[w.len() - 1]);
        assert forall|j: int| 0 <= j < w.drop_last().len() implies w.drop_last()[j] != sep by {
            assert(w.drop_last()[j] == w[j]);
        }
        lemma_split_on_plain(w.drop_last(), sep);
        assert(w.drop_last().push(w.last()) == w);
        assert(seq![w.drop_last()].drop_last().push(w) == seq![w]);
    } else {
        assert(w == Seq::<char>::empty());
    }
}

/// What stands behind the last `sep` is the last piece.
pub proof fn lemma_split_on_append(a: Seq<char>, sep: char, w: Seq<char>)
    requires
        !w.contains(sep),
    ensures
        split_on(a.push(sep) + w, sep) == split_on(a, sep).push(w),
    decreases w.len(),
{
    let t = a.push(sep) + w;
    if w.len() == 0 {
        assert(t.drop_last() == a);
        assert(t.last() == sep);
        assert(w == Seq::<char>::empty());
    } else {
        let v = w.drop_last();
        assert(w.last() == w[w.len() - 1]);
        assert forall|j: int| 0 <= j < v.len() implies v[j] != sep by {
            assert(v[j] == w[j]);
        }
        lemma_split_on_append(a, sep, v);
        assert(t.drop_last() == a.push(sep) + v);
        assert(t.last() == w.last());
        let before = split_on(a, sep).push(v);
        assert(before.drop_last() == split_on(a, sep));
        assert(v.push(w.last()) == w);
    }
}

/// Words joined by `sep`, none of which holds it, split on `sep` into
/// themselves.
pub proof fn lemma_split_on_join(words: Seq<Seq<char>>, sep: char)
    requires
        words.len() > 0,
        forall|k: int| 0 <= k < words.len() ==> !(#[trigger] words[k]).contains(sep),
    ensures
        split_on(join(words, sep), sep) == words,
    decreases words.len(),
{
    if words.len() == 1 {
        assert(!words[0].contains(sep));
        lemma_split_on_plain(words[0], sep);
    } else {
        let init = words.drop_last();
        lemma_split_on_join(init, sep);
        assert(!words.last().contains(sep));
        lemma_split_on_append(join(init, sep), sep, words.last());
        assert(init.push(words.last()) == words);
    }
}

/// Canonical words hold no separator, whatever character separates them.
proof fn lemma_plain_words_hold_no(words: Seq<Seq<char>>, sep: char)
    requires
        forall|k: int| 0 <= k < words.len() ==> is_canonical_word(#[trigger] words[k]),
        !is_alnum(sep),
    ensures
        forall|k: int| 0 <= k < words.len() ==> !(#[trigger] words[k]).contains(sep),
        forall|k: int| 0 <= k < words.len() ==> is_fragment(#[trigger] words[k]),
{
    assert forall|k: int| 0 <= k < words.len() implies !(#[trigger] words[k]).contains(sep)
        && is_fragment(words[k]) by {
        assert(is_canonical_word(words[k]));
    }
}

/// Canonical words that are joined by a separator and cut again are the
/// same words: a name in any of the separated conventions keeps its word
/// list when it is converted once more.
pub proof fn law_joined_words_split_back(words: Seq<Seq<char>>, sep: char)
    requires
        forall|k: int| 0 <= k < words.len() ==> is_canonical_word(#[trigger] words[k]),
        !is_alnum(sep),
    ensures
        canonical_words(join(words, sep)) == words,
{
    lemma_plain_words_hold_no(words, sep);
    lemma_fragments_of_join(words, sep);
    lemma_words_of_plain(words);
}

/// The canonical word list decides every name: two strings with the same
/// words are written alike in each convention.
pub proof fn law_words_decide_every_name(a: Seq<char>, b: Seq<char>)
    requires
        canonical_words(a) == canonical_words(b),
    ensures
        camel_case(a) == camel_case(b),
        pascal_case(a) == pascal_case(b),
        snake_case(a) == snake_case(b),
        kebab_case(a) == kebab_case(b),
{
}

/// A snake_case or kebab-case name has the words of the string it was made
/// from, so it is written in every convention as that string is.
pub proof fn law_separated_names_keep_their_words(s: Seq<char>)
    ensures
        canonical_words(snake_case(s)) == canonical_words(s),
        canonical_words(kebab_case(s)) == canonical_words(s),
{
    lemma_canonical_words_are_plain(s);
    law_joined_words_split_back(canonical_words(s), '_');
    law_joined_words_split_back(canonical_words(s), '-');
}

/// Normalizing is idempotent: a snake_case name whose underscores are
/// replaced by spaces has the word list of the string it was made from, and
/// so the same snake_case name. Where the string holds a letter or a digit
/// that name is not empty, so that it can be converted again.
pub proof fn law_snake_case_is_stable(s: Seq<char>)
    ensures
        canonical_words(replaced(snake_case(s), '_', ' ')) == canonical_words(s),
        snake_case(replaced(snake_case(s), '_', ' ')) == snake_case(s),
        has_alnum(s) ==> replaced(snake_case(s), '_', ' ').len() > 0,
{
    let words = canonical_words(s);
    lemma_canonical_words_are_plain(s);
    lemma_canonical_words_exist(s);
    if has_alnum(s) {
        assert(is_canonical_word(words[0]));
        lemma_join_len(words, '_');
    }
    lemma_plain_words_hold_no(words, '_');
    lemma_replaced_join(words, '_', ' ');
    law_joined_words_split_back(words, ' ');
}

/// snake_case and kebab-case hold the same words: cutting the one at its
/// underscores and the other at its hyphens gives the same list, which is
/// the canonical word list wherever the string holds a letter or a digit.
pub proof fn law_snake_and_kebab_hold_the_same_words(s: Seq<char>)
    ensures
        split_on(snake_case(s), '_') == split_on(kebab_case(s), '-'),
        has_alnum(s) ==> split_on(snake_case(s), '_') == canonical_words(s),
{
    let words = canonical_words(s);
    lemma_canonical_words_are_plain(s);
    lemma_canonical_words_exist(s);
    if words.len() > 0 {
        lemma_plain_words_hold_no(words, '_');
        lemma_plain_words_hold_no(words, '-');
        lemma_split_on_join(words, '_');
        lemma_split_on_join(words, '-');
    }
}

/// The words come back from kebab-case: of a string that holds a letter or
/// a digit, the kebab-case name cut at its hyphens, each piece in small
/// letters, is the canonical word list.
pub proof fn law_kebab_round_trip(s: Seq<char>)
    requires
        has_alnum(s),
    ensures
        lowered(split_on(kebab_case(s), '-')) == canonical_words(s),
{
    let words = canonical_words(s);
    lemma_canonical_words_exist(s);
    lemma_canonical_words_are_plain(s);
    lemma_plain_words_hold_no(words, '-');
    lemma_split_on_join(words, '-');
    lemma_words_of_plain(words);
}

} // verus!
