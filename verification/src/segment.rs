//! Cutting a string into words: at its separators, then at its changes of
//! letter case.

use vstd::prelude::*;
use crate::chars::{is_alnum, is_digit, is_lower, lowercase, state_of, State};
use crate::error::CaseError;
use crate::text::{chars_of, to_lower, views};

verus! {

/// The first index at or after `i` whose character is no letter and no
/// digit, or the length of `s` where the letters and digits run to its end.
pub open spec fn run_end(s: Seq<char>, i: int) -> int
    decreases s.len() - i,
{
    if 0 <= i < s.len() && is_alnum(s[i]) {
        run_end(s, i + 1)
    } else {
        i
    }
}

/// The fragments of `s` that begin at or after index `i`: separators are
/// passed over, and each run of letters and digits is taken whole.
pub open spec fn fragments_from(s: Seq<char>, i: int) -> Seq<Seq<char>>
    decreases s.len() - i,
    via fragments_from_decreases
{
    if i < 0 || i >= s.len() {
        Seq::empty()
    } else if !is_alnum(s[i]) {
        fragments_from(s, i + 1)
    } else {
        seq![s.subrange(i, run_end(s, i))] + fragments_from(s, run_end(s, i))
    }
}

#[via_fn]
proof fn fragments_from_decreases(s: Seq<char>, i: int) {
    if 0 <= i < s.len() && is_alnum(s[i]) {
        lemma_run_end_bounds(s, i + 1);
    }
}

/// The fragments of `s`: its maximal runs of ASCII letters and digits, in
/// order. Every other character separates two fragments and belongs to none.
pub open spec fn fragments(s: Seq<char>) -> Seq<Seq<char>> {
    fragments_from(s, 0)
}

/// Whether a word begins with a character of class `cur` that stands between
/// one of class `prev` and, where the string goes on, one of class `next`.
///
/// Only a capital letter begins a word: after a small letter or a digit
/// always, after another capital only where a small letter follows.
pub open spec fn splits_before(prev: State, cur: State, next: Option<State>) -> bool {
    cur == State::Upper && (prev == State::Lower || prev == State::Digit || (prev == State::Upper
        && next == Some(State::Lower)))
}

/// Whether a new word begins at index `i` of `f`. The first character never
/// begins a new word.
pub open spec fn word_starts_at(f: Seq<char>, i: int) -> bool {
    0 < i < f.len() && splits_before(
        state_of(f[i - 1]),
        state_of(f[i]),
        if i + 1 < f.len() {
            Some(state_of(f[i + 1]))
        } else {
            None
        },
    )
}

/// The first index at or after `i` at which a new word begins, or the length
/// of `f` where none does.
pub open spec fn word_end(f: Seq<char>, i: int) -> int
    decreases f.len() - i,
{
    if i < f.len() && !word_starts_at(f, i) {
        word_end(f, i + 1)
    } else {
        i
    }
}

/// The words of `f` from index `start` on, `start` being the first index of
/// a word.
pub open spec fn case_words_from(f: Seq<char>, start: int) -> Seq<Seq<char>>
    decreases f.len() - start,
    via case_words_from_decreases
{
    if start < 0 || start >= f.len() {
        Seq::empty()
    } else {
        seq![f.subrange(start, word_end(f, start + 1))] + case_words_from(
            f,
            word_end(f, start + 1),
        )
    }
}

#[via_fn]
proof fn case_words_from_decreases(f: Seq<char>, start: int) {
    if 0 <= start < f.len() {
        lemma_word_end_bounds(f, start + 1);
    }
}

/// The words of `f`: `f` cut before every index at which a word begins.
pub open spec fn case_words(f: Seq<char>) -> Seq<Seq<char>> {
    case_words_from(f, 0)
}

/// A fragment: at least one character, and letters and digits only.
pub open spec fn is_fragment(w: Seq<char>) -> bool {
    w.len() > 0 && forall|j: int| 0 <= j < w.len() ==> is_alnum(#[trigger] w[j])
}

/// A word of the canonical list: at least one character, and small letters
/// and digits only.
pub open spec fn is_canonical_word(w: Seq<char>) -> bool {
    w.len() > 0 && forall|j: int| 0 <= j < w.len() ==> is_lower(#[trigger] w[j]) || is_digit(w[j])
}

/// Whether `s` holds a letter or a digit.
pub open spec fn has_alnum(s: Seq<char>) -> bool {
    exists|j: int| 0 <= j < s.len() && is_alnum(#[trigger] s[j])
}

/// The words of all the fragments in `frags`, in order.
pub open spec fn words_of(frags: Seq<Seq<char>>) -> Seq<Seq<char>> {
    frags.map_values(|f: Seq<char>| case_words(f)).flatten()
}

/// Each of `words` in small letters.
pub open spec fn lowered(words: Seq<Seq<char>>) -> Seq<Seq<char>> {
    words.map_values(|w: Seq<char>| lowercase(w))
}

/// The canonical word list of `s`: the words of its fragments, in small
/// letters. Every casing convention is a way of writing this list.
pub open spec fn canonical_words(s: Seq<char>) -> Seq<Seq<char>> {
    lowered(words_of(fragments(s)))
}

/// `run_end` moves forward only, and not past the end of the string.
pub proof fn lemma_run_end_bounds(s: Seq<char>, i: int)
    requires
        0 <= i <= s.len(),
    ensures
        i <= run_end(s, i) <= s.len(),
        run_end(s, i) < s.len() ==> !is_alnum(s[run_end(s, i)]),
        forall|j: int| i <= j < run_end(s, i) ==> is_alnum(#[trigger] s[j]),
    decreases s.len() - i,
{
    if i < s.len() && is_alnum(s[i]) {
        lemma_run_end_bounds(s, i + 1);
    }
}

/// A run of letters and digits that stops at `e` has `e` as its end.
pub proof fn lemma_run_end_is(s: Seq<char>, i: int, e: int)
    requires
        0 <= i <= e <= s.len(),
        forall|j: int| i <= j < e ==> is_alnum(#[trigger] s[j]),
        e < s.len() ==> !is_alnum(s[e]),
    ensures
        run_end(s, i) == e,
    decreases e - i,
{
    if i < e {
        lemma_run_end_is(s, i + 1, e);
    }
}

/// `word_end` moves forward only, and not past the end of the string.
pub proof fn lemma_word_end_bounds(f: Seq<char>, i: int)
    requires
        0 <= i <= f.len(),
    ensures
        i <= word_end(f, i) <= f.len(),
        word_end(f, i) < f.len() ==> word_starts_at(f, word_end(f, i)),
        forall|j: int| i <= j < word_end(f, i) ==> !word_starts_at(f, j),
    decreases f.len() - i,
{
    if i < f.len() && !word_starts_at(f, i) {
        lemma_word_end_bounds(f, i + 1);
    }
}

/// A stretch without a word start that stops at `e` has `e` as its end.
pub proof fn lemma_word_end_is(f: Seq<char>, i: int, e: int)
    requires
        0 <= i <= e <= f.len(),
        forall|j: int| i <= j < e ==> !word_starts_at(f, j),
        e < f.len() ==> word_starts_at(f, e),
    ensures
        word_end(f, i) == e,
    decreases e - i,
{
    if i < e {
        lemma_word_end_is(f, i + 1, e);
    }
}

/// A run of letters and digits from `i` to `e` is the first fragment from
/// `i` on, and the others are those behind the separator at `e`.
pub proof fn lemma_fragments_step(s: Seq<char>, i: int, e: int)
    requires
        0 <= i < e <= s.len(),
        forall|j: int| i <= j < e ==> is_alnum(#[trigger] s[j]),
        e < s.len() ==> !is_alnum(s[e]),
    ensures
        fragments_from(s, i) == seq![s.subrange(i, e)] + fragments_from(s, e + 1),
{
    lemma_run_end_is(s, i, e);
    assert(is_alnum(s[i]));
    assert(fragments_from(s, i) == seq![s.subrange(i, e)] + fragments_from(s, e));
    assert(fragments_from(s, e) == fragments_from(s, e + 1));
}

/// A stretch from the word start `start` to `e` without another word start
/// is the first word from `start` on, and the others are those from `e` on.
pub proof fn lemma_case_words_step(f: Seq<char>, start: int, e: int)
    requires
        0 <= start < e <= f.len(),
        forall|j: int| start < j < e ==> !word_starts_at(f, j),
        e < f.len() ==> word_starts_at(f, e),
    ensures
        case_words_from(f, start) == seq![f.subrange(start, e)] + case_words_from(f, e),
{
    lemma_word_end_is(f, start + 1, e);
}

/// Every fragment holds at least one character, and letters and digits only.
pub proof fn lemma_fragments_from_are_runs(s: Seq<char>, i: int)
    requires
        0 <= i <= s.len(),
    ensures
        forall|k: int|
            0 <= k < fragments_from(s, i).len() ==> is_fragment(#[trigger] fragments_from(s, i)[k]),
    decreases s.len() - i,
{
    if i >= s.len() {
        assert(fragments_from(s, i).len() == 0);
    } else if !is_alnum(s[i]) {
        lemma_fragments_from_are_runs(s, i + 1);
        assert(fragments_from(s, i) == fragments_from(s, i + 1));
    } else {
        let e = run_end(s, i);
        lemma_run_end_bounds(s, i + 1);
        lemma_run_end_bounds(s, i);
        lemma_fragments_from_are_runs(s, e);
        let head = s.subrange(i, e);
        assert(is_fragment(head)) by {
            assert forall|j: int| 0 <= j < head.len() implies is_alnum(#[trigger] head[j]) by {
                assert(head[j] == s[i + j]);
            }
        }
        assert(fragments_from(s, i) == seq![head] + fragments_from(s, e));
        assert forall|k: int| 0 <= k < fragments_from(s, i).len() implies is_fragment(
            #[trigger] fragments_from(s, i)[k],
        ) by {
            if k > 0 {
                assert(fragments_from(s, i)[k] == fragments_from(s, e)[k - 1]);
            } else {
                assert(fragments_from(s, i)[k] == head);
            }
        }
    }
}

/// The words of a string are not empty, and written one after the other
/// they give back what they were cut from. Those of a fragment are
/// fragments themselves.
pub proof fn lemma_case_words_from_parts(f: Seq<char>, start: int)
    requires
        0 <= start <= f.len(),
    ensures
        start < f.len() ==> case_words_from(f, start).len() > 0,
        forall|k: int|
            0 <= k < case_words_from(f, start).len() ==> (#[trigger] case_words_from(
                f,
                start,
            )[k]).len() > 0,
        case_words_from(f, start).flatten() == f.skip(start),
        (forall|j: int| 0 <= j < f.len() ==> is_alnum(#[trigger] f[j])) ==> forall|k: int|
            0 <= k < case_words_from(f, start).len() ==> is_fragment(
                #[trigger] case_words_from(f, start)[k],
            ),
    decreases f.len() - start,
{
    if start >= f.len() {
        assert(case_words_from(f, start).len() == 0);
        assert(f.skip(start) == Seq::<char>::empty());
    } else {
        let e = word_end(f, start + 1);
        lemma_word_end_bounds(f, start + 1);
        lemma_case_words_from_parts(f, e);
        let head = f.subrange(start, e);
        let rest = case_words_from(f, e);
        let all = case_words_from(f, start);
        assert(all == seq![head] + rest);
        assert forall|k: int| 0 <= k < all.len() implies (#[trigger] all[k]).len() > 0 by {
            if k > 0 {
                assert(all[k] == rest[k - 1]);
            } else {
                assert(all[k] == head);
            }
        }
        if forall|j: int| 0 <= j < f.len() ==> is_alnum(#[trigger] f[j]) {
            assert forall|k: int| 0 <= k < all.len() implies is_fragment(#[trigger] all[k]) by {
                if k > 0 {
                    assert(all[k] == rest[k - 1]);
                } else {
                    assert(all[k] == head);
                    assert forall|j: int| 0 <= j < head.len() implies is_alnum(
                        #[trigger] head[j],
                    ) by {
                        assert(head[j] == f[start + j]);
                    }
                }
            }
        }
        assert((seq![head] + rest).first() == head);
        assert((seq![head] + rest).drop_first() == rest);
        assert(head + f.skip(e) == f.skip(start));
    }
}

/// Fragments begin wherever a letter or a digit is still to come.
pub proof fn lemma_fragments_from_exist(s: Seq<char>, i: int)
    requires
        0 <= i <= s.len(),
    ensures
        fragments_from(s, i).len() > 0 <==> exists|j: int|
            i <= j < s.len() && is_alnum(#[trigger] s[j]),
    decreases s.len() - i,
{
    if i >= s.len() {
        assert(fragments_from(s, i).len() == 0);
    } else if !is_alnum(s[i]) {
        lemma_fragments_from_exist(s, i + 1);
        assert(fragments_from(s, i) == fragments_from(s, i + 1));
        if exists|j: int| i <= j < s.len() && is_alnum(#[trigger] s[j]) {
            let j = choose|j: int| i <= j < s.len() && is_alnum(#[trigger] s[j]);
            assert(i + 1 <= j < s.len() && is_alnum(s[j]));
        }
    } else {
        assert(fragments_from(s, i) == seq![s.subrange(i, run_end(s, i))] + fragments_from(
            s,
            run_end(s, i),
        ));
        assert(i <= i < s.len() && is_alnum(s[i]));
    }
}

/// The words of fragments are fragments: none is empty, and each holds
/// letters and digits only.
pub proof fn lemma_words_of_are_fragments(frags: Seq<Seq<char>>)
    requires
        forall|k: int| 0 <= k < frags.len() ==> is_fragment(#[trigger] frags[k]),
    ensures
        forall|k: int| 0 <= k < words_of(frags).len() ==> is_fragment(#[trigger] words_of(frags)[k]),
        words_of(frags).len() >= frags.len(),
        frags.len() == 0 ==> words_of(frags).len() == 0,
    decreases frags.len(),
{
    let cased = frags.map_values(|f: Seq<char>| case_words(f));
    if frags.len() == 0 {
        assert(cased.flatten().len() == 0);
    } else {
        let init = frags.drop_last();
        let last = frags.last();
        lemma_words_of_are_fragments(init);
        assert(is_fragment(last));
        lemma_case_words_from_parts(last, 0);
        let init_cased = init.map_values(|f: Seq<char>| case_words(f));
        assert(cased == init_cased.push(case_words(last)));
        init_cased.lemma_flatten_push(case_words(last));
        assert(words_of(frags) == words_of(init) + case_words(last));
        assert forall|k: int| 0 <= k < words_of(frags).len() implies is_fragment(
            #[trigger] words_of(frags)[k],
        ) by {
            if k < words_of(init).len() {
                assert(words_of(frags)[k] == words_of(init)[k]);
            } else {
                assert(words_of(frags)[k] == case_words(last)[k - words_of(init).len()]);
            }
        }
    }
}

/// Every word of the canonical list holds at least one character, and small
/// letters and digits only.
pub proof fn lemma_canonical_words_are_plain(s: Seq<char>)
    ensures
        forall|k: int|
            0 <= k < canonical_words(s).len() ==> is_canonical_word(
                #[trigger] canonical_words(s)[k],
            ),
{
    lemma_fragments_from_are_runs(s, 0);
    lemma_words_of_are_fragments(fragments(s));
    let mixed = words_of(fragments(s));
    assert forall|k: int| 0 <= k < canonical_words(s).len() implies is_canonical_word(
        #[trigger] canonical_words(s)[k],
    ) by {
        let w = mixed[k];
        assert(is_fragment(w));
        assert(canonical_words(s)[k] == lowercase(w));
        assert forall|j: int| 0 <= j < w.len() implies is_lower(#[trigger] lowercase(w)[j])
            || is_digit(lowercase(w)[j]) by {
            assert(is_alnum(w[j]));
        }
    }
}

/// A string has a canonical word where it holds a letter or a digit, and
/// nowhere else.
pub proof fn lemma_canonical_words_exist(s: Seq<char>)
    ensures
        canonical_words(s).len() > 0 <==> has_alnum(s),
{
    lemma_fragments_from_exist(s, 0);
    lemma_fragments_from_are_runs(s, 0);
    lemma_words_of_are_fragments(fragments(s));
}

/// Decides from the classes of three neighbouring characters whether the
/// middle one begins a new word.
pub fn starts_new_word(prev: State, cur: State, next: Option<State>) -> (b: bool)
    ensures
        b == splits_before(prev, cur, next),
{
    match cur {
        State::Upper => match prev {
            State::Split => false,
            State::Lower | State::Digit => true,
            State::Upper => match next {
                Some(State::Lower) => true,
                _ => false,
            },
        },
        _ => false,
    }
}

/// Cuts a string at every character that is neither an ASCII letter nor an
/// ASCII digit. Separators that follow each other count as one, and no
/// fragment is empty. The empty string is refused.
pub fn split_via_special_chars(s: &str) -> (r: Result<Vec<String>, CaseError>)
    ensures
        s@.len() == 0 <==> r is Err,
        r matches Err(e) ==> e == CaseError::EmptyInput,
        r matches Ok(frags) ==> views(frags@) == fragments(s@),
{
    if s.is_empty() {
        return Err(CaseError::EmptyInput);
    }
    let chars = chars_of(s);
    let n = chars.len();
    let mut ans: Vec<String> = Vec::new();
    let mut cur = String::new();
    let ghost mut start: int = 0;
    let mut i: usize = 0;
    assert(views(ans@) + fragments_from(chars@, 0) == fragments(chars@));
    while i < n
        invariant
            n == chars.len(),
            0 <= start <= i <= n,
            cur@ == chars@.subrange(start, i as int),
            forall|j: int| start <= j < i ==> is_alnum(#[trigger] chars@[j]),
            views(ans@) + fragments_from(chars@, start) == fragments(chars@),
        decreases n - i,
    {
        let c = chars[i];
        match State::from(&c) {
            State::Split => {
                if !cur.as_str().is_empty() {
                    proof {
                        lemma_fragments_step(chars@, start, i as int);
                        assert(views(ans@.push(cur)) == views(ans@).push(cur@));
                        assert(views(ans@).push(cur@) + fragments_from(chars@, i + 1) == views(
                            ans@,
                        ) + (seq![cur@] + fragments_from(chars@, i + 1)));
                    }
                    ans.push(cur);
                    cur = String::new();
                }
                proof {
                    start = i + 1;
                }
            },
            _ => {
                cur.push(c);
            },
        }
        i += 1;
    }
    if !cur.as_str().is_empty() {
        proof {
            lemma_fragments_step(chars@, start, n as int);
            assert(views(ans@.push(cur)) == views(ans@).push(cur@));
            assert(views(ans@).push(cur@) == views(ans@) + (seq![cur@] + fragments_from(
                chars@,
                n + 1,
            )));
        }
        ans.push(cur);
    }
    Ok(ans)
}

/// Cuts a string at its changes of letter case. A run of capitals stays one
/// word, but for its last capital where a small letter follows, which begins
/// the next word; digits never begin a word. The empty string is refused.
pub fn split_via_upper_chars(s: &str) -> (r: Result<Vec<String>, CaseError>)
    ensures
        s@.len() == 0 <==> r is Err,
        r matches Err(e) ==> e == CaseError::EmptyInput,
        r matches Ok(words) ==> views(words@) == case_words(s@),
{
    if s.is_empty() {
        return Err(CaseError::EmptyInput);
    }
    let chars = chars_of(s);
    let n = chars.len();
    let mut ans: Vec<String> = Vec::new();
    let mut cur = String::new();
    cur.push(chars[0]);
    let ghost mut start: int = 0;
    let mut i: usize = 1;
    assert(views(ans@) + case_words_from(chars@, 0) == case_words(chars@));
    while i < n
        invariant
            n == chars.len(),
            0 <= start < i <= n,
            cur@ == chars@.subrange(start, i as int),
            forall|j: int| start < j < i ==> !word_starts_at(chars@, j),
            views(ans@) + case_words_from(chars@, start) == case_words(chars@),
        decreases n - i,
    {
        let next = if i + 1 < n {
            Some(State::from(&chars[i + 1]))
        } else {
            None
        };
        if starts_new_word(State::from(&chars[i - 1]), State::from(&chars[i]), next) {
            proof {
                lemma_case_words_step(chars@, start, i as int);
                assert(views(ans@.push(cur)) == views(ans@).push(cur@));
                assert(views(ans@).push(cur@) + case_words_from(chars@, i as int) == views(ans@)
                    + (seq![cur@] + case_words_from(chars@, i as int)));
                start = i as int;
            }
            ans.push(cur);
            cur = String::new();
        }
        cur.push(chars[i]);
        i += 1;
    }
    proof {
        lemma_case_words_step(chars@, start, n as int);
        assert(views(ans@.push(cur)) == views(ans@).push(cur@));
        assert(views(ans@).push(cur@) == views(ans@) + (seq![cur@] + case_words_from(
            chars@,
            n as int,
        )));
    }
    ans.push(cur);
    Ok(ans)
}

/// The canonical word list of a string: its fragments, each cut at its
/// changes of letter case, every word in small letters. The empty string is
/// refused; a string of separators only has no word.
pub fn split_string_in_parts(s: &str) -> (r: Result<Vec<String>, CaseError>)
    ensures
        s@.len() == 0 <==> r is Err,
        r matches Err(e) ==> e == CaseError::EmptyInput,
        r matches Ok(words) ==> views(words@) == canonical_words(s@),
{
    let frags = match split_via_special_chars(s) {
        Ok(frags) => frags,
        Err(e) => {
            return Err(e);
        },
    };
    proof {
        lemma_fragments_from_are_runs(s@, 0);
    }
    let mut ans: Vec<String> = Vec::new();
    let mut k: usize = 0;
    assert(views(frags@).take(0).map_values(|f: Seq<char>| case_words(f)) == Seq::<
        Seq<Seq<char>>,
    >::empty());
    while k < frags.len()
        invariant
            k <= frags.len(),
            s@.len() > 0,
            views(frags@) == fragments(s@),
            forall|j: int| 0 <= j < frags.len() ==> is_fragment(#[trigger] views(frags@)[j]),
            views(ans@) == lowered(words_of(views(frags@).take(k as int))),
        decreases frags.len() - k,
    {
        assert(is_fragment(views(frags@)[k as int]));
        // No fragment is empty, so the splitter cannot refuse one.
        let parts = match split_via_upper_chars(frags[k].as_str()) {
            Ok(parts) => parts,
            Err(e) => {
                return Err(e);
            },
        };
        let ghost before = views(ans@);
        let mut j: usize = 0;
        while j < parts.len()
            invariant
                j <= parts.len(),
                views(ans@) == before + lowered(views(parts@).take(j as int)),
            decreases parts.len() - j,
        {
            let word = to_lower(parts[j].as_str());
            proof {
                assert(views(ans@.push(word)) == views(ans@).push(word@));
                assert(views(parts@).take(j + 1) == views(parts@).take(j as int).push(
                    parts@[j as int]@,
                ));
                assert(lowered(views(parts@).take(j + 1)) == lowered(
                    views(parts@).take(j as int),
                ).push(word@));
            }
            ans.push(word);
            j += 1;
        }
        proof {
            let done = views(frags@).take(k as int);
            let frag = views(frags@)[k as int];
            let cased = done.map_values(|f: Seq<char>| case_words(f));
            assert(views(parts@).take(parts.len() as int) == views(parts@));
            assert(views(frags@).take(k + 1) == done.push(frag));
            assert(done.push(frag).map_values(|f: Seq<char>| case_words(f)) == cased.push(
                case_words(frag),
            ));
            cased.lemma_flatten_push(case_words(frag));
            assert(words_of(done.push(frag)) == words_of(done) + case_words(frag));
            assert(lowered(words_of(done) + case_words(frag)) == lowered(words_of(done)) + lowered(
                case_words(frag),
            ));
        }
        k += 1;
    }
    assert(views(frags@).take(frags.len() as int) == views(frags@));
    Ok(ans)
}

} // verus!
