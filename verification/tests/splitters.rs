use caseconv::{
    is_initialism, split_string_in_parts, split_via_special_chars, split_via_upper_chars,
    CaseError, State,
};
use caseconv::segment::starts_new_word;

fn strings(words: &[&str]) -> Vec<String> {
    words.iter().map(|w| w.to_string()).collect()
}

#[test]
fn test_split_via_special_chars_0() {
    assert_eq!(strings(&["abc"]), split_via_special_chars("abc").unwrap());
}

#[test]
fn test_split_via_special_chars_1() {
    assert_eq!(strings(&["a", "bc"]), split_via_special_chars("a_bc").unwrap());
}

#[test]
fn test_split_via_special_chars_2() {
    assert_eq!(strings(&["a", "bc"]), split_via_special_chars("a,bc").unwrap());
}

#[test]
fn test_split_via_special_chars_3() {
    assert_eq!(strings(&["ABC"]), split_via_special_chars("ABC").unwrap());
}

#[test]
fn test_split_via_special_chars_4() {
    assert_eq!(strings(&["A", "BC"]), split_via_special_chars("A-BC").unwrap());
}

#[test]
fn test_split_via_special_chars_5() {
    assert_eq!(strings(&["a", "b"]), split_via_special_chars("a--b").unwrap());
}

#[test]
fn split_via_upper_chars_0() {
    assert_eq!(strings(&["abc"]), split_via_upper_chars("abc").unwrap());
}

#[test]
fn split_via_upper_chars_1() {
    assert_eq!(strings(&["Abc"]), split_via_upper_chars("Abc").unwrap());
}

#[test]
fn split_via_upper_chars_2() {
    assert_eq!(strings(&["Ab", "C"]), split_via_upper_chars("AbC").unwrap());
}

#[test]
fn split_via_upper_chars_3() {
    assert_eq!(strings(&["Ab", "Cd"]), split_via_upper_chars("AbCd").unwrap());
}

#[test]
fn split_via_upper_chars_4() {
    assert_eq!(strings(&["AAA"]), split_via_upper_chars("AAA").unwrap());
}

#[test]
fn split_via_upper_chars_5() {
    assert_eq!(strings(&["AAA", "Bb"]), split_via_upper_chars("AAABb").unwrap());
}

#[test]
fn split_via_upper_chars_6() {
    assert_eq!(strings(&["MD5"]), split_via_upper_chars("MD5").unwrap());
}

#[test]
fn separators_at_the_ends_leave_no_empty_fragment() {
    assert_eq!(strings(&["a"]), split_via_special_chars("a-").unwrap());
    assert_eq!(strings(&["a"]), split_via_special_chars("-a").unwrap());
    assert_eq!(strings(&["a", "b"]), split_via_special_chars("__a  b..").unwrap());
    assert_eq!(strings(&["a", "bc"]), split_via_special_chars("a bc").unwrap());
}

#[test]
fn separators_alone_give_no_fragment() {
    assert_eq!(Vec::<String>::new(), split_via_special_chars("---").unwrap());
    assert_eq!(Vec::<String>::new(), split_via_special_chars(" ").unwrap());
    assert_eq!(Vec::<String>::new(), split_string_in_parts("-_- ").unwrap());
}

#[test]
fn fragments_keep_their_case_and_digits() {
    assert_eq!(
        strings(&["HTTPServer", "v2", "X"]),
        split_via_special_chars("HTTPServer.v2/X").unwrap()
    );
}

#[test]
fn characters_beyond_ascii_separate_fragments() {
    assert_eq!(strings(&["h", "llo", "w", "rld"]), split_via_special_chars("héllo wörld").unwrap());
    assert_eq!(Vec::<String>::new(), split_via_special_chars("ßé").unwrap());
}

#[test]
fn splitters_refuse_the_empty_string() {
    assert_eq!(Err(CaseError::EmptyInput), split_via_special_chars(""));
    assert_eq!(Err(CaseError::EmptyInput), split_via_upper_chars(""));
    assert_eq!(Err(CaseError::EmptyInput), split_string_in_parts(""));
}

#[test]
fn a_capital_after_a_small_letter_or_digit_begins_a_word() {
    assert_eq!(strings(&["ab", "Cd"]), split_via_upper_chars("abCd").unwrap());
    assert_eq!(strings(&["a1", "B"]), split_via_upper_chars("a1B").unwrap());
    assert_eq!(strings(&["md5", "Sum"]), split_via_upper_chars("md5Sum").unwrap());
    assert_eq!(strings(&["a", "BC"]), split_via_upper_chars("aBC").unwrap());
    assert_eq!(strings(&["a", "B", "Cd"]), split_via_upper_chars("aBCd").unwrap());
}

#[test]
fn the_last_capital_of_a_run_goes_with_the_small_letters_behind_it() {
    assert_eq!(strings(&["HTTP", "Server"]), split_via_upper_chars("HTTPServer").unwrap());
    assert_eq!(strings(&["A", "Bc"]), split_via_upper_chars("ABc").unwrap());
    assert_eq!(strings(&["AB1"]), split_via_upper_chars("AB1").unwrap());
    assert_eq!(strings(&["AB1c"]), split_via_upper_chars("AB1c").unwrap());
    assert_eq!(strings(&["A"]), split_via_upper_chars("A").unwrap());
    assert_eq!(strings(&["5"]), split_via_upper_chars("5").unwrap());
}

#[test]
fn a_capital_after_a_separator_begins_no_word() {
    assert_eq!(strings(&["a_B"]), split_via_upper_chars("a_B").unwrap());
    assert_eq!(strings(&["-A-Bc"]), split_via_upper_chars("-A-Bc").unwrap());
    assert_eq!(strings(&["A_Bc"]), split_via_upper_chars("A_Bc").unwrap());
    assert_eq!(strings(&["a_b", "B"]), split_via_upper_chars("a_bB").unwrap());
}

#[test]
fn canonical_words_are_in_small_letters() {
    assert_eq!(
        strings(&["http", "server", "id", "v2"]),
        split_string_in_parts("HTTPServer_ID--v2").unwrap()
    );
    assert_eq!(strings(&["aaa", "bb"]), split_string_in_parts("AAABb").unwrap());
    assert_eq!(strings(&["md5"]), split_string_in_parts("MD5").unwrap());
    assert_eq!(
        strings(&["get", "url", "from", "xml", "parser"]),
        split_string_in_parts("getURLFromXMLParser").unwrap()
    );
}

#[test]
fn classes_of_characters() {
    assert_eq!(State::Digit, State::of_char('0'));
    assert_eq!(State::Digit, State::of_char('9'));
    assert_eq!(State::Lower, State::of_char('a'));
    assert_eq!(State::Lower, State::of_char('z'));
    assert_eq!(State::Upper, State::of_char('A'));
    assert_eq!(State::Upper, State::of_char('Z'));
    assert_eq!(State::Split, State::of_char('_'));
    assert_eq!(State::Split, State::of_char(' '));
    assert_eq!(State::Split, State::of_char('/'));
    assert_eq!(State::Split, State::of_char(':'));
    assert_eq!(State::Split, State::of_char('@'));
    assert_eq!(State::Split, State::of_char('['));
    assert_eq!(State::Split, State::of_char('`'));
    assert_eq!(State::Split, State::of_char('{'));
    assert_eq!(State::Split, State::of_char('é'));
    assert_eq!(State::Upper, State::from(&'Q'));
    assert_eq!(State::Lower, State::from(&b'q'));
    assert_eq!(State::Digit, State::from(&b'7'));
    assert_eq!(State::Split, State::from(&0xc3u8));
}

#[test]
fn decision_table_of_word_starts() {
    let classes = [State::Upper, State::Lower, State::Digit, State::Split];
    let nexts = [
        None,
        Some(State::Upper),
        Some(State::Lower),
        Some(State::Digit),
        Some(State::Split),
    ];
    for prev in classes {
        for cur in classes {
            for next in nexts {
                let expected = cur == State::Upper
                    && (prev == State::Lower
                        || prev == State::Digit
                        || (prev == State::Upper && next == Some(State::Lower)));
                assert_eq!(expected, starts_new_word(prev, cur, next));
            }
        }
    }
    assert!(starts_new_word(State::Upper, State::Upper, Some(State::Lower)));
    assert!(!starts_new_word(State::Upper, State::Upper, None));
    assert!(!starts_new_word(State::Upper, State::Upper, Some(State::Digit)));
    assert!(starts_new_word(State::Lower, State::Upper, None));
    assert!(!starts_new_word(State::Split, State::Upper, Some(State::Lower)));
    assert!(!starts_new_word(State::Lower, State::Digit, Some(State::Upper)));
}

#[test]
fn dictionary_holds_the_common_initialisms() {
    let all = [
        "acl", "api", "ascii", "cpu", "css", "dns", "eof", "guid", "html", "http", "https", "id",
        "ip", "json", "lhs", "qps", "ram", "rhs", "rpc", "sla", "smtp", "sql", "ssh", "tcp",
        "tls", "ttl", "udp", "ui", "uid", "uuid", "uri", "url", "utf8", "vm", "xml", "xmpp",
        "xsrf", "xss",
    ];
    assert_eq!(38, all.len());
    for word in all {
        assert!(is_initialism(word));
    }
}

#[test]
fn dictionary_matches_whole_words_only() {
    assert!(!is_initialism(""));
    assert!(!is_initialism("htt"));
    assert!(!is_initialism("httpx"));
    assert!(!is_initialism("xhttp"));
    assert!(!is_initialism("HTTP"));
    assert!(!is_initialism("Id"));
    assert!(!is_initialism("server"));
    assert!(!is_initialism("utf"));
    assert!(!is_initialism("utf16"));
}
