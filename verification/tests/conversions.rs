use caseconv::{
    to_camel, to_kebab, to_pascal, to_snack, to_upper, to_upper_first, CaseError, ToCamel,
    ToKebab, ToPascal, ToSnack, ToUpper, ToUpperFirst,
};
use caseconv::text::to_lower;

fn ok(s: &str) -> Result<String, CaseError> {
    Ok(s.to_string())
}

#[test]
fn initialisms_are_kept_in_capitals() {
    assert_eq!(ok("HTTPServer"), to_pascal("http_server"));
    assert_eq!(ok("httpServer"), to_camel("http_server"));
}

#[test]
fn the_first_word_of_camel_case_is_never_capitalized() {
    assert_eq!(ok("idOfUser"), to_camel("ID of user"));
    assert_eq!(ok("userID"), to_camel("user_id"));
    assert_eq!(ok("a"), to_camel("A"));
    assert_eq!(ok("xmlHTTPRequest"), to_camel("XmlHttpRequest"));
}

#[test]
fn pascal_case_capitalizes_every_word() {
    assert_eq!(ok("UserID"), to_pascal("user_id"));
    assert_eq!(ok("XMLHTTPRequest"), to_pascal("xml-http-request"));
    assert_eq!(ok("HelloWorld"), to_pascal("hello world"));
    assert_eq!(ok("HelloWorld"), to_pascal("helloWorld"));
    assert_eq!(ok("Md5Sum"), to_pascal("md5Sum"));
    assert_eq!(ok("Utf8"), to_pascal("utf-8"));
    assert_eq!(ok("UTF8"), to_pascal("utf8"));
    assert_eq!(ok("Utf8"), to_pascal("utf_8"));
}

#[test]
fn only_whole_words_count_as_initialisms() {
    assert_eq!(ok("Https2"), to_pascal("https2"));
    assert_eq!(ok("Httpx"), to_pascal("httpx"));
    assert_eq!(ok("HTTPSServer"), to_pascal("https_server"));
    assert_eq!(ok("Ids"), to_pascal("ids"));
}

#[test]
fn acronym_and_camel_boundaries() {
    assert_eq!(ok("ab_c"), to_snack("AbC"));
    assert_eq!(ok("aaa_bb"), to_snack("AAABb"));
    assert_eq!(ok("md5"), to_snack("MD5"));
}

#[test]
fn separators_collapse() {
    assert_eq!(ok("a_b"), to_snack("a--b"));
    assert_eq!(ok("a_bc"), to_snack("a_bc"));
    assert_eq!(ok("a_bc"), to_snack("a bc"));
    assert_eq!(ok("a-b"), to_kebab("a__b"));
    assert_eq!(ok("a-b"), to_kebab("  a,;b  "));
}

#[test]
fn snake_and_kebab_case() {
    assert_eq!(ok("http_server_id"), to_snack("HTTPServerID"));
    assert_eq!(ok("http-server-id"), to_kebab("HTTPServerID"));
    assert_eq!(ok("hello_world"), to_snack("helloWorld"));
    assert_eq!(ok("hello-world"), to_kebab("HelloWorld"));
    assert_eq!(ok("x"), to_snack("x"));
    assert_eq!(ok("x"), to_kebab("X"));
}

#[test]
fn empty_input_is_an_error() {
    assert_eq!(Err(CaseError::EmptyInput), to_camel(""));
    assert_eq!(Err(CaseError::EmptyInput), to_pascal(""));
    assert_eq!(Err(CaseError::EmptyInput), to_snack(""));
    assert_eq!(Err(CaseError::EmptyInput), to_kebab(""));
    assert_eq!(Err(CaseError::EmptyInput), to_upper_first(""));
    assert_eq!("input string should not be empty", CaseError::EmptyInput.message());
}

#[test]
fn separators_alone_give_an_empty_name() {
    assert_eq!(ok(""), to_camel("---"));
    assert_eq!(ok(""), to_pascal("---"));
    assert_eq!(ok(""), to_snack("---"));
    assert_eq!(ok(""), to_kebab(" "));
}

#[test]
fn upper_case() {
    assert_eq!("HTTP", to_upper("http"));
    assert_eq!("HELLO, WORLD 42!", to_upper("Hello, world 42!"));
    assert_eq!("", to_upper(""));
    assert_eq!("AZ`{", to_upper("az`{"));
    assert_eq!("STRAßE", to_upper("straße"));
}

#[test]
fn lower_case() {
    assert_eq!("http", to_lower("HTTP"));
    assert_eq!("hello, world 42!", to_lower("Hello, WORLD 42!"));
    assert_eq!("az@[", to_lower("AZ@["));
    assert_eq!("", to_lower(""));
}

#[test]
fn upper_first_case() {
    assert_eq!(ok("Hello"), to_upper_first("hello"));
    assert_eq!(ok("HELLO"), to_upper_first("hELLO"));
    assert_eq!(ok("Hello world"), to_upper_first("hello world"));
    assert_eq!(ok("Z"), to_upper_first("z"));
    assert_eq!(ok("1abc"), to_upper_first("1abc"));
    assert_eq!(ok("_abc"), to_upper_first("_abc"));
    assert_eq!(ok("éa"), to_upper_first("éa"));
}

#[test]
fn characters_beyond_ascii_separate_words() {
    assert_eq!(ok("h_llo_w_rld"), to_snack("héllo wörld"));
    assert_eq!(ok("HLlo"), to_pascal("héllo"));
}

#[test]
fn strings_convert_themselves() {
    let name = String::from("HTTPServer_id");
    assert_eq!(ok("http-server-id"), name.to_kebab());
    assert_eq!(ok("httpServerID"), name.to_camel());
    assert_eq!(ok("HTTPServerID"), name.to_pascal());
    assert_eq!(ok("http_server_id"), name.to_snack());
    assert_eq!("HTTPSERVER_ID", name.to_upper());
    assert_eq!(ok("HTTPServer_id"), name.to_upper_first());
    assert_eq!(Err(CaseError::EmptyInput), String::new().to_snack());
    assert_eq!(Err(CaseError::EmptyInput), String::new().to_upper_first());
    assert_eq!("", String::new().to_upper());
}
