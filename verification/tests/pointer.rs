use json_pointer_simd::JsonPointer;
use json_pointer_simd::ParseError;

fn parse(s: &str) -> JsonPointer {
    JsonPointer::parse(s).unwrap()
}

#[test]
fn new_and_parse_agree() {
    let built = JsonPointer::new(vec!["foo".to_string(), "bar".to_string()]);
    let parsed = parse("/foo/bar");
    assert_eq!(built, parsed);
    assert_eq!(built.to_string(), "/foo/bar");
    assert_eq!(parsed.to_string(), "/foo/bar");
}

#[test]
fn round_trip_plain() {
    for s in ["", "/", "/a~1b", "/m~0n", "/a//b", "/ ", "/foo/0", "/~0~1~0"] {
        let ptr = parse(s);
        assert_eq!(ptr.to_string(), s);
    }
}

#[test]
fn round_trip_fragment() {
    for s in ["#", "#/", "#/a~1b", "#/c%25d", "#/m~0n", "#/%20", "#/foo/0"] {
        let ptr = parse(s);
        assert_eq!(ptr.uri_fragment(), s);
    }
}

#[test]
fn fragment_hex_case_normalizes() {
    // uppercase hex is accepted but reformats to the canonical lowercase
    let ptr = parse("#/e%5Ef");
    assert_eq!(ptr, JsonPointer::new(vec!["e^f".to_string()]));
    assert_eq!(ptr.uri_fragment(), "#/e%5ef");
}

#[test]
fn fragment_decodes_before_splitting() {
    // a percent-encoded slash separates tokens, exactly as a literal one
    let ptr = parse("#/%2f");
    assert_eq!(ptr, JsonPointer::new(vec![String::new(), String::new()]));
    assert_eq!(ptr.uri_fragment(), "#//");
}

#[test]
fn parse_errors() {
    assert_eq!(JsonPointer::parse("a"), Err(ParseError::MissingLeadingSlash));
    assert_eq!(JsonPointer::parse("foo/bar"), Err(ParseError::MissingLeadingSlash));
    assert_eq!(JsonPointer::parse("/~"), Err(ParseError::EndInEscape));
    assert_eq!(JsonPointer::parse("/a~/b"), Err(ParseError::EndInEscape));
    assert_eq!(JsonPointer::parse("/~2"), Err(ParseError::InvalidEscape(b'2')));
    assert_eq!(JsonPointer::parse("/a~xb"), Err(ParseError::InvalidEscape(b'x')));
    assert_eq!(JsonPointer::parse("#/%g0"), Err(ParseError::InvalidPercentEncoding));
    assert_eq!(JsonPointer::parse("#/%2"), Err(ParseError::InvalidPercentEncoding));
    assert_eq!(JsonPointer::parse("#a"), Err(ParseError::MissingLeadingSlash));
}

#[test]
fn fragment_rejects_malformed_text() {
    // a lone continuation byte is a well-formed escape of malformed text
    assert_eq!(JsonPointer::parse("#/%ff"), Err(ParseError::InvalidPercentEncoding));
}

#[test]
fn fragment_reassembles_multibyte_text() {
    let ptr = parse("#/%c3%a9");
    assert_eq!(ptr, JsonPointer::new(vec!["\u{e9}".to_string()]));
    assert_eq!(ptr.to_string(), "/\u{e9}");
    assert_eq!(ptr.uri_fragment(), "#/%c3%a9");
}

#[test]
fn non_ascii_tokens_percent_encode() {
    let ptr = JsonPointer::new(vec!["\u{e9}".to_string()]);
    assert_eq!(ptr.uri_fragment(), "#/%c3%a9");
    assert_eq!(ptr.to_string(), "/\u{e9}");
}

#[test]
fn push_and_pop() {
    let mut ptr = JsonPointer::new(vec!["a".to_string()]);
    ptr.push("b/c".to_string());
    assert_eq!(ptr.to_string(), "/a/b~1c");
    assert_eq!(ptr.pop(), Some("b/c".to_string()));
    assert_eq!(ptr.to_string(), "/a");
    assert_eq!(ptr.pop(), Some("a".to_string()));
    assert_eq!(ptr.pop(), None);
    assert_eq!(ptr.to_string(), "");
}

#[test]
fn empty_tokens_are_tokens() {
    let ptr = parse("/");
    assert_eq!(ptr, JsonPointer::new(vec![String::new()]));
    let ptr = parse("//");
    assert_eq!(ptr, JsonPointer::new(vec![String::new(), String::new()]));
    assert_eq!(ptr.to_string(), "//");
}
