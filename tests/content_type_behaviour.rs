use std::collections::HashMap;

use mail_parser::{ContentType, HeaderValue, MessageStream};

fn parse(input: &str) -> HeaderValue {
    MessageStream::new(input.as_bytes()).parse_content_type()
}

fn content_type(input: &str) -> ContentType {
    match parse(input) {
        HeaderValue::ContentType(ct) => ct,
        HeaderValue::Empty => panic!("no content type in {:?}", input),
    }
}

fn attributes(ct: &ContentType) -> HashMap<String, String> {
    ct.attributes.clone().unwrap_or_default().into_iter().collect()
}

#[test]
fn names_are_lowercased_values_kept() {
    let ct = content_type("TEXT/Plain; Charset=US-ascii\n");
    assert_eq!(ct.c_type, "text");
    assert_eq!(ct.c_subtype.as_deref(), Some("plain"));
    assert_eq!(ct.attributes, Some(vec![("charset".to_string(), "US-ascii".to_string())]));
}

#[test]
fn blanks_around_tokens_are_dropped() {
    let ct = content_type(" \tImage /\tPNG ;  Name =  a.png \t\n");
    assert_eq!(ct.c_type, "image");
    assert_eq!(ct.c_subtype.as_deref(), Some("png"));
    assert_eq!(ct.attributes, Some(vec![("name".to_string(), "a.png".to_string())]));
}

#[test]
fn repeated_parameter_replaces_earlier_one() {
    let ct = content_type("a/b; x=1; y=2; X=3\n");
    assert_eq!(
        ct.attributes,
        Some(vec![("x".to_string(), "3".to_string()), ("y".to_string(), "2".to_string())])
    );
}

#[test]
fn comments_around_tokens_are_dropped() {
    let ct = content_type("(a) Text (b) /(c) Plain (d); (e) Name= (f) Va.l (g x)\n");
    assert_eq!(ct.c_type, "text");
    assert_eq!(ct.c_subtype.as_deref(), Some("plain"));
    assert_eq!(ct.attributes, Some(vec![("name".to_string(), "Va.l".to_string())]));
}

#[test]
fn continuation_order_does_not_matter() {
    let forward = content_type("a/b; attr*0=a; attr*1=b\n");
    let backward = content_type("a/b; attr*1=b; attr*0=a\n");
    assert_eq!(attributes(&forward).get("attr").map(String::as_str), Some("ab"));
    assert_eq!(attributes(&backward).get("attr").map(String::as_str), Some("ab"));
}

#[test]
fn continuation_segments_join_in_position_order() {
    let ct = content_type("a/b; x*2=c; x*10=d; x*1=b; x*0=a\n");
    assert_eq!(attributes(&ct).get("x").map(String::as_str), Some("abcd"));
}

#[test]
fn encoded_first_segment_with_charset_and_language() {
    let ct = content_type("application/x-stuff; title*0*=us-ascii'en'This%20is%20fun; title*1=\" more\"\n");
    let attrs = attributes(&ct);
    assert_eq!(attrs.get("title").map(String::as_str), Some("This is fun more"));
    assert_eq!(attrs.get("title-language").map(String::as_str), Some("en"));
    assert_eq!(attrs.len(), 2);
}

#[test]
fn encoded_latin1_segment_is_decoded() {
    let ct = content_type("text/plain; name*=iso-8859-1''caf%E9.txt\n");
    assert_eq!(attributes(&ct).get("name").map(String::as_str), Some("caf\u{e9}.txt"));
}

#[test]
fn malformed_percent_escape_is_kept_verbatim() {
    let ct = content_type("text/plain; name*=utf-8''a%2x\n");
    assert_eq!(attributes(&ct).get("name").map(String::as_str), Some("a%2x"));
}

#[test]
fn encoded_word_in_quoted_value() {
    let ct = content_type("image/png; name=\"=?utf-8?q?caf=C3=A9_noir?=.png\"\n");
    assert_eq!(attributes(&ct).get("name").map(String::as_str), Some("caf\u{e9} noir.png"));
}

#[test]
fn encoded_word_base64_utf8() {
    let ct = content_type("image/png; name==?UTF-8?B?w6k=?=\n");
    assert_eq!(attributes(&ct).get("name").map(String::as_str), Some("\u{e9}"));
}

#[test]
fn false_encoded_word_is_literal() {
    let ct = content_type("a/b; name=\"=?x\"\n");
    assert_eq!(attributes(&ct).get("name").map(String::as_str), Some("=?x"));
}

#[test]
fn missing_type_gives_empty() {
    for input in ["/invalid\n", ";\n", "/ ; name=value\n", "\n", "(comment)\n"] {
        assert_eq!(parse(input), HeaderValue::Empty, "input {:?}", input);
    }
}

#[test]
fn unterminated_field_gives_empty() {
    assert_eq!(parse("text/plain"), HeaderValue::Empty);
    assert_eq!(parse(""), HeaderValue::Empty);
}

#[test]
fn repeated_parsing_is_identical() {
    let input = "multipart/mixed; boundary=\"x y\"; title*1=b; title*0*=utf-8''a%41\n";
    let first = parse(input);
    let second = parse(input);
    assert_eq!(first, second);
    let ct = content_type(input);
    assert_eq!(attributes(&ct).get("title").map(String::as_str), Some("aAb"));
}

#[test]
fn malformed_markers_do_not_disturb_other_attributes() {
    let ct = content_type(
        "text/plain; charset=utf-8; a***=x; *=y; =z; b*99999999999=q; c*0**=r; format=flowed\n",
    );
    let attrs = attributes(&ct);
    assert_eq!(ct.c_type, "text");
    assert_eq!(ct.c_subtype.as_deref(), Some("plain"));
    assert_eq!(attrs.get("charset").map(String::as_str), Some("utf-8"));
    assert_eq!(attrs.get("format").map(String::as_str), Some("flowed"));
}

#[test]
fn nested_comments_are_dropped() {
    let ct = content_type("(a(b)c) text (d) / (e) plain (f)\n");
    assert_eq!(ct.c_type, "text");
    assert_eq!(ct.c_subtype.as_deref(), Some("plain"));
    assert_eq!(ct.attributes, None);
}

#[test]
fn folded_field_continues_on_next_line() {
    let ct = content_type("text/plain;\n\tcharset=utf-8\n");
    assert_eq!(attributes(&ct).get("charset").map(String::as_str), Some("utf-8"));
}

#[test]
fn quoted_fold_is_removed() {
    let ct = content_type("a/b; name=\"x\r\n y\"\n");
    assert_eq!(attributes(&ct).get("name").map(String::as_str), Some("x y"));
}

#[test]
fn carriage_return_inside_token_is_dropped() {
    let ct = content_type("a/b; x=a\rb; n\rm=1\n");
    let attrs = attributes(&ct);
    assert_eq!(attrs.get("x").map(String::as_str), Some("ab"));
    assert_eq!(attrs.get("nm").map(String::as_str), Some("1"));
}

#[test]
fn fold_before_escape_in_quotes_is_dropped() {
    let ct = content_type("a/b; n=\"x\n y\\z\"\n");
    assert_eq!(attributes(&ct).get("n").map(String::as_str), Some("x yz"));
}

#[test]
fn decoded_line_breaks_are_dropped() {
    let ct = content_type("a/b; n==?utf-8?q?a=0D=0Ab?=; t*0*=utf-8''c%0Dd\n");
    let attrs = attributes(&ct);
    assert_eq!(attrs.get("n").map(String::as_str), Some("ab"));
    assert_eq!(attrs.get("t").map(String::as_str), Some("cd"));
}

#[test]
fn escaped_quote_inside_quotes() {
    let ct = content_type("a/b; name=\"say \\\"hi\\\"\"\n");
    assert_eq!(attributes(&ct).get("name").map(String::as_str), Some("say \"hi\""));
}

#[test]
fn cursor_stops_after_the_field() {
    let mut stream = MessageStream::new(b"text/plain\nSubject: x\n");
    let value = stream.parse_content_type();
    assert!(matches!(value, HeaderValue::ContentType(_)));
    assert_eq!(stream.offset(), 11);
    let mut folded = MessageStream::new(b"text/plain;\n a=b\nX: y\n");
    folded.parse_content_type();
    assert_eq!(folded.offset(), 17);
}

#[test]
fn position_with_plus_sign_and_overflow() {
    let ct = content_type("a/b; k*+1=x; k*0=y\n");
    assert_eq!(attributes(&ct).get("k").map(String::as_str), Some("yx"));
    let big = content_type("a/b; k*4294967296=z\n");
    assert_eq!(attributes(&big).get("k").map(String::as_str), Some("z"));
    let max = content_type("a/b; k*4294967295=z; k*0=y\n");
    assert_eq!(attributes(&max).get("k").map(String::as_str), Some("yz"));
}

#[test]
fn second_language_keeps_apostrophe() {
    let ct = content_type("a/b; t*0*=utf-8'en'x'y\n");
    let attrs = attributes(&ct);
    assert_eq!(attrs.get("t-language").map(String::as_str), Some("en"));
    assert_eq!(attrs.get("t").map(String::as_str), Some("x'y"));
}

#[test]
fn invalid_utf8_in_value_is_replaced() {
    let ct = content_type_bytes(b"a/b; n=x\xffy\n");
    assert_eq!(attributes(&ct).get("n").map(String::as_str), Some("x\u{fffd}y"));
}

fn content_type_bytes(input: &[u8]) -> ContentType {
    match MessageStream::new(input).parse_content_type() {
        HeaderValue::ContentType(ct) => ct,
        HeaderValue::Empty => panic!("no content type"),
    }
}
