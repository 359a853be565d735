use mail_parser::continuation::{merge_continuations, sort_continuations, Continuation};
use mail_parser::decoders::{base64_decode, charset_decoder, decode_charset, unescape_bytes, Charset};
use mail_parser::text::make_ascii_lowercase;
use mail_parser::MessageStream;

fn chars(s: &str) -> Vec<char> {
    s.chars().collect()
}

#[test]
fn base64_groups_and_padding() {
    assert_eq!(base64_decode(b"4Q=="), Some(vec![0xe1]));
    assert_eq!(base64_decode(b"w6k="), Some(vec![0xc3, 0xa9]));
    assert_eq!(base64_decode(b"TWFu"), Some(b"Man".to_vec()));
    assert_eq!(base64_decode(b"TWE"), Some(b"Ma".to_vec()));
    assert_eq!(base64_decode(b""), Some(vec![]));
    assert_eq!(base64_decode(b"4Q="), None);
    assert_eq!(base64_decode(b"T"), None);
    assert_eq!(base64_decode(b"T!Fu"), None);
}

#[test]
fn hex_escapes() {
    assert_eq!(unescape_bytes(b"a%20b%2a", b'%', false), Some(b"a b*".to_vec()));
    assert_eq!(unescape_bytes(b"a_b=3D", b'=', true), Some(b"a b=".to_vec()));
    assert_eq!(unescape_bytes(b"a_b", b'%', false), Some(b"a_b".to_vec()));
    assert_eq!(unescape_bytes(b"50%", b'%', false), None);
    assert_eq!(unescape_bytes(b"%g0", b'%', false), None);
}

#[test]
fn charset_names() {
    assert_eq!(charset_decoder(b"UTF-8"), Some(Charset::Utf8));
    assert_eq!(charset_decoder(b"utf8"), Some(Charset::Utf8));
    assert_eq!(charset_decoder(b"ISO-8859-1"), Some(Charset::Latin1));
    assert_eq!(charset_decoder(b"latin1"), Some(Charset::Latin1));
    assert_eq!(charset_decoder(b"iso-8859-6"), Some(Charset::Arabic));
    assert_eq!(charset_decoder(b"us-ascii"), None);
    assert_eq!(charset_decoder(b"utf-"), None);
}

#[test]
fn charset_decoding() {
    assert_eq!(decode_charset(Some(Charset::Latin1), &[0x63, 0xe9]), chars("c\u{e9}"));
    assert_eq!(decode_charset(Some(Charset::Arabic), &[0xc7, 0x20, 0xac, 0xa1]), chars("\u{627} \u{60c}\u{fffd}"));
    assert_eq!(decode_charset(Some(Charset::Utf8), &[0xc3, 0xa9]), chars("\u{e9}"));
    assert_eq!(decode_charset(None, &[0x61, 0xff]), chars("a\u{fffd}"));
}

#[test]
fn encoded_word_moves_cursor_only_on_success() {
    let mut stream = MessageStream::new(b"?iso-8859-1*fr?Q?a=E9?= rest");
    let text = stream.decode_rfc2047();
    assert_eq!(text, Some(chars("a\u{e9}")));
    assert_eq!(stream.offset(), 23);
    let mut bad = MessageStream::new(b"?utf-8?x?abc?=");
    assert_eq!(bad.decode_rfc2047(), None);
    assert_eq!(bad.offset(), 0);
    let mut open = MessageStream::new(b"?utf-8?q?abc\n?=");
    assert_eq!(open.decode_rfc2047(), None);
    assert_eq!(open.offset(), 0);
}

#[test]
fn ascii_lowercase_only() {
    let mut v = chars("AbC-\u{c9}");
    make_ascii_lowercase(&mut v);
    assert_eq!(v, chars("abc-\u{c9}"));
}

fn segment(name: &str, position: u32, value: &str) -> Continuation {
    Continuation { name: chars(name), position, value: chars(value) }
}

#[test]
fn segments_sort_by_name_position_value() {
    let sorted = sort_continuations(vec![
        segment("b", 1, "x"),
        segment("a", 2, "y"),
        segment("a", 1, "z"),
        segment("a", 1, "w"),
    ]);
    let keys: Vec<(String, u32, String)> = sorted
        .into_iter()
        .map(|c| (c.name.into_iter().collect(), c.position, c.value.into_iter().collect()))
        .collect();
    assert_eq!(
        keys,
        vec![
            ("a".to_string(), 1, "w".to_string()),
            ("a".to_string(), 1, "z".to_string()),
            ("a".to_string(), 2, "y".to_string()),
            ("b".to_string(), 1, "x".to_string()),
        ]
    );
}

#[test]
fn merge_appends_or_adds() {
    let mut attrs = vec![(chars("a"), chars("1"))];
    merge_continuations(&mut attrs, vec![segment("b", 2, "y"), segment("a", 1, "2"), segment("b", 1, "x")]);
    assert_eq!(attrs, vec![(chars("a"), chars("12")), (chars("b"), chars("xy"))]);
}
