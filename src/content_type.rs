use vstd::prelude::*;
use vstd::utf8::encode_utf8;

use crate::continuation::{
    find_name, lemma_find_name_bounds, lemma_merge_segments_unique, lemma_put_pair_unique, lemma_sort_segments,
    merge_segment, merge_segments, put_pair, reassemble, sort_segments, unique_names, Pair, Segment,
};
use crate::decoders::{charset_named, decode_text, percent_decode};
use crate::stream::encoded_word;
use crate::text::{lower_ascii, utf8_lossy};

verus! {

// The bytes that the grammar of the field gives a meaning.
pub const SPACE: u8 = 0x20;
pub const TAB: u8 = 0x09;
pub const LF: u8 = 0x0a;
pub const CR: u8 = 0x0d;
pub const SLASH: u8 = 0x2f;
pub const SEMICOLON: u8 = 0x3b;
pub const STAR: u8 = 0x2a;
pub const EQUALS: u8 = 0x3d;
pub const QUOTE: u8 = 0x22;
pub const BACKSLASH: u8 = 0x5c;
pub const APOSTROPHE: u8 = 0x27;
pub const OPEN_PAREN: u8 = 0x28;
pub const CLOSE_PAREN: u8 = 0x29;
pub const QUESTION: u8 = 0x3f;
pub const PLUS: u8 = 0x2b;

/// A parsed `Content-Type` field: type, subtype and parameters.
#[derive(Clone, Debug, PartialEq, Eq)]
pub struct ContentType {
    pub c_type: String,
    pub c_subtype: Option<String>,
    pub attributes: Option<Vec<(String, String)>>,
}

/// The value of a header field: a content type, or nothing where the field
/// names no type.
#[derive(Clone, Debug, PartialEq, Eq)]
pub enum HeaderValue {
    ContentType(ContentType),
    Empty,
}

/// What a `ContentType` holds, as sequences of characters.
pub struct ContentTypeModel {
    pub c_type: Seq<char>,
    pub c_subtype: Option<Seq<char>>,
    pub attributes: Option<Seq<Pair>>,
}

/// What a `HeaderValue` holds.
pub enum HeaderValueModel {
    ContentType(ContentTypeModel),
    Empty,
}

/// The characters that an optional string holds.
pub open spec fn string_opt(o: Option<String>) -> Option<Seq<char>> {
    match o {
        Some(s) => Some(s@),
        None => None,
    }
}

/// The name and value pairs that the vector holds.
pub open spec fn string_pairs(v: Seq<(String, String)>) -> Seq<Pair> {
    v.map_values(|p: (String, String)| (p.0@, p.1@))
}

impl View for ContentType {
    type V = ContentTypeModel;

    open spec fn view(&self) -> ContentTypeModel {
        ContentTypeModel {
            c_type: self.c_type@,
            c_subtype: string_opt(self.c_subtype),
            attributes: match self.attributes {
                Some(a) => Some(string_pairs(a@)),
                None => None,
            },
        }
    }
}

impl View for HeaderValue {
    type V = HeaderValueModel;

    open spec fn view(&self) -> HeaderValueModel {
        match self {
            HeaderValue::ContentType(c) => HeaderValueModel::ContentType(c@),
            HeaderValue::Empty => HeaderValueModel::Empty,
        }
    }
}

/// Where the parser stands within the field.
#[derive(Clone, Copy, Debug, PartialEq, Eq, Structural)]
pub enum ContentState {
    Type,
    SubType,
    AttributeName,
    AttributeValue,
    AttributeQuotedValue,
    Comment,
}

/// Everything the parser knows between two bytes of the field.
pub struct ParseState {
    pub state: ContentState,
    /// The states that the open comments interrupted, innermost last.
    pub stack: Seq<ContentState>,
    pub c_type: Option<Seq<char>>,
    pub c_subtype: Option<Seq<char>>,
    /// The name of the parameter whose value is being read.
    pub attr_name: Option<Seq<char>>,
    /// The charset named by the RFC 2231 prefix of the current segment.
    pub attr_charset: Option<Seq<u8>>,
    /// The position of the current RFC 2231 segment; 0 where none was given.
    pub attr_position: u32,
    /// The pieces of the current value read so far, joined.
    pub values: Seq<char>,
    /// Whether any piece was read, even an empty one.
    pub has_values: bool,
    /// The complete parameters, in the order they were completed.
    pub attributes: Seq<Pair>,
    /// The segments past the first, deferred until the field ends.
    pub continuations: Option<Seq<Segment>>,
    /// One past the index of the first byte of the pending token; 0 where
    /// there is none.
    pub token_start: int,
    /// One past the index of the last byte of the pending token.
    pub token_end: int,
    /// The parameter name carries a `*`.
    pub is_continuation: bool,
    /// The parameter name carries a second `*`: its value is percent-encoded.
    pub is_encoded_attribute: bool,
    /// The last byte was an unconsumed backslash.
    pub is_escaped: bool,
    /// No token byte was read since the last blank or delimiter.
    pub is_token_start: bool,
}

/// What one byte does: the parser goes on from a new state and index, or
/// the field ends with a value at an index.
pub enum Step {
    Next(ParseState, int),
    Done(HeaderValueModel, int),
}

/// The state before the first byte of a field.
pub open spec fn initial_state() -> ParseState {
    ParseState {
        state: ContentState::Type,
        stack: Seq::empty(),
        c_type: None,
        c_subtype: None,
        attr_name: None,
        attr_charset: None,
        attr_position: 0,
        values: Seq::empty(),
        has_values: false,
        attributes: Seq::empty(),
        continuations: None,
        token_start: 0,
        token_end: 0,
        is_continuation: false,
        is_encoded_attribute: false,
        is_escaped: false,
        is_token_start: true,
    }
}

/// The bytes of the pending token (its start is kept one past its index).
pub open spec fn token(s: ParseState, data: Seq<u8>) -> Seq<u8> {
    data.subrange(s.token_start - 1, s.token_end)
}

/// No token is pending, and the next byte starts one.
pub open spec fn reset(s: ParseState) -> ParseState {
    ParseState { token_start: 0, is_token_start: true, ..s }
}

/// The text of the bytes `b`, which carriage returns and line feeds never
/// enter: they are taken out of the bytes before decoding.
pub open spec fn span_text(b: Seq<u8>) -> Seq<char> {
    utf8_lossy(strip_crlf(b))
}

/// `s` without carriage returns and line feeds.
pub open spec fn no_crlf(s: Seq<char>) -> Seq<char>
    decreases s.len(),
{
    if s.len() == 0 {
        s
    } else if s.last() == '\r' || s.last() == '\n' {
        no_crlf(s.drop_last())
    } else {
        no_crlf(s.drop_last()).push(s.last())
    }
}

/// `b` without its carriage returns and line feeds.
pub open spec fn strip_crlf(b: Seq<u8>) -> Seq<u8>
    decreases b.len(),
{
    if b.len() == 0 {
        b
    } else if b.last() == CR || b.last() == LF {
        strip_crlf(b.drop_last())
    } else {
        strip_crlf(b.drop_last()).push(b.last())
    }
}

/// An ASCII decimal digit.
pub open spec fn is_digit(b: u8) -> bool {
    0x30 <= b && b <= 0x39
}

/// The number that the decimal digits `b` spell.
pub open spec fn digits_value(b: Seq<u8>) -> int
    decreases b.len(),
{
    if b.len() == 0 {
        0
    } else {
        digits_value(b.drop_last()) * 10 + (b.last() - 0x30)
    }
}

/// The number that `b` spells as a `u32`: an optional `+`, then decimal
/// digits; 0 where it spells none, or one too large.
pub open spec fn position_value(b: Seq<u8>) -> u32 {
    let d = unsigned_part(b);
    if d.len() > 0 && all_digits(d) && digits_value(d) <= u32::MAX {
        digits_value(d) as u32
    } else {
        0
    }
}

/// `b` without a leading `+`.
pub open spec fn unsigned_part(b: Seq<u8>) -> Seq<u8> {
    if b.len() > 0 && b[0] == PLUS {
        b.drop_first()
    } else {
        b
    }
}

/// Every byte of `d` is a decimal digit.
pub open spec fn all_digits(d: Seq<u8>) -> bool {
    forall|i: int| 0 <= i < d.len() ==> is_digit(#[trigger] d[i])
}

/// The pending token becomes the type, the subtype or the parameter name,
/// as the state says, in lower case.
#[verifier::opaque]
pub open spec fn add_attribute(s: ParseState, data: Seq<u8>) -> (ParseState, bool) {
    if s.token_start > 0 {
        let attr = lower_ascii(span_text(token(s, data)));
        let s2 = match s.state {
            ContentState::AttributeName => ParseState { attr_name: Some(attr), ..s },
            ContentState::Type => ParseState { c_type: Some(attr), ..s },
            ContentState::SubType => ParseState { c_subtype: Some(attr), ..s },
            _ => s,
        };
        (reset(s2), true)
    } else {
        (s, false)
    }
}

/// The name of the parameter that holds the language of the current one.
pub open spec fn language_name(s: ParseState) -> Seq<char> {
    let base = match s.attr_name {
        Some(n) => n,
        None => "unknown"@,
    };
    base + "-language"@
}

/// A part of an RFC 2231 `charset'language'` prefix ends: the first is the
/// charset, the second becomes the `-language` parameter where none is yet;
/// after that the part is text of the value, and so is the apostrophe that
/// ends it.
#[verifier::opaque]
pub open spec fn add_attribute_parameter(s: ParseState, data: Seq<u8>) -> ParseState {
    if s.token_start > 0 {
        let part = token(s, data);
        let s1 = if s.attr_charset is None {
            ParseState { attr_charset: Some(part), ..s }
        } else if find_name(s.attributes, language_name(s)) == s.attributes.len() {
            ParseState { attributes: s.attributes.push((language_name(s), no_crlf(span_text(part)))), ..s }
        } else {
            ParseState { values: s.values + no_crlf(span_text(part)) + seq!['\''], has_values: true, ..s }
        };
        reset(s1)
    } else {
        s
    }
}

/// A value is interrupted: the pending token joins the value's pieces; an
/// unquoted one with a trailing space. Within quotes, at a backslash, the
/// piece ends before the backslash at `offset - 1`.
#[verifier::opaque]
pub open spec fn add_partial_value(s: ParseState, data: Seq<u8>, to_cur_pos: bool, offset: int) -> ParseState {
    if s.token_start > 0 {
        let in_quote = s.state == ContentState::AttributeQuotedValue;
        let end = if in_quote && to_cur_pos {
            offset - 1
        } else {
            s.token_end
        };
        let piece = no_crlf(span_text(data.subrange(s.token_start - 1, end)));
        let values = if in_quote {
            s.values + piece
        } else {
            s.values + piece + seq![' ']
        };
        reset(ParseState { values: values, has_values: true, ..s })
    } else {
        s
    }
}

/// The whole value of the current parameter: its pieces and pending token.
pub open spec fn joined_value(s: ParseState, data: Seq<u8>) -> Seq<char> {
    if s.token_start > 0 {
        s.values + no_crlf(span_text(token(s, data)))
    } else {
        s.values
    }
}

/// An RFC 2231 `*`-marked segment: percent-decoded and read in its charset,
/// or kept as it is where its escapes are malformed.
pub open spec fn decoded_segment(s: ParseState, v: Seq<char>) -> Seq<char> {
    match percent_decode(encode_utf8(v)) {
        Some(b) => no_crlf(
            decode_text(
                match s.attr_charset {
                    Some(c) => charset_named(c),
                    None => None,
                },
                b,
            ),
        ),
        None => v,
    }
}

/// The segments deferred so far.
pub open spec fn pending_segments(s: ParseState) -> Seq<Segment> {
    match s.continuations {
        Some(l) => l,
        None => Seq::empty(),
    }
}

/// The value of the current parameter is complete: it joins the
/// parameters, in place of an earlier one of the same name, or, as a
/// segment past the first, waits for reassembly.
#[verifier::opaque]
pub open spec fn add_value(s: ParseState, data: Seq<u8>) -> ParseState {
    if s.attr_name is None || (s.token_start == 0 && !s.has_values) {
        s
    } else {
        let name = s.attr_name->0;
        let joined = joined_value(s, data);
        let s1 = ParseState { attr_name: None, ..s };
        let s2 = if !s.is_continuation {
            ParseState { attributes: put_pair(s.attributes, (name, joined)), ..s1 }
        } else {
            let value = if s.is_encoded_attribute {
                decoded_segment(s, joined)
            } else {
                joined
            };
            let s3 = ParseState { is_encoded_attribute: false, is_continuation: false, attr_charset: None, ..s1 };
            if s.attr_position > 0 {
                ParseState {
                    continuations: Some(pending_segments(s).push((name, s.attr_position, value))),
                    attr_position: 0,
                    ..s3
                }
            } else {
                ParseState { attributes: put_pair(s.attributes, (name, value)), ..s3 }
            }
        };
        reset(ParseState { values: Seq::empty(), has_values: false, ..s2 })
    }
}

/// The pending token is the position of an RFC 2231 segment.
#[verifier::opaque]
pub open spec fn add_attr_position(s: ParseState, data: Seq<u8>) -> (ParseState, bool) {
    if s.token_start > 0 {
        (reset(ParseState { attr_position: position_value(token(s, data)), ..s }), true)
    } else {
        (s, false)
    }
}

/// The pending token reaches the byte at `offset - 1`.
pub open spec fn extend_token(s: ParseState, offset: int) -> ParseState {
    ParseState {
        token_start: if s.token_start == 0 {
            offset
        } else {
            s.token_start
        },
        token_end: offset,
        ..s
    }
}

/// The byte at `offset - 1` joins the pending token as text.
pub open spec fn accumulate(s: ParseState, offset: int) -> ParseState {
    extend_token(ParseState { is_escaped: false, is_token_start: false, ..s }, offset)
}

/// The value that the field yields once it ends in state `s`.
#[verifier::opaque]
pub open spec fn finish(s: ParseState) -> HeaderValueModel {
    let attributes = match s.continuations {
        Some(c) => reassemble(s.attributes, c),
        None => s.attributes,
    };
    match s.c_type {
        Some(t) => HeaderValueModel::ContentType(
            ContentTypeModel {
                c_type: t,
                c_subtype: s.c_subtype,
                attributes: if attributes.len() > 0 {
                    Some(attributes)
                } else {
                    None
                },
            },
        ),
        None => HeaderValueModel::Empty,
    }
}

/// The states in which a token is a type, subtype or parameter name.
pub open spec fn is_name_state(st: ContentState) -> bool {
    st == ContentState::Type || st == ContentState::SubType || st == ContentState::AttributeName
}

/// The states in which a token is part of a value.
pub open spec fn is_value_state(st: ContentState) -> bool {
    st == ContentState::AttributeValue || st == ContentState::AttributeQuotedValue
}

/// The state that the innermost open comment interrupted.
pub open spec fn pop_state(stack: Seq<ContentState>) -> ContentState {
    if stack.len() > 0 {
        stack.last()
    } else {
        ContentState::AttributeName
    }
}

/// A space or tab ends a token; within quotes it joins it.
pub open spec fn blank_step(s: ParseState, o: int) -> ParseState {
    let s1 = ParseState { is_token_start: true, ..s };
    if s.state == ContentState::AttributeQuotedValue {
        extend_token(s1, o)
    } else {
        s1
    }
}

/// A line feed ends the field, unless the next line starts with a space or
/// tab and so continues it.
pub open spec fn newline_step(data: Seq<u8>, pos: int, s: ParseState) -> Step {
    let o = pos + 1;
    let st = s.state;
    let next_is_space = o < data.len() && (data[o] == SPACE || data[o] == TAB);
    if st == ContentState::AttributeQuotedValue && next_is_space {
        Step::Next(s, o)
    } else {
        let s1 = if is_name_state(st) {
            add_attribute(s, data).0
        } else if is_value_state(st) {
            add_value(s, data)
        } else {
            s
        };
        if next_is_space {
            Step::Next(ParseState { state: ContentState::AttributeName, is_token_start: true, ..s1 }, o + 1)
        } else {
            Step::Done(finish(s1), o)
        }
    }
}

/// `/` ends the type, `;` a name or an unquoted value, `*` and `=` mark
/// the parts of a parameter name.
pub open spec fn delimiter_step(data: Seq<u8>, c: u8, s: ParseState) -> ParseState {
    if c == SLASH {
        ParseState { state: ContentState::SubType, ..add_attribute(s, data).0 }
    } else if c == SEMICOLON && s.state != ContentState::AttributeValue {
        ParseState { state: ContentState::AttributeName, ..add_attribute(s, data).0 }
    } else if c == SEMICOLON {
        if !s.is_escaped {
            ParseState { state: ContentState::AttributeName, ..add_value(s, data) }
        } else {
            ParseState { is_escaped: false, ..s }
        }
    } else if c == STAR {
        if !s.is_continuation {
            let (s1, ok) = add_attribute(s, data);
            ParseState { is_continuation: ok, ..s1 }
        } else if !s.is_encoded_attribute {
            ParseState { is_encoded_attribute: true, ..add_attr_position(s, data).0 }
        } else {
            reset(s)
        }
    } else {
        if !s.is_continuation {
            let (s1, ok) = add_attribute(s, data);
            if ok {
                ParseState { state: ContentState::AttributeValue, ..s1 }
            } else {
                s1
            }
        } else if !s.is_encoded_attribute {
            let (s1, ok) = add_attr_position(s, data);
            ParseState { is_encoded_attribute: !ok, state: ContentState::AttributeValue, ..s1 }
        } else {
            ParseState { state: ContentState::AttributeValue, ..reset(s) }
        }
    }
}

/// Quotes, escapes, RFC 2231 prefixes, comments, and the text of tokens.
pub open spec fn plain_step(data: Seq<u8>, pos: int, s: ParseState) -> ParseState {
    let c = data[pos];
    let o = pos + 1;
    let st = s.state;
    if c == QUOTE && st == ContentState::AttributeValue {
        ParseState { is_token_start: true, state: ContentState::AttributeQuotedValue, ..s }
    } else if c == QUOTE && st == ContentState::AttributeQuotedValue && !s.is_escaped {
        ParseState { state: ContentState::AttributeName, ..add_value(s, data) }
    } else if c == QUOTE && st != ContentState::AttributeQuotedValue {
        s
    } else if c == BACKSLASH && is_value_state(st) && !s.is_escaped {
        ParseState { is_escaped: true, ..add_partial_value(s, data, true, o) }
    } else if c == BACKSLASH && !is_value_state(st) && st != ContentState::Comment {
        s
    } else if c == APOSTROPHE && s.is_encoded_attribute && !s.is_escaped && is_value_state(st) {
        add_attribute_parameter(s, data)
    } else if c == OPEN_PAREN && st != ContentState::AttributeQuotedValue {
        if !s.is_escaped {
            let s1 = if is_name_state(st) {
                add_attribute(s, data).0
            } else if st == ContentState::AttributeValue {
                add_value(s, data)
            } else {
                s
            };
            ParseState { stack: s1.stack.push(st), state: ContentState::Comment, ..s1 }
        } else {
            ParseState { is_escaped: false, ..s }
        }
    } else if c == CLOSE_PAREN && st == ContentState::Comment {
        if !s.is_escaped {
            reset(ParseState { state: pop_state(s.stack), stack: s.stack.drop_last(), ..s })
        } else {
            ParseState { is_escaped: false, ..s }
        }
    } else if c == CR {
        s
    } else {
        accumulate(s, o)
    }
}

/// `/` after the type, `;` outside quotes and comments, and `*` or `=`
/// within a parameter name.
pub open spec fn is_delimiter(c: u8, st: ContentState) -> bool {
    ||| (c == SLASH && st == ContentState::Type)
    ||| (c == SEMICOLON && (is_name_state(st) || st == ContentState::AttributeValue))
    ||| ((c == STAR || c == EQUALS) && st == ContentState::AttributeName)
}

/// What the byte at `pos` does in state `s`.
pub open spec fn step(data: Seq<u8>, pos: int, s: ParseState) -> Step {
    let c = data[pos];
    let o = pos + 1;
    if c == SPACE || c == TAB {
        Step::Next(blank_step(s, o), o)
    } else if c == LF {
        newline_step(data, pos, s)
    } else if is_delimiter(c, s.state) {
        Step::Next(delimiter_step(data, c, s), o)
    } else if c == EQUALS && is_value_state(s.state) && s.is_token_start && encoded_word(data, o) is Some {
        let (text, end) = encoded_word(data, o)->0;
        let s1 = add_partial_value(s, data, false, o);
        Step::Next(ParseState { values: s1.values + no_crlf(text), has_values: true, ..s1 }, end)
    } else {
        Step::Next(plain_step(data, pos, s), o)
    }
}

/// The value of the field read from `pos` on in state `s`, and the index
/// where reading stopped. A field that ends without its line feed yields
/// nothing.
pub open spec fn run(data: Seq<u8>, pos: int, s: ParseState) -> (HeaderValueModel, int)
    decreases data.len() - pos,
{
    if pos < 0 || pos >= data.len() {
        (HeaderValueModel::Empty, pos)
    } else {
        match step(data, pos, s) {
            Step::Next(s2, p2) => if pos < p2 <= data.len() {
                run(data, p2, s2)
            } else {
                (HeaderValueModel::Empty, pos)
            },
            Step::Done(v, p2) => (v, p2),
        }
    }
}

/// The value of the `Content-Type` field whose bytes start at `pos`, and
/// the index just past its last line feed.
pub open spec fn content_type_of(data: Seq<u8>, pos: int) -> (HeaderValueModel, int) {
    run(data, pos, initial_state())
}

/// A byte that may stand in a plain token: none of those that delimit,
/// quote, escape, fold or comment.
pub open spec fn is_token_byte(c: u8) -> bool {
    &&& c != SPACE && c != TAB && c != LF && c != CR
    &&& c != SLASH && c != SEMICOLON && c != STAR && c != EQUALS
    &&& c != QUOTE && c != BACKSLASH && c != APOSTROPHE && c != OPEN_PAREN && c != CLOSE_PAREN
}

/// A non-empty run of token bytes.
pub open spec fn is_token(t: Seq<u8>) -> bool {
    t.len() > 0 && forall|i: int| 0 <= i < t.len() ==> is_token_byte(#[trigger] t[i])
}

/// Spaces and tabs only (possibly none).
pub open spec fn is_blanks(w: Seq<u8>) -> bool {
    forall|i: int| 0 <= i < w.len() ==> (#[trigger] w[i] == SPACE || w[i] == TAB)
}

/// The state once the token bytes in `[a, b)` have been read in state `s`.
pub open spec fn after_token(s: ParseState, a: int, b: int) -> ParseState {
    if a < b {
        ParseState {
            is_escaped: false,
            is_token_start: false,
            token_start: if s.token_start == 0 {
                a + 1
            } else {
                s.token_start
            },
            token_end: b,
            ..s
        }
    } else {
        s
    }
}

/// The state once the blanks in `[a, b)` have been read in state `s`.
pub open spec fn after_blanks(s: ParseState, a: int, b: int) -> ParseState {
    if a < b {
        ParseState { is_token_start: true, ..s }
    } else {
        s
    }
}

/// Reading token bytes extends the pending token.
pub proof fn lemma_run_token(data: Seq<u8>, a: int, b: int, s: ParseState)
    requires
        0 <= a <= b <= data.len(),
        forall|k: int| a <= k < b ==> is_token_byte(#[trigger] data[k]),
    ensures
        run(data, a, s) == run(data, b, after_token(s, a, b)),
    decreases b - a,
{
    if a < b {
        assert(is_token_byte(data[a]));
        assert(step(data, a, s) == Step::Next(accumulate(s, a + 1), a + 1));
        lemma_run_token(data, a + 1, b, accumulate(s, a + 1));
        assert(after_token(accumulate(s, a + 1), a + 1, b) == after_token(s, a, b));
    }
}

/// Reading blanks outside quotes only marks the start of a token.
pub proof fn lemma_run_blanks(data: Seq<u8>, a: int, b: int, s: ParseState)
    requires
        0 <= a <= b <= data.len(),
        s.state != ContentState::AttributeQuotedValue,
        forall|k: int| a <= k < b ==> (#[trigger] data[k] == SPACE || data[k] == TAB),
    ensures
        run(data, a, s) == run(data, b, after_blanks(s, a, b)),
    decreases b - a,
{
    if a < b {
        assert(data[a] == SPACE || data[a] == TAB);
        let s1 = ParseState { is_token_start: true, ..s };
        assert(step(data, a, s) == Step::Next(s1, a + 1));
        lemma_run_blanks(data, a + 1, b, s1);
        assert(after_blanks(s1, a + 1, b) == after_blanks(s, a, b));
    }
}

/// Blanks in `[a, b)`, a token in `[b, c)` and blanks in `[c, e)`, read from
/// a state with no pending token, leave that token pending.
proof fn lemma_run_padded_token(data: Seq<u8>, a: int, b: int, c: int, e: int, s: ParseState)
    requires
        0 <= a <= b < c <= e <= data.len(),
        s.state != ContentState::AttributeQuotedValue,
        s.token_start == 0,
        forall|k: int| a <= k < b ==> (#[trigger] data[k] == SPACE || data[k] == TAB),
        forall|k: int| b <= k < c ==> is_token_byte(#[trigger] data[k]),
        forall|k: int| c <= k < e ==> (#[trigger] data[k] == SPACE || data[k] == TAB),
    ensures
        run(data, a, s) == run(data, e, after_blanks(after_token(after_blanks(s, a, b), b, c), c, e)),
        after_blanks(after_token(after_blanks(s, a, b), b, c), c, e).token_start == b + 1,
        after_blanks(after_token(after_blanks(s, a, b), b, c), c, e).token_end == c,
{
    lemma_run_blanks(data, a, b, s);
    let s1 = after_blanks(s, a, b);
    lemma_run_token(data, b, c, s1);
    let s2 = after_token(s1, b, c);
    lemma_run_blanks(data, c, e, s2);
}

/// Token bytes hold no line break to take out.
pub proof fn lemma_strip_crlf_token(t: Seq<u8>)
    requires
        forall|i: int| 0 <= i < t.len() ==> is_token_byte(#[trigger] t[i]),
    ensures
        strip_crlf(t) == t,
    decreases t.len(),
{
    if t.len() > 0 {
        assert(is_token_byte(t[t.len() - 1]));
        lemma_strip_crlf_token(t.drop_last());
        assert(t.drop_last().push(t.last()) =~= t);
    }
}

/// The bytes of a token that stands at `[x, y)` are token bytes.
pub proof fn lemma_token_range(d: Seq<u8>, x: int, y: int, w: Seq<u8>)
    requires
        0 <= x <= y <= d.len(),
        d.subrange(x, y) == w,
        is_token(w),
    ensures
        forall|k: int| x <= k < y ==> is_token_byte(#[trigger] d[k]),
        x < y,
{
    assert forall|k: int| x <= k < y implies is_token_byte(#[trigger] d[k]) by {
        assert(d.subrange(x, y)[k - x] == d[k]);
        assert(is_token_byte(w[k - x]));
    }
}

/// Parsing depends on the bytes and the starting index alone: the same
/// input always gives the same value and end.
pub proof fn lemma_parse_deterministic(d1: Seq<u8>, p1: int, d2: Seq<u8>, p2: int)
    requires
        d1 == d2,
        p1 == p2,
    ensures
        content_type_of(d1, p1) == content_type_of(d2, p2),
{
}

/// The pairs `b` keep the places and names of the pairs `a`, and change
/// the value only of pairs named `name`.
pub open spec fn keeps_others(a: Seq<Pair>, b: Seq<Pair>, name: Option<Seq<char>>) -> bool {
    &&& a.len() <= b.len()
    &&& forall|i: int|
        0 <= i < a.len() ==> #[trigger] b[i].0 == a[i].0 && (b[i].1 != a[i].1 ==> name == Some(a[i].0))
}

/// No byte disturbs a parameter other than the one it completes, however
/// malformed the field: complete parameters keep their places and names, and
/// a value changes only where a parameter of the same name completes.
pub proof fn lemma_step_keeps_attributes(data: Seq<u8>, pos: int, s: ParseState)
    requires
        0 <= pos < data.len(),
    ensures
        step(data, pos, s) matches Step::Next(s2, _) ==> keeps_others(s.attributes, s2.attributes, s.attr_name),
{
    reveal(add_attribute);
    reveal(add_attribute_parameter);
    reveal(add_partial_value);
    reveal(add_value);
    reveal(add_attr_position);
    let a = s.attributes;
    assert(keeps_others(a, a, s.attr_name));
    assert forall|p: Pair| #[trigger] keeps_others(a, a.push(p), s.attr_name) by {}
    assert forall|p: Pair| s.attr_name == Some(p.0) implies #[trigger] keeps_others(a, put_pair(a, p), s.attr_name) by {
        lemma_find_name_bounds(a, p.0, 0);
    }
}

/// Every parameter of the value, if any, has a name of its own.
pub open spec fn has_unique_names(v: HeaderValueModel) -> bool {
    v matches HeaderValueModel::ContentType(m) ==> (m.attributes matches Some(a) ==> unique_names(a))
}

proof fn lemma_finish_unique(s: ParseState)
    requires
        unique_names(s.attributes),
    ensures
        has_unique_names(finish(s)),
{
    reveal(finish);
    if let Some(c) = s.continuations {
        lemma_merge_segments_unique(s.attributes, sort_segments(c));
    }
}

proof fn lemma_step_unique(data: Seq<u8>, pos: int, s: ParseState)
    requires
        0 <= pos < data.len(),
        unique_names(s.attributes),
    ensures
        match step(data, pos, s) {
            Step::Next(s2, _) => unique_names(s2.attributes),
            Step::Done(v, _) => has_unique_names(v),
        },
{
    reveal(add_attribute);
    reveal(add_attribute_parameter);
    reveal(add_partial_value);
    reveal(add_value);
    reveal(add_attr_position);
    let a = s.attributes;
    assert forall|p: Pair| #[trigger] unique_names(put_pair(a, p)) by {
        lemma_put_pair_unique(a, p);
    }
    assert forall|p: Pair| find_name(a, p.0) == a.len() implies #[trigger] unique_names(a.push(p)) by {
        lemma_find_name_bounds(a, p.0, 0);
        assert forall|i: int, j: int| 0 <= i < j < a.push(p).len() implies #[trigger] a.push(p)[i].0 != #[trigger] a.push(p)[j].0 by {
            if j == a.len() {
                assert(a[i].0 != p.0);
            }
        }
    }
    let c = data[pos];
    if c == LF {
        let st = s.state;
        let s1 = if is_name_state(st) {
            add_attribute(s, data).0
        } else if is_value_state(st) {
            add_value(s, data)
        } else {
            s
        };
        assert(unique_names(s1.attributes));
        lemma_finish_unique(s1);
    }
}

proof fn lemma_run_unique(data: Seq<u8>, pos: int, s: ParseState)
    requires
        unique_names(s.attributes),
    ensures
        has_unique_names(run(data, pos, s).0),
    decreases data.len() - pos,
{
    if 0 <= pos < data.len() {
        lemma_step_unique(data, pos, s);
        if let Step::Next(s2, p2) = step(data, pos, s) {
            if pos < p2 <= data.len() {
                lemma_run_unique(data, p2, s2);
            }
        }
    }
}

/// However malformed the field, no two parameters of its value share a
/// name: a later parameter replaces an earlier one of its name, and
/// segments join the parameter of theirs.
pub proof fn lemma_unique_names(data: Seq<u8>, pos: int)
    ensures
        has_unique_names(content_type_of(data, pos).0),
{
    lemma_run_unique(data, pos, initial_state());
}

/// No ASCII upper-case letter stands in `s`.
pub open spec fn no_upper(s: Seq<char>) -> bool {
    forall|i: int| 0 <= i < s.len() ==> !('A' <= #[trigger] s[i] && s[i] <= 'Z')
}

pub open spec fn opt_no_upper(o: Option<Seq<char>>) -> bool {
    o matches Some(s) ==> no_upper(s)
}

pub open spec fn names_no_upper(a: Seq<Pair>) -> bool {
    forall|i: int| 0 <= i < a.len() ==> no_upper(#[trigger] a[i].0)
}

/// The type, the subtype and every parameter name of the value, if any,
/// are in lower case.
pub open spec fn has_lower_case_names(v: HeaderValueModel) -> bool {
    v matches HeaderValueModel::ContentType(m) ==> {
        &&& no_upper(m.c_type)
        &&& opt_no_upper(m.c_subtype)
        &&& (m.attributes matches Some(a) ==> names_no_upper(a))
    }
}

/// The names that the state holds are in lower case.
pub open spec fn state_names_lower(s: ParseState) -> bool {
    &&& opt_no_upper(s.c_type)
    &&& opt_no_upper(s.c_subtype)
    &&& opt_no_upper(s.attr_name)
    &&& names_no_upper(s.attributes)
    &&& segments_no_upper(pending_segments(s))
}

pub open spec fn segments_no_upper(c: Seq<Segment>) -> bool {
    forall|i: int| 0 <= i < c.len() ==> no_upper(#[trigger] c[i].0)
}

proof fn lemma_lower_ascii_no_upper(s: Seq<char>)
    ensures
        no_upper(lower_ascii(s)),
{
    assert forall|i: int| 0 <= i < lower_ascii(s).len() implies !('A' <= #[trigger] lower_ascii(s)[i] && lower_ascii(s)[i] <= 'Z') by {
        let c = s[i];
        if 'A' <= c && c <= 'Z' {
            let u = (c as u32) + 32;
            assert(97 <= u <= 122);
            vstd::utf8::char_u32_cast((u as u32) as char, u as u32);
        }
    }
}

proof fn lemma_language_name_no_upper(s: ParseState)
    requires
        opt_no_upper(s.attr_name),
    ensures
        no_upper(language_name(s)),
{
    reveal_strlit("-language");
    reveal_strlit("unknown");
    let base = match s.attr_name {
        Some(n) => n,
        None => "unknown"@,
    };
    assert(no_upper(base));
    let r = language_name(s);
    assert forall|i: int| 0 <= i < r.len() implies !('A' <= #[trigger] r[i] && r[i] <= 'Z') by {
        if i >= base.len() {
            assert(r[i] == "-language"@[i - base.len()]);
        }
    }
}

proof fn lemma_merge_segments_lower(a: Seq<Pair>, cs: Seq<Segment>)
    requires
        names_no_upper(a),
        segments_no_upper(cs),
    ensures
        names_no_upper(merge_segments(a, cs)),
    decreases cs.len(),
{
    if cs.len() > 0 {
        let c = cs[0];
        lemma_find_name_bounds(a, c.0, 0);
        let r = merge_segment(a, c);
        assert(no_upper(cs[0].0));
        assert(names_no_upper(r));
        assert forall|i: int| 0 <= i < cs.drop_first().len() implies no_upper(#[trigger] cs.drop_first()[i].0) by {
            assert(cs.drop_first()[i] == cs[i + 1]);
        }
        lemma_merge_segments_lower(r, cs.drop_first());
    }
}

proof fn lemma_finish_lower(s: ParseState)
    requires
        state_names_lower(s),
    ensures
        has_lower_case_names(finish(s)),
{
    reveal(finish);
    if let Some(c) = s.continuations {
        lemma_sort_segments(c);
        let sorted = sort_segments(c);
        assert forall|i: int| 0 <= i < sorted.len() implies no_upper(#[trigger] sorted[i].0) by {
            broadcast use vstd::seq_lib::group_to_multiset_ensures;

            assert(sorted.contains(sorted[i]));
            assert(sorted.to_multiset().count(sorted[i]) > 0);
            assert(c.to_multiset().count(sorted[i]) > 0);
            assert(c.contains(sorted[i]));
            let k = choose|k: int| 0 <= k < c.len() && c[k] == sorted[i];
            assert(no_upper(c[k].0));
        }
        lemma_merge_segments_lower(s.attributes, sorted);
    }
}

proof fn lemma_step_lower(data: Seq<u8>, pos: int, s: ParseState)
    requires
        0 <= pos < data.len(),
        state_names_lower(s),
    ensures
        match step(data, pos, s) {
            Step::Next(s2, _) => state_names_lower(s2),
            Step::Done(v, _) => has_lower_case_names(v),
        },
{
    reveal(add_attribute);
    reveal(add_attribute_parameter);
    reveal(add_partial_value);
    reveal(add_value);
    reveal(add_attr_position);
    lemma_lower_ascii_no_upper(span_text(token(s, data)));
    lemma_language_name_no_upper(s);
    let a = s.attributes;
    assert forall|p: Pair| no_upper(p.0) implies #[trigger] names_no_upper(put_pair(a, p)) by {
        lemma_find_name_bounds(a, p.0, 0);
    }
    assert forall|p: Pair| no_upper(p.0) implies #[trigger] names_no_upper(a.push(p)) by {}
    assert forall|g: Segment| no_upper(g.0) implies #[trigger] segments_no_upper(pending_segments(s).push(g)) by {}
    let c = data[pos];
    if c == LF {
        let st = s.state;
        let s1 = if is_name_state(st) {
            add_attribute(s, data).0
        } else if is_value_state(st) {
            add_value(s, data)
        } else {
            s
        };
        assert(state_names_lower(s1));
        lemma_finish_lower(s1);
    }
}

proof fn lemma_run_lower(data: Seq<u8>, pos: int, s: ParseState)
    requires
        state_names_lower(s),
    ensures
        has_lower_case_names(run(data, pos, s).0),
    decreases data.len() - pos,
{
    if 0 <= pos < data.len() {
        lemma_step_lower(data, pos, s);
        if let Step::Next(s2, p2) = step(data, pos, s) {
            if pos < p2 <= data.len() {
                lemma_run_lower(data, p2, s2);
            }
        }
    }
}

/// However malformed the field, its type, subtype and parameter names come
/// out in lower case; values keep their case.
pub proof fn lemma_lower_case_names(data: Seq<u8>, pos: int)
    ensures
        has_lower_case_names(content_type_of(data, pos).0),
{
    lemma_run_lower(data, pos, initial_state());
}

/// Neither a carriage return nor a line feed stands in `s`.
pub open spec fn has_no_crlf(s: Seq<char>) -> bool {
    forall|i: int| 0 <= i < s.len() ==> #[trigger] s[i] != '\r' && s[i] != '\n'
}

pub open spec fn values_no_crlf(a: Seq<Pair>) -> bool {
    forall|i: int| 0 <= i < a.len() ==> has_no_crlf(#[trigger] a[i].1)
}

pub open spec fn segment_values_no_crlf(c: Seq<Segment>) -> bool {
    forall|i: int| 0 <= i < c.len() ==> has_no_crlf(#[trigger] c[i].2)
}

/// No parameter value of the value, if any, holds a line break.
pub open spec fn has_no_line_breaks(v: HeaderValueModel) -> bool {
    v matches HeaderValueModel::ContentType(m) ==> (m.attributes matches Some(a) ==> values_no_crlf(a))
}

/// The text that the state holds for values has no line breaks.
pub open spec fn state_values_clean(s: ParseState) -> bool {
    &&& has_no_crlf(s.values)
    &&& values_no_crlf(s.attributes)
    &&& segment_values_no_crlf(pending_segments(s))
}

proof fn lemma_no_crlf_clean(s: Seq<char>)
    ensures
        has_no_crlf(no_crlf(s)),
    decreases s.len(),
{
    if s.len() > 0 {
        lemma_no_crlf_clean(s.drop_last());
    }
}

proof fn lemma_concat_clean(a: Seq<char>, b: Seq<char>)
    requires
        has_no_crlf(a),
        has_no_crlf(b),
    ensures
        has_no_crlf(a + b),
{
    assert forall|i: int| 0 <= i < (a + b).len() implies #[trigger] (a + b)[i] != '\r' && (a + b)[i] != '\n' by {
        if i >= a.len() {
            assert((a + b)[i] == b[i - a.len()]);
        }
    }
}

proof fn lemma_merge_segments_clean(a: Seq<Pair>, cs: Seq<Segment>)
    requires
        values_no_crlf(a),
        segment_values_no_crlf(cs),
    ensures
        values_no_crlf(merge_segments(a, cs)),
    decreases cs.len(),
{
    if cs.len() > 0 {
        let c = cs[0];
        lemma_find_name_bounds(a, c.0, 0);
        let i = find_name(a, c.0);
        assert(has_no_crlf(c.2));
        if i < a.len() {
            lemma_concat_clean(a[i].1, c.2);
        }
        let r = merge_segment(a, c);
        assert(values_no_crlf(r));
        assert forall|k: int| 0 <= k < cs.drop_first().len() implies has_no_crlf(#[trigger] cs.drop_first()[k].2) by {
            assert(cs.drop_first()[k] == cs[k + 1]);
        }
        lemma_merge_segments_clean(r, cs.drop_first());
    }
}

proof fn lemma_finish_clean(s: ParseState)
    requires
        state_values_clean(s),
    ensures
        has_no_line_breaks(finish(s)),
{
    reveal(finish);
    if let Some(c) = s.continuations {
        lemma_sort_segments(c);
        let sorted = sort_segments(c);
        assert forall|i: int| 0 <= i < sorted.len() implies has_no_crlf(#[trigger] sorted[i].2) by {
            broadcast use vstd::seq_lib::group_to_multiset_ensures;

            assert(sorted.contains(sorted[i]));
            assert(sorted.to_multiset().count(sorted[i]) > 0);
            assert(c.to_multiset().count(sorted[i]) > 0);
            assert(c.contains(sorted[i]));
            let k = choose|k: int| 0 <= k < c.len() && c[k] == sorted[i];
            assert(has_no_crlf(c[k].2));
        }
        lemma_merge_segments_clean(s.attributes, sorted);
    }
}

proof fn lemma_step_clean(data: Seq<u8>, pos: int, s: ParseState)
    requires
        0 <= pos < data.len(),
        state_values_clean(s),
    ensures
        match step(data, pos, s) {
            Step::Next(s2, _) => state_values_clean(s2),
            Step::Done(v, _) => has_no_line_breaks(v),
        },
{
    reveal(add_attribute);
    reveal(add_attribute_parameter);
    reveal(add_partial_value);
    reveal(add_value);
    reveal(add_attr_position);
    let a = s.attributes;
    assert forall|x: Seq<char>| #![trigger no_crlf(x)] has_no_crlf(no_crlf(x)) by {
        lemma_no_crlf_clean(x);
    }
    assert forall|x: Seq<char>, y: Seq<char>| has_no_crlf(x) && has_no_crlf(y) implies #[trigger] has_no_crlf(x + y) by {
        lemma_concat_clean(x, y);
    }
    assert(has_no_crlf(seq![' ']));
    assert(has_no_crlf(seq!['\'']));
    assert forall|p: Pair| has_no_crlf(p.1) implies #[trigger] values_no_crlf(put_pair(a, p)) by {
        lemma_find_name_bounds(a, p.0, 0);
    }
    assert forall|p: Pair| has_no_crlf(p.1) implies #[trigger] values_no_crlf(a.push(p)) by {}
    assert forall|g: Segment| has_no_crlf(g.2) implies #[trigger] segment_values_no_crlf(pending_segments(s).push(g)) by {}
    assert(has_no_crlf(joined_value(s, data)));
    assert(has_no_crlf(decoded_segment(s, joined_value(s, data))));
    let c = data[pos];
    if c == LF {
        let st = s.state;
        let s1 = if is_name_state(st) {
            add_attribute(s, data).0
        } else if is_value_state(st) {
            add_value(s, data)
        } else {
            s
        };
        assert(state_values_clean(s1));
        lemma_finish_clean(s1);
    }
}

proof fn lemma_run_clean(data: Seq<u8>, pos: int, s: ParseState)
    requires
        state_values_clean(s),
    ensures
        has_no_line_breaks(run(data, pos, s).0),
    decreases data.len() - pos,
{
    if 0 <= pos < data.len() {
        lemma_step_clean(data, pos, s);
        if let Step::Next(s2, p2) = step(data, pos, s) {
            if pos < p2 <= data.len() {
                lemma_run_clean(data, p2, s2);
            }
        }
    }
}

/// However the field is folded or escaped, and whatever its encoded words
/// and segments decode to, no parameter value holds a carriage return or a
/// line feed.
pub proof fn lemma_no_line_breaks_in_values(data: Seq<u8>, pos: int)
    ensures
        has_no_line_breaks(content_type_of(data, pos).0),
{
    lemma_run_clean(data, pos, initial_state());
}

/// The type, the subtype and the parameter names that the state holds are
/// not empty.
pub open spec fn names_nonempty(s: ParseState) -> bool {
    &&& (s.c_type matches Some(x) ==> x.len() > 0)
    &&& (s.c_subtype matches Some(x) ==> x.len() > 0)
    &&& (s.attr_name matches Some(x) ==> x.len() > 0)
    &&& pairs_named(s.attributes)
    &&& segments_named(pending_segments(s))
}

/// No pair has an empty name.
pub open spec fn pairs_named(a: Seq<Pair>) -> bool {
    forall|i: int| 0 <= i < a.len() ==> (#[trigger] a[i]).0.len() > 0
}

/// No segment has an empty name.
pub open spec fn segments_named(c: Seq<Segment>) -> bool {
    forall|i: int| 0 <= i < c.len() ==> (#[trigger] c[i]).0.len() > 0
}

/// The type, the subtype and every parameter name of the value, if any,
/// are not empty.
pub open spec fn has_named_parts(v: HeaderValueModel) -> bool {
    v matches HeaderValueModel::ContentType(m) ==> {
        &&& m.c_type.len() > 0
        &&& (m.c_subtype matches Some(x) ==> x.len() > 0)
        &&& (m.attributes matches Some(a) ==> pairs_named(a))
    }
}

/// The pending token, if any, starts with a byte that is no line break.
pub open spec fn token_clean(s: ParseState, data: Seq<u8>) -> bool {
    s.token_start > 0 ==> data[s.token_start - 1] != CR && data[s.token_start - 1] != LF
}

/// A token that starts with a byte other than a line break keeps a byte
/// once its line breaks are taken out.
pub proof fn lemma_strip_crlf_nonempty(b: Seq<u8>)
    requires
        b.len() > 0,
        b[0] != CR && b[0] != LF,
    ensures
        strip_crlf(b).len() > 0,
    decreases b.len(),
{
    if b.len() > 1 {
        lemma_strip_crlf_nonempty(b.drop_last());
    }
}

/// Every step keeps the pending token starting with a byte that is no line
/// break.
pub proof fn lemma_step_token_clean(data: Seq<u8>, pos: int, s: ParseState)
    requires
        0 <= pos < data.len(),
        token_clean(s, data),
    ensures
        step(data, pos, s) matches Step::Next(s2, _) ==> token_clean(s2, data),
{
    reveal(add_attribute);
    reveal(add_attribute_parameter);
    reveal(add_partial_value);
    reveal(add_value);
    reveal(add_attr_position);
}

proof fn lemma_merge_segments_named(a: Seq<Pair>, cs: Seq<Segment>)
    requires
        pairs_named(a),
        segments_named(cs),
    ensures
        pairs_named(merge_segments(a, cs)),
    decreases cs.len(),
{
    if cs.len() > 0 {
        let c = cs[0];
        lemma_find_name_bounds(a, c.0, 0);
        let r = merge_segment(a, c);
        assert(cs[0].0.len() > 0);
        assert forall|i: int| 0 <= i < r.len() implies (#[trigger] r[i]).0.len() > 0 by {
            if i < a.len() {
                assert(a[i].0.len() > 0);
            }
        }
        assert forall|i: int| 0 <= i < cs.drop_first().len() implies (#[trigger] cs.drop_first()[i]).0.len() > 0 by {
            assert(cs.drop_first()[i] == cs[i + 1]);
        }
        lemma_merge_segments_named(r, cs.drop_first());
        assert(merge_segments(a, cs) == merge_segments(r, cs.drop_first()));
    } else {
        assert(merge_segments(a, cs) == a);
    }
}

/// A state whose names are not empty yields a value whose names are not
/// empty.
pub proof fn lemma_finish_named(s: ParseState)
    requires
        names_nonempty(s),
    ensures
        has_named_parts(finish(s)),
{
    reveal(finish);
    if let Some(c) = s.continuations {
        lemma_sort_segments(c);
        let sorted = sort_segments(c);
        assert forall|i: int| 0 <= i < sorted.len() implies (#[trigger] sorted[i]).0.len() > 0 by {
            broadcast use vstd::seq_lib::group_to_multiset_ensures;

            assert(sorted.contains(sorted[i]));
            assert(sorted.to_multiset().count(sorted[i]) > 0);
            assert(c.to_multiset().count(sorted[i]) > 0);
            assert(c.contains(sorted[i]));
            let k = choose|k: int| 0 <= k < c.len() && c[k] == sorted[i];
            assert(pending_segments(s)[k].0.len() > 0);
        }
        lemma_merge_segments_named(s.attributes, sorted);
    }
}

/// Completing a value keeps every name non-empty.
pub proof fn lemma_add_value_named(s: ParseState, data: Seq<u8>)
    requires
        names_nonempty(s),
    ensures
        names_nonempty(add_value(s, data)),
{
    reveal(add_value);
    let a = s.attributes;
    assert forall|p: Pair| p.0.len() > 0 implies #[trigger] pairs_named(put_pair(a, p)) by {
        lemma_find_name_bounds(a, p.0, 0);
        let r = put_pair(a, p);
        assert forall|i: int| 0 <= i < r.len() implies (#[trigger] r[i]).0.len() > 0 by {
            if i < a.len() {
                assert(a[i].0.len() > 0);
            }
        }
    }
    assert forall|g: Segment| g.0.len() > 0 implies #[trigger] segments_named(pending_segments(s).push(g)) by {
        let c = pending_segments(s);
        assert forall|i: int| 0 <= i < c.push(g).len() implies (#[trigger] c.push(g)[i]).0.len() > 0 by {
            if i < c.len() {
                assert(c[i].0.len() > 0);
            }
        }
    }
}

} // verus!
