use vstd::prelude::*;
use vstd::slice::{slice_subrange, slice_to_vec};

use crate::content_type::{
    has_named_parts, lemma_add_value_named, lemma_finish_named, lemma_step_token_clean, lemma_strip_crlf_nonempty, names_nonempty,
    token_clean,
    APOSTROPHE, BACKSLASH, CLOSE_PAREN, CR, EQUALS, LF, OPEN_PAREN, PLUS, QUESTION, QUOTE,
    SEMICOLON, SLASH, SPACE, STAR, TAB, ContentState, ContentType, HeaderValue, ParseState, Step,
    accumulate, add_attr_position, add_attribute, add_attribute_parameter, add_partial_value,
    add_value, all_digits, blank_step, content_type_of, delimiter_step, digits_value, finish,
    initial_state, is_delimiter, is_digit, is_value_state, joined_value, language_name,
    newline_step, plain_step, position_value, reset, run, step, string_pairs, strip_crlf, span_text, no_crlf, token,
    unsigned_part,
};
use crate::continuation::{
    find_name, find_name_from, lemma_find_name_bounds, merge_continuations, pairs_of, put_attribute, segments_of,
    Continuation, Pair,
};
use crate::decoders::{bytes_of, charset_decoder, decode_charset, unescape_bytes};
use crate::stream::{encoded_word, lemma_encoded_word_bounds, MessageStream};
use crate::text::{
    append_chars, chars_equal, lossy_chars, make_ascii_lowercase, string_from_chars,
};

verus! {

/// One step of the parser from `pos` in state `s` leads to state `s2` and
/// index `off`, and ends the field where `done` holds.
pub open spec fn stepped(data: Seq<u8>, pos: int, s: ParseState, s2: ParseState, off: int, done: bool) -> bool {
    &&& pos < off
    &&& (done ==> step(data, pos, s) == Step::Done(finish(s2), off))
    &&& (!done ==> step(data, pos, s) == Step::Next(s2, off) && well_formed(s2, off, data.len() as int))
}

/// The byte at `pos` is none of those that `step` treats first: blanks,
/// line feeds, delimiters and the `=` of an encoded word.
pub open spec fn is_plain(data: Seq<u8>, pos: int, s: ParseState) -> bool {
    let c = data[pos];
    &&& c != SPACE && c != TAB && c != LF
    &&& !is_delimiter(c, s.state)
    &&& !(c == EQUALS && is_value_state(s.state) && s.is_token_start && encoded_word(data, pos + 1) is Some)
}

/// The characters that an optional vector holds.
pub open spec fn chars_opt(o: Option<Vec<char>>) -> Option<Seq<char>> {
    match o {
        Some(v) => Some(v@),
        None => None,
    }
}

/// What holds of the parse state between two bytes: its token lies within
/// the bytes read so far, every open comment has a state to return to, and
/// the value is empty where no piece of it was read.
pub open spec fn well_formed(s: ParseState, offset: int, len: int) -> bool {
    &&& 0 <= offset <= len
    &&& 0 <= s.token_start
    &&& 0 <= s.token_end <= offset
    &&& (s.token_start > 0 ==> s.token_start <= s.token_end)
    &&& (s.state == ContentState::Comment ==> s.stack.len() > 0)
    &&& (s.stack.len() > 0 ==> s.stack[0] != ContentState::Comment)
    &&& (!s.has_values ==> s.values.len() == 0)
}

/// The parser of one field; its view is the `ParseState` it stands for.
struct ContentTypeParser {
    state: ContentState,
    state_stack: Vec<ContentState>,
    c_type: Option<Vec<char>>,
    c_subtype: Option<Vec<char>>,
    attr_name: Option<Vec<char>>,
    attr_charset: Option<Vec<u8>>,
    attr_position: u32,
    values: Vec<char>,
    has_values: bool,
    attributes: Vec<(Vec<char>, Vec<char>)>,
    continuations: Option<Vec<Continuation>>,
    token_start: usize,
    token_end: usize,
    is_continuation: bool,
    is_encoded_attribute: bool,
    is_escaped: bool,
    is_token_start: bool,
}

impl View for ContentTypeParser {
    type V = ParseState;

    closed spec fn view(&self) -> ParseState {
        ParseState {
            state: self.state,
            stack: self.state_stack@,
            c_type: chars_opt(self.c_type),
            c_subtype: chars_opt(self.c_subtype),
            attr_name: chars_opt(self.attr_name),
            attr_charset: bytes_of(self.attr_charset),
            attr_position: self.attr_position,
            values: self.values@,
            has_values: self.has_values,
            attributes: pairs_of(self.attributes@),
            continuations: match self.continuations {
                Some(v) => Some(segments_of(v@)),
                None => None,
            },
            token_start: self.token_start as int,
            token_end: self.token_end as int,
            is_continuation: self.is_continuation,
            is_encoded_attribute: self.is_encoded_attribute,
            is_escaped: self.is_escaped,
            is_token_start: self.is_token_start,
        }
    }
}

/// The characters of `s`, in a vector.
fn chars_of(s: &str) -> (r: Vec<char>)
    ensures
        r@ == s@,
{
    let n: usize = s.unicode_len();
    let mut r: Vec<char> = Vec::new();
    let mut i: usize = 0;
    while i < n
        invariant
            n == s@.len(),
            i <= n,
            r@ == s@.subrange(0, i as int),
        decreases n - i,
    {
        r.push(s.get_char(i));
        i = i + 1;
        assert(r@ =~= s@.subrange(0, i as int));
    }
    assert(s@.subrange(0, n as int) =~= s@);
    r
}

/// The text of the bytes in `[a, b)`, without carriage returns and line feeds.
fn span_text_of(data: &Vec<u8>, a: usize, b: usize) -> (r: Vec<char>)
    requires
        a <= b <= data@.len(),
    ensures
        r@ == span_text(data@.subrange(a as int, b as int)),
        a < b && data@[a as int] != CR && data@[a as int] != LF ==> r@.len() > 0,
{
    if a < b && data[a] != CR && data[a] != LF {
        proof {
            lemma_strip_crlf_nonempty(data@.subrange(a as int, b as int));
        }
    }
    let stripped = without_crlf(slice_subrange(data.as_slice(), a, b));
    lossy_chars(stripped.as_slice())
}

/// `v` without carriage returns and line feeds.
fn without_crlf_chars(v: &[char]) -> (r: Vec<char>)
    ensures
        r@ == no_crlf(v@),
{
    let mut r: Vec<char> = Vec::new();
    let mut i: usize = 0;
    assert(v@.take(0) =~= Seq::<char>::empty());
    while i < v.len()
        invariant
            i <= v@.len(),
            r@ == no_crlf(v@.take(i as int)),
        decreases v@.len() - i,
    {
        assert(v@.take(i + 1).drop_last() =~= v@.take(i as int));
        if v[i] != '\r' && v[i] != '\n' {
            r.push(v[i]);
        }
        i = i + 1;
    }
    assert(v@.take(v@.len() as int) =~= v@);
    r
}

/// `b` without carriage returns and line feeds.
fn without_crlf(b: &[u8]) -> (r: Vec<u8>)
    ensures
        r@ == strip_crlf(b@),
{
    let mut r: Vec<u8> = Vec::new();
    let mut i: usize = 0;
    assert(b@.take(0) =~= Seq::<u8>::empty());
    while i < b.len()
        invariant
            i <= b@.len(),
            r@ == strip_crlf(b@.take(i as int)),
        decreases b@.len() - i,
    {
        assert(b@.take(i + 1).drop_last() =~= b@.take(i as int));
        if b[i] != CR && b[i] != LF {
            r.push(b[i]);
        }
        i = i + 1;
    }
    assert(b@.take(b@.len() as int) =~= b@);
    r
}

proof fn lemma_digits_nonneg(b: Seq<u8>)
    requires
        forall|i: int| 0 <= i < b.len() ==> is_digit(#[trigger] b[i]),
    ensures
        digits_value(b) >= 0,
    decreases b.len(),
{
    if b.len() > 0 {
        assert forall|i: int| 0 <= i < b.drop_last().len() implies is_digit(#[trigger] b.drop_last()[i]) by {
            assert(b.drop_last()[i] == b[i]);
        }
        lemma_digits_nonneg(b.drop_last());
    }
}

/// Reads a segment position as `position_value` describes.
fn parse_position(b: &[u8]) -> (r: u32)
    ensures
        r == position_value(b@),
{
    let start: usize = if b.len() > 0 && b[0] == PLUS { 1 } else { 0 };
    let ghost d = unsigned_part(b@);
    assert(d =~= b@.subrange(start as int, b@.len() as int));
    if start >= b.len() {
        return 0;
    }
    let mut value: u64 = 0;
    let mut overflow: bool = false;
    let mut i: usize = start;
    assert(d.take(0) =~= Seq::<u8>::empty());
    while i < b.len()
        invariant
            start <= i <= b@.len(),
            start < b@.len(),
            d == b@.subrange(start as int, b@.len() as int),
            d == unsigned_part(b@),
            forall|k: int| 0 <= k < i - start ==> is_digit(#[trigger] d[k]),
            value <= u32::MAX,
            !overflow ==> value == digits_value(d.take(i - start)),
            overflow ==> digits_value(d.take(i - start)) > u32::MAX,
        decreases b@.len() - i,
    {
        let x: u8 = b[i];
        let ghost k = i - start;
        assert(d[k] == x);
        if !(0x30 <= x && x <= 0x39) {
            assert(!is_digit(d[k]));
            assert(!all_digits(d));
            return 0;
        }
        proof {
            let t = d.take(k + 1);
            assert(t.drop_last() =~= d.take(k));
            assert(t.last() == x);
            assert(digits_value(t) == digits_value(d.take(k)) * 10 + (x - 0x30));
            assert forall|m: int| 0 <= m < d.take(k).len() implies is_digit(#[trigger] d.take(k)[m]) by {
                assert(d.take(k)[m] == d[m]);
            }
            lemma_digits_nonneg(d.take(k));
        }
        if !overflow {
            let next: u64 = value * 10 + (x - 0x30) as u64;
            if next > 0xffff_ffff {
                overflow = true;
            } else {
                value = next;
            }
        }
        i = i + 1;
    }
    assert(d.take(d.len() as int) =~= d);
    if overflow {
        0
    } else {
        value as u32
    }
}

/// Whether some pair is named `name`.
fn has_name(attributes: &Vec<(Vec<char>, Vec<char>)>, name: &Vec<char>) -> (r: bool)
    ensures
        r == (find_name(pairs_of(attributes@), name@) < attributes@.len()),
{
    let ghost attrs = pairs_of(attributes@);
    let mut i: usize = 0;
    while i < attributes.len()
        invariant
            i <= attributes@.len(),
            attrs == pairs_of(attributes@),
            find_name_from(attrs, name@, i as int) == find_name(attrs, name@),
        decreases attributes@.len() - i,
    {
        if chars_equal(attributes[i].0.as_slice(), name.as_slice()) {
            return true;
        }
        i = i + 1;
    }
    false
}

impl ContentTypeParser {
    fn new() -> (r: ContentTypeParser)
        ensures
            r@ == initial_state(),
    {
        let r = ContentTypeParser {
            state: ContentState::Type,
            state_stack: Vec::new(),
            c_type: None,
            c_subtype: None,
            attr_name: None,
            attr_charset: None,
            attr_position: 0,
            values: Vec::new(),
            has_values: false,
            attributes: Vec::new(),
            continuations: None,
            token_start: 0,
            token_end: 0,
            is_continuation: false,
            is_encoded_attribute: false,
            is_escaped: false,
                is_token_start: true,
        };
        assert(r@.stack =~= Seq::<ContentState>::empty());
        assert(r@.values =~= Seq::<char>::empty());
        assert(r@.attributes =~= Seq::<Pair>::empty());
        r
    }

    fn reset_parser(&mut self)
        ensures
            final(self)@ == reset(old(self)@),
    {
        self.token_start = 0;
        self.is_token_start = true;
    }

    fn add_attribute(&mut self, data: &Vec<u8>) -> (r: bool)
        requires
            names_nonempty(old(self)@),
            token_clean(old(self)@, data@),
            well_formed(old(self)@, old(self)@.token_end, data@.len() as int),
        ensures
            names_nonempty(final(self)@),
            (final(self)@, r) == add_attribute(old(self)@, data@),
            final(self)@.state == old(self)@.state,
            final(self)@.stack == old(self)@.stack,
            well_formed(final(self)@, old(self)@.token_end, data@.len() as int),
    {
        proof {
            reveal(add_attribute);
        }
        if self.token_start > 0 {
            let mut attr = span_text_of(data, self.token_start - 1, self.token_end);
            make_ascii_lowercase(&mut attr);
            match self.state {
                ContentState::AttributeName => self.attr_name = Some(attr),
                ContentState::Type => self.c_type = Some(attr),
                ContentState::SubType => self.c_subtype = Some(attr),
                _ => {},
            }
            self.reset_parser();
            true
        } else {
            false
        }
    }

    fn add_attribute_parameter(&mut self, data: &Vec<u8>)
        requires
            names_nonempty(old(self)@),
            well_formed(old(self)@, old(self)@.token_end, data@.len() as int),
        ensures
            names_nonempty(final(self)@),
            final(self)@ == add_attribute_parameter(old(self)@, data@),
            final(self)@.state == old(self)@.state,
            final(self)@.stack == old(self)@.stack,
            well_formed(final(self)@, old(self)@.token_end, data@.len() as int),
    {
        proof {
            reveal(add_attribute_parameter);
        }
        if self.token_start > 0 {
            let part = slice_subrange(data.as_slice(), self.token_start - 1, self.token_end);
            assert(part@ == token(old(self)@, data@));
            if self.attr_charset.is_none() {
                self.attr_charset = Some(slice_to_vec(part));
            } else {
                let mut name: Vec<char> = match &self.attr_name {
                    Some(n) => {
                        let mut c: Vec<char> = Vec::new();
                        append_chars(&mut c, n.as_slice());
                        c
                    },
                    None => chars_of("unknown"),
                };
                let suffix = chars_of("-language");
                proof {
                    reveal_strlit("-language");
                }
                append_chars(&mut name, suffix.as_slice());
                assert(name@ == language_name(old(self)@));
                proof {
                    lemma_find_name_bounds(pairs_of(self.attributes@), name@, 0);
                }
                let text = without_crlf_chars(span_text_of(data, self.token_start - 1, self.token_end).as_slice());
                if !has_name(&self.attributes, &name) {
                    self.attributes.push((name, text));
                    assert(pairs_of(self.attributes@) =~= pairs_of(old(self).attributes@).push((name@, text@)));
                } else {
                    append_chars(&mut self.values, text.as_slice());
                    self.values.push('\'');
                    self.has_values = true;
                    assert(self.values@ =~= old(self)@.values + text@ + seq!['\'']);
                }
            }
            self.reset_parser();
        }
    }

    fn add_partial_value(&mut self, data: &Vec<u8>, to_cur_pos: bool, offset: usize)
        requires
            names_nonempty(old(self)@),
            well_formed(old(self)@, offset as int, data@.len() as int),
        ensures
            names_nonempty(final(self)@),
            final(self)@ == add_partial_value(old(self)@, data@, to_cur_pos, offset as int),
            final(self)@.state == old(self)@.state,
            final(self)@.stack == old(self)@.stack,
            well_formed(final(self)@, offset as int, data@.len() as int),
    {
        proof {
            reveal(add_partial_value);
        }
        if self.token_start > 0 {
            let in_quote = self.state == ContentState::AttributeQuotedValue;
            let end: usize = if in_quote && to_cur_pos {
                offset - 1
            } else {
                self.token_end
            };
            let ghost expected = add_partial_value(old(self)@, data@, to_cur_pos, offset as int);
            let piece = without_crlf_chars(span_text_of(data, self.token_start - 1, end).as_slice());
            append_chars(&mut self.values, piece.as_slice());
            if !in_quote {
                self.values.push(' ');
            }
            self.has_values = true;
            assert(self.values@ =~= expected.values);
            self.reset_parser();
        }
    }

    fn add_value(&mut self, data: &Vec<u8>)
        requires
            names_nonempty(old(self)@),
            well_formed(old(self)@, old(self)@.token_end, data@.len() as int),
        ensures
            names_nonempty(final(self)@),
            final(self)@ == add_value(old(self)@, data@),
            final(self)@.state == old(self)@.state,
            final(self)@.stack == old(self)@.stack,
            well_formed(final(self)@, old(self)@.token_end, data@.len() as int),
    {
        proof {
            reveal(add_value);
            lemma_add_value_named(old(self)@, data@);
        }
        if self.attr_name.is_none() {
            return;
        }
        let has_values = self.has_values;
        if self.token_start == 0 && !has_values {
            return;
        }
        let mut joined: Vec<char> = Vec::new();
        append_chars(&mut joined, self.values.as_slice());
        if self.token_start > 0 {
            let piece = without_crlf_chars(span_text_of(data, self.token_start - 1, self.token_end).as_slice());
            append_chars(&mut joined, piece.as_slice());
        }
        assert(joined@ == joined_value(old(self)@, data@));
        let name = self.attr_name.take().unwrap();
        if !self.is_continuation {
            put_attribute(&mut self.attributes, name, joined);
        } else {
            let value = if self.is_encoded_attribute {
                self.is_encoded_attribute = false;
                let text = string_from_chars(joined.as_slice());
                match unescape_bytes(text.as_str().as_bytes(), 0x25, false) {
                    Some(bytes) => {
                        let charset = match &self.attr_charset {
                            Some(c) => charset_decoder(c.as_slice()),
                            None => None,
                        };
                        without_crlf_chars(decode_charset(charset, bytes.as_slice()).as_slice())
                    },
                    None => joined,
                }
            } else {
                joined
            };
            if self.attr_position > 0 {
                let segment = Continuation { name, position: self.attr_position, value };
                let mut list = match self.continuations.take() {
                    Some(l) => l,
                    None => Vec::new(),
                };
                let ghost before = list@;
                list.push(segment);
                assert(segments_of(list@) =~= segments_of(before).push(segment@));
                self.continuations = Some(list);
                self.attr_position = 0;
            } else {
                put_attribute(&mut self.attributes, name, value);
            }
            self.is_continuation = false;
            self.attr_charset = None;
        }
        if has_values {
            self.values = Vec::new();
            self.has_values = false;
        }
        assert(self.values@ =~= Seq::<char>::empty());
        self.reset_parser();
        let ghost e = add_value(old(self)@, data@);
        assert(self@.attributes == e.attributes);
        assert(self@.continuations == e.continuations);
        assert(self@.attr_name == e.attr_name);
        assert(self@.attr_charset == e.attr_charset);
        assert(self@.attr_position == e.attr_position);
        assert(self@.is_continuation == e.is_continuation);
        assert(self@.is_encoded_attribute == e.is_encoded_attribute);
        assert(self@.values == e.values);
        assert(self@ == add_value(old(self)@, data@));
    }

    fn add_attr_position(&mut self, data: &Vec<u8>) -> (r: bool)
        requires
            names_nonempty(old(self)@),
            well_formed(old(self)@, old(self)@.token_end, data@.len() as int),
        ensures
            names_nonempty(final(self)@),
            (final(self)@, r) == add_attr_position(old(self)@, data@),
            final(self)@.state == old(self)@.state,
            final(self)@.stack == old(self)@.stack,
            well_formed(final(self)@, old(self)@.token_end, data@.len() as int),
    {
        proof {
            reveal(add_attr_position);
        }
        if self.token_start > 0 {
            self.attr_position = parse_position(slice_subrange(data.as_slice(), self.token_start - 1, self.token_end));
            self.reset_parser();
            true
        } else {
            false
        }
    }

    fn accumulate(&mut self, offset: usize)
        ensures
            final(self)@ == accumulate(old(self)@, offset as int),
    {
        self.is_escaped = false;
        self.is_token_start = false;
        if self.token_start == 0 {
            self.token_start = offset;
        }
        self.token_end = offset;
    }

    /// A space or tab: it ends a token, or, within quotes, joins it.
    fn step_blank(&mut self, data: &Vec<u8>, pos: usize)
        requires
            names_nonempty(old(self)@),
            pos < data@.len(),
            data@[pos as int] == SPACE || data@[pos as int] == TAB,
            well_formed(old(self)@, pos as int, data@.len() as int),
        ensures
            names_nonempty(final(self)@),
            final(self)@ == blank_step(old(self)@, pos + 1),
            well_formed(final(self)@, pos + 1, data@.len() as int),
    {
        let len: usize = data.len();
        let o: usize = pos + 1;
        self.is_token_start = true;
        if self.state == ContentState::AttributeQuotedValue {
            if self.token_start == 0 {
                self.token_start = o;
            }
            self.token_end = o;
        }
    }

    /// A line feed: the field ends, unless the next line starts with a
    /// space or tab and so continues it. Gives whether it ended, and the
    /// index to read next.
    fn step_newline(&mut self, data: &Vec<u8>, pos: usize) -> (r: (bool, usize))
        requires
            names_nonempty(old(self)@),
            token_clean(old(self)@, data@),
            pos < data@.len(),
            data@[pos as int] == LF,
            well_formed(old(self)@, pos as int, data@.len() as int),
        ensures
            names_nonempty(final(self)@),
            stepped(data@, pos as int, old(self)@, final(self)@, r.1 as int, r.0),
            !r.0 ==> newline_step(data@, pos as int, old(self)@) == Step::Next(final(self)@, r.1 as int),
            r.0 ==> newline_step(data@, pos as int, old(self)@) == Step::Done(finish(final(self)@), r.1 as int),
    {
        let len: usize = data.len();
        let o: usize = pos + 1;
        let next_is_space = o < len && (data[o] == SPACE || data[o] == TAB);
        if self.state == ContentState::AttributeQuotedValue && next_is_space {
            return (false, o);
        }
        match self.state {
            ContentState::Type | ContentState::SubType | ContentState::AttributeName => {
                self.add_attribute(data);
            },
            ContentState::AttributeValue | ContentState::AttributeQuotedValue => {
                self.add_value(data);
            },
            ContentState::Comment => {},
        }
        if next_is_space {
            self.state = ContentState::AttributeName;
            self.is_token_start = true;
            return (false, o + 1);
        }
        (true, o)
    }

    /// `/` after the type, `;` outside quotes and comments, and `*` or `=`
    /// within a parameter name.
    #[verifier::rlimit(60)]
    fn step_delimiter(&mut self, data: &Vec<u8>, pos: usize)
        requires
            names_nonempty(old(self)@),
            token_clean(old(self)@, data@),
            pos < data@.len(),
            is_delimiter(data@[pos as int], old(self)@.state),
            well_formed(old(self)@, pos as int, data@.len() as int),
        ensures
            names_nonempty(final(self)@),
            final(self)@ == delimiter_step(data@, data@[pos as int], old(self)@),
            well_formed(final(self)@, pos + 1, data@.len() as int),
    {
        let len: usize = data.len();
        let ch: u8 = data[pos];
        let st = self.state;
        if ch == SLASH {
            self.add_attribute(data);
            self.state = ContentState::SubType;
        } else if ch == SEMICOLON && st != ContentState::AttributeValue {
            self.add_attribute(data);
            self.state = ContentState::AttributeName;
        } else if ch == SEMICOLON {
            if !self.is_escaped {
                self.add_value(data);
                self.state = ContentState::AttributeName;
            } else {
                self.is_escaped = false;
            }
        } else if ch == STAR {
            if !self.is_continuation {
                self.is_continuation = self.add_attribute(data);
            } else if !self.is_encoded_attribute {
                self.add_attr_position(data);
                self.is_encoded_attribute = true;
            } else {
                self.reset_parser();
            }
        } else {
            if !self.is_continuation {
                if !self.add_attribute(data) {
                    return;
                }
            } else if !self.is_encoded_attribute {
                self.is_encoded_attribute = !self.add_attr_position(data);
            } else {
                self.reset_parser();
            }
            self.state = ContentState::AttributeValue;
        }
    }

    /// Any other byte: quotes, escapes, RFC 2231 prefixes, comments, and
    /// the text of tokens.
    #[verifier::rlimit(60)]
    fn step_plain(&mut self, data: &Vec<u8>, pos: usize)
        requires
            names_nonempty(old(self)@),
            token_clean(old(self)@, data@),
            pos < data@.len(),
            is_plain(data@, pos as int, old(self)@),
            well_formed(old(self)@, pos as int, data@.len() as int),
        ensures
            names_nonempty(final(self)@),
            final(self)@ == plain_step(data@, pos as int, old(self)@),
            well_formed(final(self)@, pos + 1, data@.len() as int),
    {
        let len: usize = data.len();
        let ch: u8 = data[pos];
        let o: usize = pos + 1;
        let st = self.state;
        let name_state = st == ContentState::Type || st == ContentState::SubType || st
            == ContentState::AttributeName;
        let value_state = st == ContentState::AttributeValue || st == ContentState::AttributeQuotedValue;
        if ch == QUOTE {
            if st == ContentState::AttributeValue {
                self.is_token_start = true;
                self.state = ContentState::AttributeQuotedValue;
                return;
            } else if st == ContentState::AttributeQuotedValue {
                if !self.is_escaped {
                    self.add_value(data);
                    self.state = ContentState::AttributeName;
                    return;
                }
            } else {
                return;
            }
        } else if ch == BACKSLASH {
            if value_state {
                if !self.is_escaped {
                    self.add_partial_value(data, true, o);
                    self.is_escaped = true;
                    return;
                }
            } else if st != ContentState::Comment {
                return;
            }
        } else if ch == APOSTROPHE && self.is_encoded_attribute && !self.is_escaped && value_state {
            self.add_attribute_parameter(data);
            return;
        } else if ch == OPEN_PAREN && st != ContentState::AttributeQuotedValue {
            if !self.is_escaped {
                if name_state {
                    self.add_attribute(data);
                } else if st == ContentState::AttributeValue {
                    self.add_value(data);
                }
                self.state_stack.push(st);
                self.state = ContentState::Comment;
            } else {
                self.is_escaped = false;
            }
            return;
        } else if ch == CLOSE_PAREN && st == ContentState::Comment {
            if !self.is_escaped {
                self.state = self.state_stack.pop().unwrap();
                self.reset_parser();
            } else {
                self.is_escaped = false;
            }
            return;
        } else if ch == CR {
            return;
        }
        self.accumulate(o);
    }

    /// Reads the byte at the cursor and acts on it; true where it ends the
    /// field.
    fn step(&mut self, stream: &mut MessageStream) -> (done: bool)
        requires
            names_nonempty(old(self)@),
            token_clean(old(self)@, old(stream).data@),
            old(stream).offset < old(stream).data@.len(),
            well_formed(old(self)@, old(stream).offset as int, old(stream).data@.len() as int),
        ensures
            names_nonempty(final(self)@),
            final(stream).data@ == old(stream).data@,
            stepped(
                old(stream).data@,
                old(stream).offset as int,
                old(self)@,
                final(self)@,
                final(stream).offset as int,
                done,
            ),
    {
        let len: usize = stream.data.len();
        let pos: usize = stream.offset;
        let ch: u8 = stream.data[pos];
        if ch == LF {
            let (done, next) = self.step_newline(&stream.data, pos);
            stream.offset = next;
            return done;
        }
        let st = self.state;
        let value_state = st == ContentState::AttributeValue || st == ContentState::AttributeQuotedValue;
        proof {
            lemma_encoded_word_bounds(stream.data@, pos + 1);
        }
        if ch == EQUALS && value_state && self.is_token_start && pos + 1 < len && stream.data[pos + 1] == QUESTION {
            stream.offset = pos + 1;
            match stream.decode_rfc2047() {
                Some(text) => {
                    self.add_partial_value(&stream.data, false, pos + 1);
                    let clean = without_crlf_chars(text.as_slice());
                    append_chars(&mut self.values, clean.as_slice());
                    self.has_values = true;
                    return false;
                },
                None => {},
            }
        }
        if ch == SPACE || ch == TAB {
            self.step_blank(&stream.data, pos);
        } else if (ch == SLASH && st == ContentState::Type) || (ch == SEMICOLON && st != ContentState::AttributeQuotedValue
            && st != ContentState::Comment) || ((ch == STAR || ch == EQUALS) && st == ContentState::AttributeName) {
            self.step_delimiter(&stream.data, pos);
        } else {
            self.step_plain(&stream.data, pos);
        }
        stream.offset = pos + 1;
        false
    }

    /// The value of the field, once its end is reached.
    fn finish(self) -> (r: HeaderValue)
        ensures
            r@ == finish(self@),
    {
        proof {
            reveal(finish);
        }
        let ghost s = self@;
        let ContentTypeParser { c_type, c_subtype, attributes, continuations, .. } = self;
        let mut attributes = attributes;
        match continuations {
            Some(c) => merge_continuations(&mut attributes, c),
            None => {},
        }
        match c_type {
            Some(t) => {
                let subtype = match c_subtype {
                    Some(sub) => Some(string_from_chars(sub.as_slice())),
                    None => None,
                };
                let attrs = if attributes.len() > 0 {
                    Some(string_pairs_of(&attributes))
                } else {
                    None
                };
                HeaderValue::ContentType(ContentType { c_type: string_from_chars(t.as_slice()), c_subtype: subtype, attributes: attrs })
            },
            None => HeaderValue::Empty,
        }
    }
}

/// The pairs as strings.
fn string_pairs_of(v: &Vec<(Vec<char>, Vec<char>)>) -> (r: Vec<(String, String)>)
    ensures
        string_pairs(r@) == pairs_of(v@),
{
    let mut r: Vec<(String, String)> = Vec::new();
    let mut i: usize = 0;
    while i < v.len()
        invariant
            i <= v@.len(),
            string_pairs(r@) == pairs_of(v@).take(i as int),
        decreases v@.len() - i,
    {
        let name = string_from_chars(v[i].0.as_slice());
        let value = string_from_chars(v[i].1.as_slice());
        let ghost before = r@;
        r.push((name, value));
        assert(r@ == before.push((name, value)));
        assert(pairs_of(v@)[i as int] == (v@[i as int].0@, v@[i as int].1@));
        assert(string_pairs(r@) =~= string_pairs(before).push((name@, value@)));
        i = i + 1;
        assert(string_pairs(r@) =~= pairs_of(v@).take(i as int));
    }
    assert(pairs_of(v@).take(v@.len() as int) =~= pairs_of(v@));
    r
}

impl MessageStream {
    /// Parses the value of a `Content-Type` field from the cursor through the
    /// line feed that ends it (one followed by a space or tab continues it),
    /// and moves the cursor past that line feed.
    pub fn parse_content_type(&mut self) -> (r: HeaderValue)
        ensures
            final(self).data@ == old(self).data@,
            (r@, final(self).offset as int) == content_type_of(old(self).data@, old(self).offset as int),
            has_named_parts(r@),
    {
        let ghost data = self.data@;
        let ghost start = self.offset as int;
        let mut parser = ContentTypeParser::new();
        if self.offset >= self.data.len() {
            return HeaderValue::Empty;
        }
        while self.offset < self.data.len()
            invariant
                self.data@ == data,
                data == old(self).data@,
                start == old(self).offset as int,
                well_formed(parser@, self.offset as int, data.len() as int),
                names_nonempty(parser@),
                token_clean(parser@, data),
                run(data, self.offset as int, parser@) == content_type_of(data, start),
            decreases data.len() - self.offset,
        {
            let ghost before = parser@;
            let ghost pos = self.offset as int;
            if parser.step(self) {
                assert(run(data, pos, before) == (finish(parser@), self.offset as int));
                proof {
                    lemma_finish_named(parser@);
                }
                return parser.finish();
            }
            proof {
                lemma_step_token_clean(data, pos, before);
            }
            assert(run(data, pos, before) == run(data, self.offset as int, parser@));
        }
        HeaderValue::Empty
    }
}

} // verus!
