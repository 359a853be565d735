use vstd::prelude::*;

use crate::content_type::{
    add_attribute, add_value, after_blanks, after_token, content_type_of, finish, initial_state, is_blanks,
    is_token, is_token_byte, joined_value, lemma_run_blanks, lemma_run_token, lemma_strip_crlf_token,
    lemma_token_range, no_crlf, plain_step, run, step, ContentState, ContentTypeModel, HeaderValueModel,
    ParseState, Step, CLOSE_PAREN, EQUALS, LF, OPEN_PAREN, SEMICOLON, SLASH, SPACE, TAB,
};
use crate::text::{lower_ascii, utf8_lossy};

verus! {

/// The room around a token: blanks, an optional comment, and blanks.
pub struct Gap {
    pub lead: Seq<u8>,
    pub comment: Option<Seq<u8>>,
    pub trail: Seq<u8>,
}

/// The text of a comment `(...)`, or nothing.
pub open spec fn comment_bytes(c: Option<Seq<u8>>) -> Seq<u8> {
    match c {
        Some(b) => seq![OPEN_PAREN] + b + seq![CLOSE_PAREN],
        None => Seq::empty(),
    }
}

pub open spec fn gap_bytes(g: Gap) -> Seq<u8> {
    g.lead + comment_bytes(g.comment) + g.trail
}

/// A byte that may stand in a plain comment: a token byte or a blank.
pub open spec fn is_comment_byte(c: u8) -> bool {
    is_token_byte(c) || c == SPACE || c == TAB
}

/// Blanks around a comment whose text is made of token bytes and blanks.
pub open spec fn is_gap(g: Gap) -> bool {
    &&& is_blanks(g.lead)
    &&& is_blanks(g.trail)
    &&& (g.comment matches Some(b) ==> forall|i: int| 0 <= i < b.len() ==> is_comment_byte(#[trigger] b[i]))
}

/// `s2` is `s` but for where the pending token stands and the flags that
/// mark its start and an escape.
pub open spec fn agrees(s: ParseState, s2: ParseState) -> bool {
    s2 == ParseState {
        token_start: s2.token_start,
        token_end: s2.token_end,
        is_token_start: s2.is_token_start,
        is_escaped: s2.is_escaped,
        ..s
    }
}

/// Reading the text of a comment changes nothing but the pending token.
proof fn lemma_run_comment_text(data: Seq<u8>, a: int, b: int, s: ParseState)
    requires
        0 <= a <= b <= data.len(),
        s.state == ContentState::Comment,
        !s.is_escaped,
        forall|k: int| a <= k < b ==> is_comment_byte(#[trigger] data[k]),
    ensures
        exists|s2: ParseState| agrees(s, s2) && !s2.is_escaped && run(data, a, s) == run(data, b, s2),
    decreases b - a,
{
    if a == b {
        assert(agrees(s, s));
    } else {
        assert(is_comment_byte(data[a]));
        let s1 = match step(data, a, s) {
            Step::Next(x, _) => x,
            Step::Done(_, _) => s,
        };
        if data[a] == SPACE || data[a] == TAB {
            assert(step(data, a, s) == Step::Next(ParseState { is_token_start: true, ..s }, a + 1));
        } else {
            assert(step(data, a, s) == Step::Next(plain_step(data, a, s), a + 1));
        }
        assert(step(data, a, s) == Step::Next(s1, a + 1));
        assert(agrees(s, s1) && !s1.is_escaped && s1.state == ContentState::Comment);
        lemma_run_comment_text(data, a + 1, b, s1);
        let s2 = choose|s2: ParseState| agrees(s1, s2) && !s2.is_escaped && run(data, a + 1, s1) == run(data, b, s2);
        assert(agrees(s, s2));
    }
}

/// Reading a comment `(...)` that starts at `a` and ends before `b`, in a
/// state that is not itself a comment or a quoted value, finishes what
/// `(` finishes and then changes nothing but the pending token.
proof fn lemma_run_comment(data: Seq<u8>, a: int, b: int, s: ParseState, s1: ParseState)
    requires
        0 <= a,
        a + 2 <= b <= data.len(),
        data[a] == OPEN_PAREN,
        data[b - 1] == CLOSE_PAREN,
        forall|k: int| a + 1 <= k < b - 1 ==> is_comment_byte(#[trigger] data[k]),
        s.state != ContentState::Comment && s.state != ContentState::AttributeQuotedValue,
        !s.is_escaped,
        s1 == (if s.state == ContentState::Type || s.state == ContentState::SubType || s.state
            == ContentState::AttributeName {
            add_attribute(s, data).0
        } else if s.state == ContentState::AttributeValue {
            add_value(s, data)
        } else {
            s
        }),
        s1.state == s.state,
        s1.stack == s.stack,
        !s1.is_escaped,
    ensures
        exists|s2: ParseState|
            agrees(s1, s2) && s2.token_start == 0 && !s2.is_escaped && run(data, a, s) == run(data, b, s2),
{
    let sc = ParseState { stack: s1.stack.push(s.state), state: ContentState::Comment, ..s1 };
    assert(step(data, a, s) == Step::Next(sc, a + 1));
    lemma_run_comment_text(data, a + 1, b - 1, sc);
    let s3 = choose|s3: ParseState| agrees(sc, s3) && !s3.is_escaped && run(data, a + 1, sc) == run(data, b - 1, s3);
    let s4 = ParseState { token_start: 0, is_token_start: true, state: s.state, stack: s1.stack, ..s3 };
    assert(s3.stack.drop_last() =~= s1.stack);
    assert(step(data, b - 1, s3) == Step::Next(s4, b));
    assert(agrees(s1, s4));
}

/// Reading a gap where no token is pending and no value piece was read
/// changes nothing but the pending token.
proof fn lemma_run_gap(data: Seq<u8>, a: int, g: Gap, s: ParseState)
    requires
        0 <= a,
        a + gap_bytes(g).len() <= data.len(),
        data.subrange(a, a + gap_bytes(g).len()) == gap_bytes(g),
        is_gap(g),
        s.state != ContentState::Comment && s.state != ContentState::AttributeQuotedValue,
        s.token_start == 0,
        !s.is_escaped,
        !s.has_values,
    ensures
        exists|s2: ParseState|
            agrees(s, s2) && s2.token_start == 0 && !s2.is_escaped && run(data, a, s) == run(
                data,
                a + gap_bytes(g).len(),
                s2,
            ),
{
    reveal(add_attribute);
    reveal(add_value);
    let m = a + g.lead.len();
    let e = m + comment_bytes(g.comment).len();
    let f = e + g.trail.len();
    lemma_gap_layout(data, a, g);
    lemma_run_blanks(data, a, m, s);
    let s1 = after_blanks(s, a, m);
    if let Some(body) = g.comment {
        lemma_run_comment(data, m, e, s1, s1);
        let s2 = choose|s2: ParseState| agrees(s1, s2) && s2.token_start == 0 && !s2.is_escaped && run(data, m, s1) == run(data, e, s2);
        lemma_run_blanks(data, e, f, s2);
        assert(agrees(s, after_blanks(s2, e, f)));
    } else {
        lemma_run_blanks(data, e, f, s1);
        assert(agrees(s, after_blanks(s1, e, f)));
    }
}

/// Where the blanks, the comment and its text stand within a gap at `a`.
proof fn lemma_gap_layout(data: Seq<u8>, a: int, g: Gap)
    requires
        0 <= a,
        a + gap_bytes(g).len() <= data.len(),
        data.subrange(a, a + gap_bytes(g).len()) == gap_bytes(g),
        is_gap(g),
    ensures
        ({
            let m = a + g.lead.len();
            let e = m + comment_bytes(g.comment).len();
            let f = e + g.trail.len();
            &&& f == a + gap_bytes(g).len()
            &&& forall|k: int| a <= k < m ==> (#[trigger] data[k] == SPACE || data[k] == TAB)
            &&& forall|k: int| e <= k < f ==> (#[trigger] data[k] == SPACE || data[k] == TAB)
            &&& (g.comment matches Some(body) ==> {
                &&& e == m + body.len() + 2
                &&& data[m] == OPEN_PAREN
                &&& data[e - 1] == CLOSE_PAREN
                &&& forall|k: int| m + 1 <= k < e - 1 ==> is_comment_byte(#[trigger] data[k])
            })
            &&& (g.comment is None ==> e == m)
        }),
{
    let m = a + g.lead.len();
    let cb = comment_bytes(g.comment);
    let e = m + cb.len();
    let f = e + g.trail.len();
    let gb = gap_bytes(g);
    assert forall|k: int| a <= k < f implies #[trigger] data[k] == gb[k - a] by {
        assert(data.subrange(a, f)[k - a] == data[k]);
    }
    assert forall|k: int| a <= k < m implies (#[trigger] data[k] == SPACE || data[k] == TAB) by {
        assert(gb[k - a] == g.lead[k - a]);
    }
    assert forall|k: int| e <= k < f implies (#[trigger] data[k] == SPACE || data[k] == TAB) by {
        assert(gb[k - a] == g.trail[k - e]);
    }
    if let Some(body) = g.comment {
        assert(gb[m - a] == cb[0]);
        assert(gb[e - 1 - a] == cb[cb.len() - 1]);
        assert forall|k: int| m + 1 <= k < e - 1 implies is_comment_byte(#[trigger] data[k]) by {
            assert(gb[k - a] == cb[k - m]);
            assert(cb[k - m] == body[k - m - 1]);
        }
    }
}

/// A name token at `[b, c)`, the gap after it and the delimiter at `p`:
/// the token becomes the type, subtype or parameter name, and the parser
/// moves to the state `next`.
proof fn lemma_name_part(data: Seq<u8>, b: int, c: int, g: Gap, p: int, s: ParseState, next: ContentState)
    requires
        0 <= b < c,
        p == c + gap_bytes(g).len(),
        p < data.len(),
        forall|k: int| b <= k < c ==> is_token_byte(#[trigger] data[k]),
        data.subrange(c, p) == gap_bytes(g),
        is_gap(g),
        s.token_start == 0,
        !s.is_escaped,
        !s.is_continuation,
        (data[p] == SLASH && s.state == ContentState::Type && next == ContentState::SubType) || (
        data[p] == SEMICOLON && (s.state == ContentState::Type || s.state == ContentState::SubType)
            && next == ContentState::AttributeName) || (data[p] == EQUALS && s.state
            == ContentState::AttributeName && next == ContentState::AttributeValue && g.comment is None),
    ensures
        exists|s2: ParseState|
            agrees(ParseState { state: next, ..add_attribute(after_token(s, b, c), data).0 }, s2)
                && s2.token_start == 0 && !s2.is_escaped && run(data, b, s) == run(data, p + 1, s2),
{
    reveal(add_attribute);
    let x = after_token(s, b, c);
    lemma_run_token(data, b, c, s);
    lemma_gap_layout(data, c, g);
    let target = ParseState { state: next, ..add_attribute(x, data).0 };
    let m = c + g.lead.len();
    let e = m + comment_bytes(g.comment).len();
    if let Some(body) = g.comment {
        lemma_run_blanks(data, c, m, x);
        let y1 = after_blanks(x, c, m);
        let s1 = add_attribute(y1, data).0;
        assert(s1 == add_attribute(x, data).0);
        lemma_run_comment(data, m, e, y1, s1);
        let s2 = choose|s2: ParseState| agrees(s1, s2) && s2.token_start == 0 && !s2.is_escaped && run(data, m, y1) == run(data, e, s2);
        lemma_run_blanks(data, e, p, s2);
        let s3 = after_blanks(s2, e, p);
        let s4 = ParseState { state: next, ..s3 };
        assert(step(data, p, s3) == Step::Next(s4, p + 1));
        assert(agrees(target, s4));
    } else {
        lemma_run_blanks(data, c, p, x);
        let y = after_blanks(x, c, p);
        assert(add_attribute(y, data).0 == add_attribute(x, data).0);
        assert(step(data, p, y) == Step::Next(target, p + 1));
        assert(agrees(target, target));
    }
}

/// The value token at `[b, c)`, the gap after it and the line feed that
/// ends the field: the parameter completes and the field yields its value.
proof fn lemma_value_part(data: Seq<u8>, b: int, c: int, g: Gap, p: int, s: ParseState)
    requires
        0 <= b < c,
        p == c + gap_bytes(g).len(),
        p + 1 == data.len(),
        forall|k: int| b <= k < c ==> is_token_byte(#[trigger] data[k]),
        data.subrange(c, p) == gap_bytes(g),
        is_gap(g),
        data[p] == LF,
        s.state == ContentState::AttributeValue,
        s.attr_name is Some,
        s.token_start == 0,
        !s.is_escaped,
    ensures
        run(data, b, s) == (finish(add_value(after_token(s, b, c), data)), p + 1),
{
    reveal(add_value);
    reveal(finish);
    let x = after_token(s, b, c);
    lemma_run_token(data, b, c, s);
    lemma_gap_layout(data, c, g);
    let m = c + g.lead.len();
    let e = m + comment_bytes(g.comment).len();
    if let Some(body) = g.comment {
        lemma_run_blanks(data, c, m, x);
        let y1 = after_blanks(x, c, m);
        let s1 = add_value(y1, data);
        assert(s1 == add_value(x, data));
        lemma_run_comment(data, m, e, y1, s1);
        let s2 = choose|s2: ParseState| agrees(s1, s2) && s2.token_start == 0 && !s2.is_escaped && run(data, m, y1) == run(data, e, s2);
        lemma_run_blanks(data, e, p, s2);
        let s3 = after_blanks(s2, e, p);
        assert(add_value(s3, data) == s3);
        assert(step(data, p, s3) == Step::Done(finish(s3), p + 1));
        assert(finish(s3) == finish(s1));
    } else {
        lemma_run_blanks(data, c, p, x);
        let y = after_blanks(x, c, p);
        assert(add_value(y, data) == add_value(x, data));
        assert(step(data, p, y) == Step::Done(finish(add_value(x, data)), p + 1));
    }
}

/// The field `type/subtype;name=value` and its line feed, with the gaps
/// `g[0]` to `g[7]` before and after each token.
#[verifier::opaque]
pub open spec fn commented_field(t: Seq<u8>, st: Seq<u8>, n: Seq<u8>, v: Seq<u8>, g: Seq<Gap>) -> Seq<u8> {
    gap_bytes(g[0]) + t + gap_bytes(g[1]) + seq![SLASH] + gap_bytes(g[2]) + st + gap_bytes(g[3]) + seq![SEMICOLON]
        + gap_bytes(g[4]) + n + gap_bytes(g[5]) + seq![EQUALS] + gap_bytes(g[6]) + v + gap_bytes(g[7]) + seq![LF]
}

/// Where the gaps, tokens and delimiters of a commented field stand.
#[verifier::rlimit(80)]
proof fn lemma_commented_field_layout(t: Seq<u8>, st: Seq<u8>, n: Seq<u8>, v: Seq<u8>, g: Seq<Gap>)
    requires
        g.len() == 8,
    ensures
        ({
            let d = commented_field(t, st, n, v, g);
            let b1 = gap_bytes(g[0]).len() as int;
            let c1 = b1 + t.len();
            let p_slash = c1 + gap_bytes(g[1]).len();
            let b2 = p_slash + 1 + gap_bytes(g[2]).len();
            let c2 = b2 + st.len();
            let p_semi = c2 + gap_bytes(g[3]).len();
            let b3 = p_semi + 1 + gap_bytes(g[4]).len();
            let c3 = b3 + n.len();
            let p_eq = c3 + gap_bytes(g[5]).len();
            let b4 = p_eq + 1 + gap_bytes(g[6]).len();
            let c4 = b4 + v.len();
            let p_lf = c4 + gap_bytes(g[7]).len();
            &&& d.len() == p_lf + 1
            &&& d.subrange(0, b1) == gap_bytes(g[0])
            &&& d.subrange(b1, c1) == t
            &&& d.subrange(c1, p_slash) == gap_bytes(g[1])
            &&& d.subrange(p_slash + 1, b2) == gap_bytes(g[2])
            &&& d.subrange(b2, c2) == st
            &&& d.subrange(c2, p_semi) == gap_bytes(g[3])
            &&& d.subrange(p_semi + 1, b3) == gap_bytes(g[4])
            &&& d.subrange(b3, c3) == n
            &&& d.subrange(c3, p_eq) == gap_bytes(g[5])
            &&& d.subrange(p_eq + 1, b4) == gap_bytes(g[6])
            &&& d.subrange(b4, c4) == v
            &&& d.subrange(c4, p_lf) == gap_bytes(g[7])
            &&& d[p_slash] == SLASH && d[p_semi] == SEMICOLON && d[p_eq] == EQUALS && d[p_lf] == LF
        }),
{
    reveal(commented_field);
    let d = commented_field(t, st, n, v, g);
    let b1 = gap_bytes(g[0]).len() as int;
    let c1 = b1 + t.len();
    let p_slash = c1 + gap_bytes(g[1]).len();
    let b2 = p_slash + 1 + gap_bytes(g[2]).len();
    let c2 = b2 + st.len();
    let p_semi = c2 + gap_bytes(g[3]).len();
    let b3 = p_semi + 1 + gap_bytes(g[4]).len();
    let c3 = b3 + n.len();
    let p_eq = c3 + gap_bytes(g[5]).len();
    let b4 = p_eq + 1 + gap_bytes(g[6]).len();
    let c4 = b4 + v.len();
    let p_lf = c4 + gap_bytes(g[7]).len();
    assert(d.subrange(0, b1) =~= gap_bytes(g[0]));
    assert(d.subrange(b1, c1) =~= t);
    assert(d.subrange(c1, p_slash) =~= gap_bytes(g[1]));
    assert(d[p_slash] == SLASH);
    assert(d.subrange(p_slash + 1, b2) =~= gap_bytes(g[2]));
    assert(d.subrange(b2, c2) =~= st);
    assert(d.subrange(c2, p_semi) =~= gap_bytes(g[3]));
    assert(d[p_semi] == SEMICOLON);
    assert(d.subrange(p_semi + 1, b3) =~= gap_bytes(g[4]));
    assert(d.subrange(b3, c3) =~= n);
    assert(d.subrange(c3, p_eq) =~= gap_bytes(g[5]));
    assert(d[p_eq] == EQUALS);
    assert(d.subrange(p_eq + 1, b4) =~= gap_bytes(g[6]));
    assert(d.subrange(b4, c4) =~= v);
    assert(d.subrange(c4, p_lf) =~= gap_bytes(g[7]));
    assert(d[p_lf] == LF);
}

/// A field `type/subtype;name=value` of plain tokens, with blanks and plain
/// comments before and after its tokens (but for between the name and its
/// `=`), yields its type, subtype and parameter name in lower case and its
/// value as it stands (line breaks aside): comments and blanks are dropped.
pub proof fn lemma_commented_field(t: Seq<u8>, st: Seq<u8>, n: Seq<u8>, v: Seq<u8>, g: Seq<Gap>)
    requires
        is_token(t),
        is_token(st),
        is_token(n),
        is_token(v),
        g.len() == 8,
        forall|i: int| 0 <= i < 8 ==> is_gap(#[trigger] g[i]),
        g[5].comment is None,
    ensures
        content_type_of(commented_field(t, st, n, v, g), 0) == (
            HeaderValueModel::ContentType(
                ContentTypeModel {
                    c_type: lower_ascii(utf8_lossy(t)),
                    c_subtype: Some(lower_ascii(utf8_lossy(st))),
                    attributes: Some(seq![(lower_ascii(utf8_lossy(n)), no_crlf(utf8_lossy(v)))]),
                },
            ),
            commented_field(t, st, n, v, g).len() as int,
        ),
{
    reveal(add_attribute);
    reveal(add_value);
    reveal(finish);
    let d = commented_field(t, st, n, v, g);
    lemma_commented_field_layout(t, st, n, v, g);
    let b1 = gap_bytes(g[0]).len() as int;
    let c1 = b1 + t.len();
    let p_slash = c1 + gap_bytes(g[1]).len();
    let b2 = p_slash + 1 + gap_bytes(g[2]).len();
    let c2 = b2 + st.len();
    let p_semi = c2 + gap_bytes(g[3]).len();
    let b3 = p_semi + 1 + gap_bytes(g[4]).len();
    let c3 = b3 + n.len();
    let p_eq = c3 + gap_bytes(g[5]).len();
    let b4 = p_eq + 1 + gap_bytes(g[6]).len();
    let c4 = b4 + v.len();
    let p_lf = c4 + gap_bytes(g[7]).len();
    assert(is_gap(g[0]) && is_gap(g[1]) && is_gap(g[2]) && is_gap(g[3]));
    assert(is_gap(g[4]) && is_gap(g[5]) && is_gap(g[6]) && is_gap(g[7]));
    lemma_token_range(d, b1, c1, t);
    lemma_token_range(d, b2, c2, st);
    lemma_token_range(d, b3, c3, n);
    lemma_token_range(d, b4, c4, v);
    lemma_strip_crlf_token(t);
    lemma_strip_crlf_token(st);
    lemma_strip_crlf_token(n);
    lemma_strip_crlf_token(v);
    let s0 = initial_state();
    lemma_run_gap(d, 0, g[0], s0);
    let sa = choose|x: ParseState| agrees(s0, x) && x.token_start == 0 && !x.is_escaped && run(d, 0, s0) == run(d, b1, x);
    lemma_name_part(d, b1, c1, g[1], p_slash, sa, ContentState::SubType);
    let ta = ParseState { state: ContentState::SubType, ..add_attribute(after_token(sa, b1, c1), d).0 };
    let sb = choose|x: ParseState| agrees(ta, x) && x.token_start == 0 && !x.is_escaped && run(d, b1, sa) == run(d, p_slash + 1, x);
    lemma_run_gap(d, p_slash + 1, g[2], sb);
    let sc = choose|x: ParseState| agrees(sb, x) && x.token_start == 0 && !x.is_escaped && run(d, p_slash + 1, sb) == run(d, b2, x);
    lemma_name_part(d, b2, c2, g[3], p_semi, sc, ContentState::AttributeName);
    let tc = ParseState { state: ContentState::AttributeName, ..add_attribute(after_token(sc, b2, c2), d).0 };
    let sd = choose|x: ParseState| agrees(tc, x) && x.token_start == 0 && !x.is_escaped && run(d, b2, sc) == run(d, p_semi + 1, x);
    lemma_run_gap(d, p_semi + 1, g[4], sd);
    let se = choose|x: ParseState| agrees(sd, x) && x.token_start == 0 && !x.is_escaped && run(d, p_semi + 1, sd) == run(d, b3, x);
    lemma_name_part(d, b3, c3, g[5], p_eq, se, ContentState::AttributeValue);
    let te = ParseState { state: ContentState::AttributeValue, ..add_attribute(after_token(se, b3, c3), d).0 };
    let sf = choose|x: ParseState| agrees(te, x) && x.token_start == 0 && !x.is_escaped && run(d, b3, se) == run(d, p_eq + 1, x);
    lemma_run_gap(d, p_eq + 1, g[6], sf);
    let sg = choose|x: ParseState| agrees(sf, x) && x.token_start == 0 && !x.is_escaped && run(d, p_eq + 1, sf) == run(d, b4, x);
    lemma_value_part(d, b4, c4, g[7], p_lf, sg);
    let last = add_value(after_token(sg, b4, c4), d);
    assert(sg.c_type == Some(lower_ascii(utf8_lossy(t))));
    assert(sg.c_subtype == Some(lower_ascii(utf8_lossy(st))));
    assert(sg.attr_name == Some(lower_ascii(utf8_lossy(n))));
    assert(sg.attributes.len() == 0 && sg.values.len() == 0 && !sg.is_continuation);
    assert(sg.continuations is None);
    assert(last.attributes =~= seq![(lower_ascii(utf8_lossy(n)), no_crlf(utf8_lossy(v)))]) by {
        assert(joined_value(after_token(sg, b4, c4), d) =~= no_crlf(utf8_lossy(v)));
    }
}

} // verus!
