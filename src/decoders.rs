use vstd::prelude::*;
use vstd::utf8::is_scalar;

use crate::text::{char_from_scalar, lossy_chars, lower_byte, utf8_lossy};

verus! {

/// The value of an ASCII hexadecimal digit, in either case.
pub open spec fn hex_digit(b: u8) -> Option<u8> {
    if 0x30 <= b && b <= 0x39 {
        Some((b - 0x30) as u8)
    } else if 0x41 <= b && b <= 0x46 {
        Some((b - 0x37) as u8)
    } else if 0x61 <= b && b <= 0x66 {
        Some((b - 0x57) as u8)
    } else {
        None
    }
}

/// `o` with `p` put in front of the bytes it holds.
pub open spec fn prepend(p: Seq<u8>, o: Option<Seq<u8>>) -> Option<Seq<u8>> {
    match o {
        Some(x) => Some(p + x),
        None => None,
    }
}

/// The bytes that an optional vector holds.
pub open spec fn bytes_of(o: Option<Vec<u8>>) -> Option<Seq<u8>> {
    match o {
        Some(v) => Some(v@),
        None => None,
    }
}

/// `s` with each `esc` that is followed by two hexadecimal digits replaced by
/// the byte they spell and, where `underscore` holds, each `_` by a space.
/// `None` where some `esc` is not followed by two hexadecimal digits.
pub open spec fn unescape(s: Seq<u8>, esc: u8, underscore: bool) -> Option<Seq<u8>>
    decreases s.len(),
{
    if s.len() == 0 {
        Some(Seq::empty())
    } else if s[0] == esc {
        if s.len() >= 3 && hex_digit(s[1]) is Some && hex_digit(s[2]) is Some {
            let b = (hex_digit(s[1])->0 * 16 + hex_digit(s[2])->0) as u8;
            prepend(seq![b], unescape(s.subrange(3, s.len() as int), esc, underscore))
        } else {
            None
        }
    } else if underscore && s[0] == 0x5f {
        prepend(seq![0x20u8], unescape(s.subrange(1, s.len() as int), esc, underscore))
    } else {
        prepend(seq![s[0]], unescape(s.subrange(1, s.len() as int), esc, underscore))
    }
}

/// RFC 2231 percent decoding: `%XX` becomes the byte `0xXX`.
pub open spec fn percent_decode(s: Seq<u8>) -> Option<Seq<u8>> {
    unescape(s, 0x25, false)
}

/// The "Q" encoding of RFC 2047: `=XX` becomes the byte `0xXX`, `_` a space.
pub open spec fn q_decode(s: Seq<u8>) -> Option<Seq<u8>> {
    unescape(s, 0x3d, true)
}

/// The value of a hexadecimal digit.
pub fn hex_digit_value(b: u8) -> (r: Option<u8>)
    ensures
        r == hex_digit(b),
{
    if 0x30 <= b && b <= 0x39 {
        Some(b - 0x30)
    } else if 0x41 <= b && b <= 0x46 {
        Some(b - 0x37)
    } else if 0x61 <= b && b <= 0x66 {
        Some(b - 0x57)
    } else {
        None
    }
}

/// Decodes the escapes of `s` as `unescape` describes.
pub fn unescape_bytes(s: &[u8], esc: u8, underscore: bool) -> (r: Option<Vec<u8>>)
    ensures
        bytes_of(r) == unescape(s@, esc, underscore),
{
    let n: usize = s.len();
    let mut out: Vec<u8> = Vec::new();
    let mut i: usize = 0;
    assert(s@.subrange(0, n as int) =~= s@);
    assert(forall|t: Seq<u8>| #![auto] out@ + t =~= t);
    while i < n
        invariant
            n == s@.len(),
            i <= n,
            unescape(s@, esc, underscore) == prepend(out@, unescape(s@.subrange(i as int, n as int), esc, underscore)),
        decreases n - i,
    {
        let ghost rest = s@.subrange(i as int, n as int);
        let b = s[i];
        if b == esc {
            if n - i > 2 {
                let h1 = hex_digit_value(s[i + 1]);
                let h2 = hex_digit_value(s[i + 2]);
                match (h1, h2) {
                    (Some(x), Some(y)) => {
                        let v: u8 = x * 16 + y;
                        assert(rest.subrange(3, rest.len() as int) =~= s@.subrange(i + 3, n as int));
                        assert(out@.push(v) =~= out@ + seq![v]);
                        assert(forall|t: Seq<u8>| #![auto] (out@ + seq![v]) + t =~= out@ + (seq![v] + t));
                        out.push(v);
                        i = i + 3;
                    },
                    _ => {
                        return None;
                    },
                }
            } else {
                return None;
            }
        } else {
            let v: u8 = if underscore && b == 0x5f { 0x20 } else { b };
            assert(rest.subrange(1, rest.len() as int) =~= s@.subrange(i + 1, n as int));
            assert(forall|t: Seq<u8>| #![auto] (out@ + seq![v]) + t =~= out@ + (seq![v] + t));
            out.push(v);
            i = i + 1;
        }
    }
    assert(out@ + Seq::<u8>::empty() =~= out@);
    Some(out)
}

/// The six-bit value of a character of the base64 alphabet.
pub open spec fn b64_digit(b: u8) -> Option<u8> {
    if 0x41 <= b && b <= 0x5a {
        Some((b - 0x41) as u8)
    } else if 0x61 <= b && b <= 0x7a {
        Some((b - 0x47) as u8)
    } else if 0x30 <= b && b <= 0x39 {
        Some((b + 4) as u8)
    } else if b == 0x2b {
        Some(62u8)
    } else if b == 0x2f {
        Some(63u8)
    } else {
        None
    }
}

/// The three bytes that four six-bit values spell.
pub open spec fn b64_triple(a: u8, b: u8, c: u8, d: u8) -> Seq<u8> {
    seq![(a * 4 + b / 16) as u8, ((b % 16) * 16 + c / 4) as u8, ((c % 4) * 64 + d) as u8]
}

/// Every byte of `s` is a base64 digit.
pub open spec fn b64_all_digits(s: Seq<u8>) -> bool {
    forall|i: int| 0 <= i < s.len() ==> (#[trigger] b64_digit(s[i])) is Some
}

/// The six-bit value of the digit at `i`; 0 past the end.
pub open spec fn b64_at(s: Seq<u8>, i: int) -> u8 {
    if i < s.len() {
        b64_digit(s[i])->0
    } else {
        0
    }
}

/// The first group of four digits of `s`, or all of `s` where it is shorter.
pub open spec fn b64_head(s: Seq<u8>) -> Seq<u8> {
    if s.len() < 4 {
        s
    } else {
        s.take(4)
    }
}

/// Base64 digits without padding, four to three bytes; a last group of
/// two or three digits gives one or two bytes.
pub open spec fn b64_groups(s: Seq<u8>) -> Option<Seq<u8>>
    decreases s.len(),
{
    if s.len() == 0 {
        Some(Seq::empty())
    } else if s.len() == 1 || !b64_all_digits(b64_head(s)) {
        None
    } else {
        let t = b64_triple(b64_at(s, 0), b64_at(s, 1), b64_at(s, 2), b64_at(s, 3));
        if s.len() < 4 {
            Some(t.take(s.len() - 1))
        } else {
            prepend(t, b64_groups(s.subrange(4, s.len() as int)))
        }
    }
}

/// The number of `=` that pad the end of `s`, at most two.
pub open spec fn b64_padding(s: Seq<u8>) -> int {
    if s.len() >= 2 && s[s.len() - 1] == 0x3d && s[s.len() - 2] == 0x3d {
        2
    } else if s.len() >= 1 && s[s.len() - 1] == 0x3d {
        1
    } else {
        0
    }
}

/// The "B" encoding of RFC 2047: base64, with padding that completes the
/// last group of four, or none.
pub open spec fn b64_decode(s: Seq<u8>) -> Option<Seq<u8>> {
    let p = b64_padding(s);
    if p > 0 && s.len() % 4 != 0 {
        None
    } else {
        b64_groups(s.subrange(0, s.len() - p))
    }
}

/// The six-bit value of a base64 digit.
pub fn b64_digit_value(b: u8) -> (r: Option<u8>)
    ensures
        r == b64_digit(b),
{
    if 0x41 <= b && b <= 0x5a {
        Some(b - 0x41)
    } else if 0x61 <= b && b <= 0x7a {
        Some(b - 0x47)
    } else if 0x30 <= b && b <= 0x39 {
        Some(b + 4)
    } else if b == 0x2b {
        Some(62)
    } else if b == 0x2f {
        Some(63)
    } else {
        None
    }
}

/// Decodes base64 as `b64_decode` describes.
pub fn base64_decode(s: &[u8]) -> (r: Option<Vec<u8>>)
    ensures
        bytes_of(r) == b64_decode(s@),
{
    let len: usize = s.len();
    let pad: usize = if len >= 2 && s[len - 1] == 0x3d && s[len - 2] == 0x3d {
        2
    } else if len >= 1 && s[len - 1] == 0x3d {
        1
    } else {
        0
    };
    assert(b64_padding(s@) == pad as int);
    if pad > 0 && len % 4 != 0 {
        return None;
    }
    let n: usize = len - pad;
    let ghost core = s@.subrange(0, n as int);
    assert(b64_decode(s@) == b64_groups(core));
    let mut out: Vec<u8> = Vec::new();
    let mut i: usize = 0;
    assert(core.subrange(0, n as int) =~= core);
    assert(forall|t: Seq<u8>| #![auto] out@ + t =~= t);
    while i < n
        invariant
            n <= s@.len(),
            core == s@.subrange(0, n as int),
            i <= n,
            b64_groups(core) == prepend(out@, b64_groups(core.subrange(i as int, n as int))),
            b64_decode(s@) == b64_groups(core),
        decreases n - i,
    {
        let ghost rest = core.subrange(i as int, n as int);
        let k: usize = if n - i < 4 { n - i } else { 4 };
        if k == 1 {
            assert(b64_groups(rest) is None);
            return None;
        }
        let mut d: [u8; 4] = [0, 0, 0, 0];
        let mut j: usize = 0;
        while j < k
            invariant
                k <= 4,
                i + k <= n,
                n <= s@.len(),
                core == s@.subrange(0, n as int),
                rest == core.subrange(i as int, n as int),
                b64_groups(core) == prepend(out@, b64_groups(rest)),
                b64_decode(s@) == b64_groups(core),
                k == (if rest.len() < 4 { rest.len() } else { 4 }),
                j <= k,
                forall|m: int| 0 <= m < j ==> (#[trigger] b64_digit(rest[m])) is Some && d@[m] == b64_digit(rest[m])->0,
                forall|m: int| j <= m < 4 ==> d@[m] == 0,
            decreases k - j,
        {
            match b64_digit_value(s[i + j]) {
                Some(v) => {
                    d[j] = v;
                },
                None => {
                    assert(!b64_all_digits(b64_head(rest))) by {
                        assert(b64_head(rest)[j as int] == rest[j as int]);
                    }
                    assert(b64_groups(rest) is None);
                    return None;
                },
            }
            j = j + 1;
        }
        assert(b64_all_digits(b64_head(rest)));
        let a = d[0];
        let b = d[1];
        let c = d[2];
        let e = d[3];
        assert(b64_at(rest, 0) == a && b64_at(rest, 1) == b && b64_at(rest, 2) == c && b64_at(rest, 3) == e);
        let ghost t = b64_triple(a, b, c, e);
        let ghost out0 = out@;
        let x0: u8 = a * 4 + b / 16;
        let x1: u8 = (b % 16) * 16 + c / 4;
        let x2: u8 = (c % 4) * 64 + e;
        out.push(x0);
        if k > 2 {
            out.push(x1);
        }
        if k > 3 {
            out.push(x2);
        }
        if k < 4 {
            assert(out@ =~= out0 + t.take(k - 1));
            assert(i + k == n);
            assert(b64_groups(rest) == Some(t.take(k - 1)));
            return Some(out);
        }
        assert(rest.subrange(4, rest.len() as int) =~= core.subrange(i + 4, n as int));
        assert(out@ =~= out0 + t);
        assert(forall|u: Seq<u8>| #![auto] (out0 + t) + u =~= out0 + (t + u));
        i = i + 4;
    }
    assert(out@ + Seq::<u8>::empty() =~= out@);
    Some(out)
}

/// The character sets whose names this library knows: a reduced stand-in
/// for a full registry of charsets. Any other name (windows-1252, say) is
/// decoded as UTF-8, with invalid sequences replaced.
#[derive(Clone, Copy, Debug, PartialEq, Eq, Structural)]
pub enum Charset {
    Utf8,
    Latin1,
    Arabic,
}

/// `name` equals `label` up to ASCII case (`label` is in lower case).
pub open spec fn label_matches(name: Seq<u8>, label: Seq<char>) -> bool {
    name.len() == label.len() && forall|i: int|
        0 <= i < name.len() ==> lower_byte(#[trigger] name[i]) as u32 == label[i] as u32
}

/// The character set that `name` denotes, compared without regard to case.
pub open spec fn charset_named(name: Seq<u8>) -> Option<Charset> {
    if label_matches(name, "utf-8"@) || label_matches(name, "utf8"@) {
        Some(Charset::Utf8)
    } else if label_matches(name, "iso-8859-1"@) || label_matches(name, "latin1"@) {
        Some(Charset::Latin1)
    } else if label_matches(name, "iso-8859-6"@) || label_matches(name, "arabic"@) {
        Some(Charset::Arabic)
    } else {
        None
    }
}

/// The Unicode scalar that ISO-8859-6 gives to a byte; unassigned bytes give
/// the replacement character.
pub open spec fn arabic_scalar(b: u8) -> u32 {
    if b <= 0xa0 || b == 0xa4 || b == 0xad {
        b as u32
    } else if b == 0xac {
        0x060c
    } else if b == 0xbb {
        0x061b
    } else if b == 0xbf {
        0x061f
    } else if 0xc1 <= b && b <= 0xda {
        (0x0621 + (b - 0xc1)) as u32
    } else if 0xe0 <= b && b <= 0xf2 {
        (0x0640 + (b - 0xe0)) as u32
    } else {
        0xfffd
    }
}

/// The text that `b` encodes in `charset`; UTF-8, with invalid sequences
/// replaced, where the character set is unknown.
pub open spec fn decode_text(charset: Option<Charset>, b: Seq<u8>) -> Seq<char> {
    match charset {
        Some(Charset::Latin1) => b.map_values(|x: u8| (x as u32) as char),
        Some(Charset::Arabic) => b.map_values(|x: u8| arabic_scalar(x) as char),
        _ => utf8_lossy(b),
    }
}

/// Whether `name` equals `label` up to ASCII case.
pub fn matches_label(name: &[u8], label: &str) -> (r: bool)
    ensures
        r == label_matches(name@, label@),
{
    if name.len() != label.unicode_len() {
        return false;
    }
    let mut i: usize = 0;
    while i < name.len()
        invariant
            name@.len() == label@.len(),
            i <= name@.len(),
            forall|k: int| 0 <= k < i ==> lower_byte(#[trigger] name@[k]) as u32 == label@[k] as u32,
        decreases name@.len() - i,
    {
        let b: u8 = name[i];
        let l: u8 = if 0x41 <= b && b <= 0x5a { b + 32 } else { b };
        if l as u32 != label.get_char(i) as u32 {
            return false;
        }
        i = i + 1;
    }
    true
}

/// Looks up the character set that `name` denotes.
pub fn charset_decoder(name: &[u8]) -> (r: Option<Charset>)
    ensures
        r == charset_named(name@),
{
    if matches_label(name, "utf-8") || matches_label(name, "utf8") {
        Some(Charset::Utf8)
    } else if matches_label(name, "iso-8859-1") || matches_label(name, "latin1") {
        Some(Charset::Latin1)
    } else if matches_label(name, "iso-8859-6") || matches_label(name, "arabic") {
        Some(Charset::Arabic)
    } else {
        None
    }
}

fn arabic_char(b: u8) -> (r: char)
    ensures
        r == arabic_scalar(b) as char,
{
    let u: u32 = if b <= 0xa0 || b == 0xa4 || b == 0xad {
        b as u32
    } else if b == 0xac {
        0x060c
    } else if b == 0xbb {
        0x061b
    } else if b == 0xbf {
        0x061f
    } else if 0xc1 <= b && b <= 0xda {
        0x0621 + (b - 0xc1) as u32
    } else if 0xe0 <= b && b <= 0xf2 {
        0x0640 + (b - 0xe0) as u32
    } else {
        0xfffd
    };
    assert(is_scalar(u));
    char_from_scalar(u).unwrap()
}

/// Decodes `b` in `charset` as `decode_text` describes.
pub fn decode_charset(charset: Option<Charset>, b: &[u8]) -> (r: Vec<char>)
    ensures
        r@ == decode_text(charset, b@),
{
    match charset {
        Some(Charset::Latin1) | Some(Charset::Arabic) => {
            let mut out: Vec<char> = Vec::new();
            let mut i: usize = 0;
            while i < b.len()
                invariant
                    charset == Some(Charset::Latin1) || charset == Some(Charset::Arabic),
                    decode_text(charset, b@).len() == b@.len(),
                    i <= b@.len(),
                    out@.len() == i,
                    forall|k: int| 0 <= k < i ==> out@[k] == (#[trigger] decode_text(charset, b@)[k]),
                decreases b@.len() - i,
            {
                let x: u8 = b[i];
                let c: char = match charset {
                    Some(Charset::Latin1) => x as char,
                    _ => arabic_char(x),
                };
                out.push(c);
                i = i + 1;
            }
            assert(out@ =~= decode_text(charset, b@));
            out
        },
        _ => lossy_chars(b),
    }
}

} // verus!
