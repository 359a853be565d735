use vstd::prelude::*;

use crate::decoders::{
    b64_decode, base64_decode, charset_decoder, charset_named, decode_charset,
    decode_text, q_decode, unescape_bytes,
};

verus! {

/// A cursor over the raw bytes of a header field.
pub struct MessageStream {
    pub data: Vec<u8>,
    pub offset: usize,
}

/// The first index in `[i, end)` whose byte is `a` or `b`; `end` where none is.
pub open spec fn find_either(data: Seq<u8>, i: int, end: int, a: u8, b: u8) -> int
    decreases end - i,
{
    if i >= end {
        end
    } else if data[i] == a || data[i] == b {
        i
    } else {
        find_either(data, i + 1, end, a, b)
    }
}

/// The index that `find_either` gives lies in `[i, end]`.
pub proof fn lemma_find_either_bounds(data: Seq<u8>, i: int, end: int, a: u8, b: u8)
    requires
        i <= end,
    ensures
        i <= find_either(data, i, end, a, b) <= end,
    decreases end - i,
{
    if i < end && !(data[i] == a || data[i] == b) {
        lemma_find_either_bounds(data, i + 1, end, a, b);
    }
}

/// An RFC 2047 encoded word `=?charset?encoding?text?=`, read from the `?`
/// at `pos` that follows its `=`: the text it decodes to and the index just
/// past its closing `?=`. A `*language` suffix of the charset is ignored;
/// the word never reaches past a line feed.
#[verifier::opaque]
pub open spec fn encoded_word(data: Seq<u8>, pos: int) -> Option<(Seq<char>, int)> {
    let n = data.len() as int;
    let cs_start = pos + 1;
    let cs_end = find_either(data, cs_start, n, 0x3f, 0x0a);
    if 0 <= pos < n && data[pos] == 0x3f && cs_start < cs_end && cs_end + 2 < n && data[cs_end]
        == 0x3f && is_encoding(data[cs_end + 1]) && data[cs_end + 2] == 0x3f {
        let name_end = find_either(data, cs_start, cs_end, 0x2a, 0x2a);
        let t_start = cs_end + 3;
        let t_end = find_either(data, t_start, n, 0x3f, 0x0a);
        if t_end + 1 < n && data[t_end] == 0x3f && data[t_end + 1] == 0x3d {
            let text = data.subrange(t_start, t_end);
            let decoded = if data[cs_end + 1] == 0x71 || data[cs_end + 1] == 0x51 {
                q_decode(text)
            } else {
                b64_decode(text)
            };
            match decoded {
                Some(bytes) => Some(
                    (decode_text(charset_named(data.subrange(cs_start, name_end)), bytes), t_end + 2),
                ),
                None => None,
            }
        } else {
            None
        }
    } else {
        None
    }
}

/// An encoded word starts with the `?` at `pos` and ends past it, within the bytes.
pub proof fn lemma_encoded_word_bounds(data: Seq<u8>, pos: int)
    ensures
        encoded_word(data, pos) matches Some((text, end)) ==> 0 <= pos < data.len() && data[pos] == 0x3f
            && pos < end <= data.len(),
{
    reveal(encoded_word);
    let n = data.len() as int;
    if 0 <= pos < n {
        lemma_find_either_bounds(data, pos + 1, n, 0x3f, 0x0a);
        let cs_end = find_either(data, pos + 1, n, 0x3f, 0x0a);
        if cs_end + 3 <= n {
            lemma_find_either_bounds(data, cs_end + 3, n, 0x3f, 0x0a);
        }
    }
}

/// `q`, `Q`, `b` or `B`.
pub open spec fn is_encoding(b: u8) -> bool {
    b == 0x71 || b == 0x51 || b == 0x62 || b == 0x42
}

fn find_either_in(data: &Vec<u8>, i: usize, end: usize, a: u8, b: u8) -> (r: usize)
    requires
        i <= end <= data@.len(),
    ensures
        r as int == find_either(data@, i as int, end as int, a, b),
        i <= r <= end,
{
    let mut j: usize = i;
    while j < end
        invariant
            i <= j <= end,
            end <= data@.len(),
            find_either(data@, j as int, end as int, a, b) == find_either(data@, i as int, end as int, a, b),
        decreases end - j,
    {
        if data[j] == a || data[j] == b {
            return j;
        }
        j = j + 1;
    }
    j
}

impl MessageStream {
    /// A cursor at the start of a copy of `data`.
    pub fn new(data: &[u8]) -> (r: MessageStream)
        ensures
            r.data@ == data@,
            r.offset == 0,
    {
        let mut v: Vec<u8> = Vec::new();
        let mut i: usize = 0;
        while i < data.len()
            invariant
                i <= data@.len(),
                v@ == data@.subrange(0, i as int),
            decreases data@.len() - i,
        {
            v.push(data[i]);
            i = i + 1;
            assert(v@ =~= data@.subrange(0, i as int));
        }
        assert(data@.subrange(0, data@.len() as int) =~= data@);
        MessageStream { data: v, offset: 0 }
    }

    /// The index of the next byte to read.
    pub fn offset(&self) -> (r: usize)
        ensures
            r == self.offset,
    {
        self.offset
    }

    /// Decodes the encoded word whose `?` is at the cursor, and moves the
    /// cursor past it; where there is none, the cursor stays.
    pub fn decode_rfc2047(&mut self) -> (r: Option<Vec<char>>)
        ensures
            final(self).data == old(self).data,
            match encoded_word(old(self).data@, old(self).offset as int) {
                Some((text, end)) => r is Some && r->0@ == text && final(self).offset == end,
                None => r is None && final(self).offset == old(self).offset,
            },
    {
        proof {
            reveal(encoded_word);
        }
        let n: usize = self.data.len();
        let pos: usize = self.offset;
        if pos >= n || self.data[pos] != 0x3f {
            return None;
        }
        let cs_start: usize = pos + 1;
        let cs_end: usize = find_either_in(&self.data, cs_start, n, 0x3f, 0x0a);
        if !(cs_start < cs_end && n - cs_end > 2 && self.data[cs_end] == 0x3f) {
            return None;
        }
        let enc: u8 = self.data[cs_end + 1];
        if !(enc == 0x71 || enc == 0x51 || enc == 0x62 || enc == 0x42) || self.data[cs_end + 2] != 0x3f {
            return None;
        }
        let name_end: usize = find_either_in(&self.data, cs_start, cs_end, 0x2a, 0x2a);
        let t_start: usize = cs_end + 3;
        let t_end: usize = find_either_in(&self.data, t_start, n, 0x3f, 0x0a);
        if !(n - t_end > 1 && self.data[t_end] == 0x3f && self.data[t_end + 1] == 0x3d) {
            return None;
        }
        let text = vstd::slice::slice_subrange(self.data.as_slice(), t_start, t_end);
        let decoded = if enc == 0x71 || enc == 0x51 {
            unescape_bytes(text, 0x3d, true)
        } else {
            base64_decode(text)
        };
        match decoded {
            Some(bytes) => {
                let name = vstd::slice::slice_subrange(self.data.as_slice(), cs_start, name_end);
                let charset = charset_decoder(name);
                let chars = decode_charset(charset, bytes.as_slice());
                self.offset = t_end + 2;
                Some(chars)
            },
            None => None,
        }
    }
}

} // verus!
