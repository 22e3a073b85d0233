//! The streaming decoder: bytes are read in windows of four (the widest
//! UTF-8 encoding of one scalar value); each window is decoded as far as it
//! is valid, and the bytes after that are read again, window-aligned, by the
//! next read.
use vstd::prelude::*;
use vstd::utf8::*;
use crate::error::ParseError;

verus! {

/// The length of the longest prefix of `w` that is a sequence of complete,
/// well-formed UTF-8 scalar encodings.
pub open spec fn valid_prefix_len(w: Seq<u8>) -> int
    decreases w.len(),
{
    if w.len() > 0 && valid_first_scalar(w) {
        length_of_first_scalar(w) + valid_prefix_len(pop_first_scalar(w))
    } else {
        0
    }
}

/// The scalar values encoded in that prefix.
pub open spec fn prefix_chars(w: Seq<u8>) -> Seq<char>
    decreases w.len(),
{
    if w.len() > 0 && valid_first_scalar(w) {
        seq![decode_first_scalar(w) as char] + prefix_chars(pop_first_scalar(w))
    } else {
        Seq::empty()
    }
}

/// The bytes that one read takes from `b`: at most four.
pub open spec fn window(b: Seq<u8>) -> Seq<u8> {
    if b.len() <= 4 {
        b
    } else {
        b.take(4)
    }
}

/// What the streaming decoder yields from `b`, whose first byte sits at
/// offset `off` of the input: the scalar values, and the offset of a window
/// without a valid prefix if the decoding stopped at one.
pub open spec fn decoded_stream(b: Seq<u8>, off: int) -> (Seq<char>, Option<int>)
    decreases b.len(),
{
    if b.len() == 0 {
        (Seq::empty(), None)
    } else {
        let w = window(b);
        let k = valid_prefix_len(w);
        if 0 < k <= b.len() {
            let (cs, e) = decoded_stream(b.skip(k), off + k);
            (prefix_chars(w) + cs, e)
        } else {
            (Seq::empty(), Some(off))
        }
    }
}

/// Relies on `char::from_u32`: the character with that scalar value, `None`
/// for a surrogate or a value above U+10FFFF.
#[verifier::external_body]
fn char_of_scalar(v: u32) -> (r: Option<char>)
    ensures
        r.is_some() == (v <= 0x10FFFF && !(0xD800 <= v <= 0xDFFF)),
        r.is_some() ==> r.unwrap() as u32 == v,
{
    char::from_u32(v)
}

/// The scalar value whose encoding starts at `w[i]`, with the encoding's
/// length, where a complete well-formed encoding starts there.
pub fn first_scalar(w: &[u8], i: usize) -> (r: Option<(char, usize)>)
    requires
        i < w@.len(),
    ensures
        ({
            let t = w@.skip(i as int);
            match r {
                Some((c, n)) => valid_first_scalar(t) && c == (decode_first_scalar(t) as char)
                    && n == length_of_first_scalar(t),
                None => !valid_first_scalar(t),
            }
        }),
{
    let ghost t = w@.skip(i as int);
    let len = w.len();
    let b0 = w[i];
    let cp: u32;
    let n: usize;
    if b0 <= 0x7f {
        cp = (b0 & 0x7F) as u32;
        n = 1;
        assert(cp <= 0x7f) by (bit_vector)
            requires
                cp == (b0 & 0x7F) as u32,
        ;
    } else if 0xc0 <= b0 && b0 <= 0xdf {
        if i + 1 >= len {
            return None;
        }
        let b1 = w[i + 1];
        if !(0x80 <= b1 && b1 <= 0xbf) {
            return None;
        }
        cp = (((b0 & 0x1F) as u32) << 6) | ((b1 & 0x3f) as u32);
        n = 2;
        assert(cp <= 0x7ff) by (bit_vector)
            requires
                cp == (((b0 & 0x1F) as u32) << 6) | ((b1 & 0x3f) as u32),
        ;
        if cp < 0x80 {
            return None;
        }
    } else if 0xe0 <= b0 && b0 <= 0xef {
        if len - i < 3 {
            return None;
        }
        let b1 = w[i + 1];
        let b2 = w[i + 2];
        if !(0x80 <= b1 && b1 <= 0xbf && 0x80 <= b2 && b2 <= 0xbf) {
            return None;
        }
        cp = (((b0 & 0x0F) as u32) << 12) | (((b1 & 0x3f) as u32) << 6) | ((b2 & 0x3f) as u32);
        n = 3;
        assert(cp <= 0xffff) by (bit_vector)
            requires
                cp == (((b0 & 0x0F) as u32) << 12) | (((b1 & 0x3f) as u32) << 6) | ((b2 & 0x3f) as u32),
        ;
        if cp < 0x800 || (0xD800 <= cp && cp <= 0xDFFF) {
            return None;
        }
    } else if 0xf0 <= b0 && b0 <= 0xf7 {
        if len - i < 4 {
            return None;
        }
        let b1 = w[i + 1];
        let b2 = w[i + 2];
        let b3 = w[i + 3];
        if !(0x80 <= b1 && b1 <= 0xbf && 0x80 <= b2 && b2 <= 0xbf && 0x80 <= b3 && b3 <= 0xbf) {
            return None;
        }
        cp = (((b0 & 0x07) as u32) << 18) | (((b1 & 0x3f) as u32) << 12) | (((b2 & 0x3f) as u32) << 6) | ((b3 & 0x3f) as u32);
        n = 4;
        if cp < 0x10000 || cp > 0x10ffff {
            return None;
        }
    } else {
        return None;
    }
    assert(t[0] == b0);
    assert(n >= 2 ==> t[1] == w@[i + 1]);
    assert(n >= 3 ==> t[2] == w@[i + 2]);
    assert(n >= 4 ==> t[3] == w@[i + 3]);
    assert(valid_first_scalar(t));
    assert(cp == decode_first_scalar(t));
    match char_of_scalar(cp) {
        Some(c) => {
            proof {
                char_u32_cast(c, cp);
            }
            Some((c, n))
        },
        None => None,
    }
}

/// Decodes the longest valid prefix of a window: its scalar values and its
/// length in bytes.
pub fn decode_window(w: &[u8]) -> (r: (Vec<char>, usize))
    ensures
        r.0@ == prefix_chars(w@),
        r.1 == valid_prefix_len(w@),
        r.1 <= w@.len(),
{
    let mut out: Vec<char> = Vec::new();
    let mut i: usize = 0;
    assert(w@.skip(0) =~= w@);
    assert(out@ + prefix_chars(w@) =~= prefix_chars(w@));
    while i < w.len()
        invariant
            i <= w@.len(),
            i + valid_prefix_len(w@.skip(i as int)) == valid_prefix_len(w@),
            out@ + prefix_chars(w@.skip(i as int)) == prefix_chars(w@),
        decreases w@.len() - i,
    {
        let ghost t = w@.skip(i as int);
        match first_scalar(w, i) {
            Some((c, n)) => {
                assert(pop_first_scalar(t) =~= w@.skip(i + n));
                out.push(c);
                assert(out@ + prefix_chars(w@.skip(i + n)) =~= out@.drop_last() + prefix_chars(t));
                i += n;
            },
            None => {
                assert(prefix_chars(t) == Seq::<char>::empty());
                assert(out@ + prefix_chars(t) =~= out@);
                return (out, i);
            },
        }
    }
    assert(w@.skip(i as int).len() == 0);
    assert(out@ + prefix_chars(w@.skip(i as int)) =~= out@);
    (out, i)
}

/// Cutting valid UTF-8 anywhere, even inside the encoding of one scalar
/// value, and decoding the valid prefix of the first part loses nothing: the
/// prefix ends on a character boundary, and its scalar values followed by
/// those of the rest are those of the whole. A cut at four bytes or more (or
/// at the end) always leaves a nonempty prefix.
pub proof fn lemma_cut_window(b: Seq<u8>, m: int)
    requires
        valid_utf8(b),
        0 <= m <= b.len(),
    ensures
        0 <= valid_prefix_len(b.take(m)) <= m,
        valid_utf8(b.skip(valid_prefix_len(b.take(m)))),
        decode_utf8(b) == prefix_chars(b.take(m)) + decode_utf8(b.skip(valid_prefix_len(b.take(m)))),
        b.len() > 0 && (m >= 4 || m == b.len()) ==> valid_prefix_len(b.take(m)) > 0,
    decreases b.len(),
{
    let w = b.take(m);
    if b.len() == 0 || m == 0 {
        assert(w.len() == 0);
        assert(b.skip(0) =~= b);
        assert(prefix_chars(w) + decode_utf8(b) =~= decode_utf8(b));
    } else {
        let n = length_of_first_scalar(b);
        assert(1 <= n <= 4);
        if m >= n {
            assert(w[0] == b[0]);
            assert(n >= 2 ==> w[1] == b[1]);
            assert(n >= 3 ==> w[2] == b[2]);
            assert(n >= 4 ==> w[3] == b[3]);
            assert(valid_first_scalar(w));
            assert(length_of_first_scalar(w) == n);
            assert(decode_first_scalar(w) == decode_first_scalar(b));
            let b2 = pop_first_scalar(b);
            assert(pop_first_scalar(w) =~= b2.take(m - n));
            lemma_cut_window(b2, m - n);
            let k2 = valid_prefix_len(b2.take(m - n));
            assert(b.skip(n + k2) =~= b2.skip(k2));
            assert(decode_utf8(b) =~= seq![decode_first_scalar(b) as char] + decode_utf8(b2));
            assert(prefix_chars(w) =~= seq![decode_first_scalar(b) as char] + prefix_chars(b2.take(m - n)));
            assert(decode_utf8(b) =~= prefix_chars(w) + decode_utf8(b.skip(valid_prefix_len(w))));
        } else {
            assert(w[0] == b[0]);
            assert(!valid_first_scalar(w));
            assert(b.skip(0) =~= b);
            assert(prefix_chars(w) + decode_utf8(b) =~= decode_utf8(b));
        }
    }
}

/// The streaming decoder yields, from valid UTF-8, exactly the scalar values
/// that decoding the whole buffer at once gives, and no error.
pub proof fn lemma_stream_decodes_whole(b: Seq<u8>, off: int)
    requires
        valid_utf8(b),
    ensures
        decoded_stream(b, off) == (decode_utf8(b), Option::<int>::None),
    decreases b.len(),
{
    if b.len() > 0 {
        let m = if b.len() <= 4 { b.len() as int } else { 4 };
        assert(window(b) =~= b.take(m));
        lemma_cut_window(b, m);
        let k = valid_prefix_len(window(b));
        lemma_stream_decodes_whole(b.skip(k), off + k);
    }
}

/// The error that a decoding stop at `e` is reported as.
pub open spec fn utf8_failure(e: Option<int>) -> Option<ParseError> {
    match e {
        Some(o) => Some(ParseError::Utf8Decode { offset: o as usize }),
        None => None,
    }
}

/// A reader of scalar values from an in-memory byte source, reading it in
/// windows and buffering what one window decodes to.
pub struct JsonReader {
    source: Vec<u8>,
    pos: usize,
    pending: Vec<char>,
    next: usize,
}

impl JsonReader {
    pub closed spec fn wf(&self) -> bool {
        self.pos <= self.source@.len() && self.next <= self.pending@.len()
    }

    /// What is left to read: the scalar values, and the offset of the
    /// window at which decoding stops, if it does.
    pub closed spec fn stream(&self) -> (Seq<char>, Option<int>) {
        let (cs, e) = decoded_stream(self.source@.skip(self.pos as int), self.pos as int);
        (self.pending@.skip(self.next as int) + cs, e)
    }

    /// A reader over `source`, from its start.
    pub fn new(source: Vec<u8>) -> (r: JsonReader)
        ensures
            r.wf(),
            r.stream() == decoded_stream(source@, 0),
    {
        let r = JsonReader { source, pos: 0, pending: Vec::new(), next: 0 };
        assert(r.source@.skip(0) =~= r.source@);
        assert(r.pending@.skip(0) + decoded_stream(r.source@, 0).0 =~= decoded_stream(r.source@, 0).0);
        r
    }

    /// A reader over a copy of `bytes`.
    pub fn from_bytes(bytes: &[u8]) -> (r: JsonReader)
        ensures
            r.wf(),
            r.stream() == decoded_stream(bytes@, 0),
    {
        let mut source: Vec<u8> = Vec::new();
        let mut i: usize = 0;
        while i < bytes.len()
            invariant
                i <= bytes@.len(),
                source@ == bytes@.take(i as int),
            decreases bytes@.len() - i,
        {
            source.push(bytes[i]);
            assert(bytes@.take(i + 1) =~= bytes@.take(i as int).push(bytes@[i as int]));
            i += 1;
        }
        assert(bytes@.take(i as int) =~= bytes@);
        Self::new(source)
    }

    /// Pulls the next scalar value: `Ok(None)` at the end of the source, an
    /// error where a window has no valid prefix.
    pub fn next_char(&mut self) -> (r: Result<Option<char>, ParseError>)
        requires
            old(self).wf(),
        ensures
            final(self).wf(),
            ({
                let (cs, e) = old(self).stream();
                match r {
                    Ok(Some(c)) => cs.len() > 0 && c == cs[0] && final(self).stream() == (cs.drop_first(), e),
                    Ok(None) => cs.len() == 0 && e.is_none() && final(self).stream() == old(self).stream(),
                    Err(err) => cs.len() == 0 && e.is_some() && utf8_failure(e) == Some(err)
                        && final(self).stream() == old(self).stream(),
                }
            }),
    {
        let ghost rest = self.source@.skip(self.pos as int);
        if self.next < self.pending.len() {
            let c = self.pending[self.next];
            self.next = self.next + 1;
            assert(self.pending@.skip(self.next as int) =~= old(self).pending@.skip(old(self).next as int).drop_first());
            return Ok(Some(c));
        }
        assert(old(self).pending@.skip(self.next as int) =~= Seq::<char>::empty());
        let len = self.source.len();
        if self.pos >= len {
            assert(rest.len() == 0);
            return Ok(None);
        }
        let end = if len - self.pos > 4 { self.pos + 4 } else { len };
        let mut w: Vec<u8> = Vec::new();
        let mut j = self.pos;
        while j < end
            invariant
                self.pos <= j <= end <= len,
                len == self.source@.len(),
                w@ == self.source@.subrange(self.pos as int, j as int),
            decreases end - j,
        {
            w.push(self.source[j]);
            assert(self.source@.subrange(self.pos as int, j + 1) =~= w@);
            j += 1;
        }
        assert(w@ =~= window(rest));
        let (chars, k) = decode_window(w.as_slice());
        if k == 0 {
            return Err(ParseError::Utf8Decode { offset: self.pos });
        }
        let ghost after = rest.skip(k as int);
        assert(after =~= self.source@.skip(self.pos + k));
        let c = chars[0];
        self.pending = chars;
        self.next = 1;
        self.pos = self.pos + k;
        assert(self.pending@.skip(1) =~= prefix_chars(w@).drop_first());
        Ok(Some(c))
    }
}

} // verus!
