//! Byte-level building blocks of the on-disk formats: big-endian `u64`s,
//! UTF-8 text, and a reader that walks a byte buffer.

use vstd::prelude::*;
use vstd::utf8::{
    decode_utf8, encode_scalar, encode_utf8, encode_utf8_decode_utf8, encode_utf8_valid_utf8,
    has_width_1_encoding, has_width_2_encoding, has_width_3_encoding, is_scalar, valid_utf8,
    char_is_scalar,
};

verus! {

/// The eight big-endian bytes of `v`.
pub open spec fn u64_be(v: u64) -> Seq<u8> {
    seq![
        (v >> 56) as u8,
        (v >> 48) as u8,
        (v >> 40) as u8,
        (v >> 32) as u8,
        (v >> 24) as u8,
        (v >> 16) as u8,
        (v >> 8) as u8,
        v as u8,
    ]
}

/// The number whose big-endian bytes are the first eight of `b`.
pub open spec fn u64_from_be(b: Seq<u8>) -> u64 {
    (b[0] as u64) << 56 | (b[1] as u64) << 48 | (b[2] as u64) << 40 | (b[3] as u64) << 32
        | (b[4] as u64) << 24 | (b[5] as u64) << 16 | (b[6] as u64) << 8 | (b[7] as u64)
}

/// Reading back the bytes of a number gives the number.
pub proof fn lemma_u64_be_roundtrip(v: u64)
    ensures
        u64_from_be(u64_be(v)) == v,
        u64_be(v).len() == 8,
{
    let b = u64_be(v);
    let (b0, b1, b2, b3, b4, b5, b6, b7) = (b[0], b[1], b[2], b[3], b[4], b[5], b[6], b[7]);
    assert(b0 == (v >> 56) as u8 && b1 == (v >> 48) as u8 && b2 == (v >> 40) as u8 && b3 == (v >> 32) as u8
        && b4 == (v >> 24) as u8 && b5 == (v >> 16) as u8 && b6 == (v >> 8) as u8 && b7 == v as u8);
    assert(
        (b0 == (v >> 56) as u8 && b1 == (v >> 48) as u8 && b2 == (v >> 40) as u8 && b3 == (v >> 32) as u8
        && b4 == (v >> 24) as u8 && b5 == (v >> 16) as u8 && b6 == (v >> 8) as u8 && b7 == v as u8)
        ==> ((b0 as u64) << 56 | (b1 as u64) << 48 | (b2 as u64) << 40 | (b3 as u64) << 32
        | (b4 as u64) << 24 | (b5 as u64) << 16 | (b6 as u64) << 8 | (b7 as u64)) == v
    ) by (bit_vector);
}

/// Appends the big-endian bytes of `v`.
pub fn push_u64_be(out: &mut Vec<u8>, v: u64)
    ensures
        final(out)@ == old(out)@ + u64_be(v),
{
    out.push((v >> 56) as u8);
    out.push((v >> 48) as u8);
    out.push((v >> 40) as u8);
    out.push((v >> 32) as u8);
    out.push((v >> 24) as u8);
    out.push((v >> 16) as u8);
    out.push((v >> 8) as u8);
    out.push(v as u8);
    assert(final(out)@ =~= old(out)@ + u64_be(v));
}

/// Appends bytes.
pub fn push_bytes(out: &mut Vec<u8>, bytes: &[u8])
    ensures
        final(out)@ == old(out)@ + bytes@,
{
    let mut i: usize = 0;
    while i < bytes.len()
        invariant
            i <= bytes@.len(),
            out@ == old(out)@ + bytes@.take(i as int),
        decreases bytes@.len() - i,
    {
        out.push(bytes[i]);
        assert(bytes@.take(i as int + 1) =~= bytes@.take(i as int).push(bytes@[i as int]));
        i = i + 1;
    }
    assert(bytes@.take(i as int) =~= bytes@);
}

/// What `String::from_utf8_lossy` makes of bytes that are not valid UTF-8.
pub uninterp spec fn utf8_lossy(bytes: Seq<u8>) -> Seq<char>;

/// The text that lossy UTF-8 decoding reads from `bytes`.
pub open spec fn lossy_text(bytes: Seq<u8>) -> Seq<char> {
    if valid_utf8(bytes) {
        decode_utf8(bytes)
    } else {
        utf8_lossy(bytes)
    }
}

/// Calls `String::from_utf8_lossy` and takes ownership of the result.
/// Trusted: valid UTF-8 is decoded as such (std's documentation promises that
/// nothing is replaced then); of invalid input only that the result is a
/// function of the bytes (`utf8_lossy`).
#[verifier::external_body]
pub(crate) fn string_from_utf8_lossy(bytes: &[u8]) -> (s: String)
    ensures
        valid_utf8(bytes@) ==> s@ == decode_utf8(bytes@),
        !valid_utf8(bytes@) ==> s@ == utf8_lossy(bytes@),
{
    String::from_utf8_lossy(bytes).into_owned()
}

/// Encoding a concatenation concatenates the encodings.
pub proof fn lemma_encode_utf8_concat(a: Seq<char>, b: Seq<char>)
    ensures
        encode_utf8(a + b) == encode_utf8(a) + encode_utf8(b),
    decreases a.len(),
{
    if a.len() == 0 {
        assert(a + b =~= b);
    } else {
        assert((a + b).drop_first() =~= a.drop_first() + b);
        lemma_encode_utf8_concat(a.drop_first(), b);
        assert((a + b)[0] == a[0]);
    }
}

proof fn lemma_encode_scalar_avoids(s: u32, b: u8)
    requires
        is_scalar(s),
        b < 0x80,
        s != b as u32,
    ensures
        !encode_scalar(s).contains(b),
{
    let e = encode_scalar(s);
    if has_width_1_encoding(s) {
        assert((s <= 0x7F && s != b as u32) ==> (s & 0x7F) as u8 != b) by (bit_vector);
        assert(e[0] != b);
    } else {
        assert(forall|x: u32| #![auto] (0x80u8 | (x & 0x3F) as u8) >= 0x80) by (bit_vector);
        assert(forall|x: u32| #![auto] (0x80u8 | ((x >> 6) & 0x3F) as u8) >= 0x80) by (bit_vector);
        assert(forall|x: u32| #![auto] (0x80u8 | ((x >> 12) & 0x3F) as u8) >= 0x80) by (bit_vector);
        assert(forall|x: u32| #![auto] (0xC0u8 | ((x >> 6) & 0x1F) as u8) >= 0x80) by (bit_vector);
        assert(forall|x: u32| #![auto] (0xE0u8 | ((x >> 12) & 0x0F) as u8) >= 0x80) by (bit_vector);
        assert(forall|x: u32| #![auto] (0xF0u8 | ((x >> 18) & 0x7) as u8) >= 0x80) by (bit_vector);
        assert forall|i: int| 0 <= i < e.len() implies e[i] >= 0x80 by {
            if has_width_2_encoding(s) {
            } else if has_width_3_encoding(s) {
            } else {
            }
        }
    }
}

/// The encoding of text without the ASCII character `c` holds no byte `c`.
pub proof fn lemma_encode_utf8_avoids(chars: Seq<char>, c: char)
    requires
        (c as u32) < 0x80,
        !chars.contains(c),
    ensures
        !encode_utf8(chars).contains((c as u32) as u8),
    decreases chars.len(),
{
    if chars.len() > 0 {
        assert(!chars.drop_first().contains(c)) by {
            if chars.drop_first().contains(c) {
                let k = choose|k: int| 0 <= k < chars.drop_first().len() && chars.drop_first()[k] == c;
                assert(chars[k + 1] == c);
            }
        }
        lemma_encode_utf8_avoids(chars.drop_first(), c);
        char_is_scalar(chars[0]);
        assert(chars[0] != c);
        vstd::utf8::char_u32_cast(chars[0], chars[0] as u32);
        vstd::utf8::char_u32_cast(c, c as u32);
        assert((chars[0] as u32) != (c as u32));
        lemma_encode_scalar_avoids(chars[0] as u32, (c as u32) as u8);
        let e0 = encode_scalar(chars[0] as u32);
        let er = encode_utf8(chars.drop_first());
        let b = (c as u32) as u8;
        if (e0 + er).contains(b) {
            let k = choose|k: int| 0 <= k < (e0 + er).len() && (e0 + er)[k] == b;
            if k < e0.len() {
                assert(e0[k] == b);
            } else {
                assert(er[k - e0.len()] == b);
            }
        }
    }
}

/// Lossy decoding of encoded text gives the text back.
pub proof fn lemma_lossy_text_of_encoding(chars: Seq<char>)
    ensures
        lossy_text(encode_utf8(chars)) == chars,
{
    encode_utf8_valid_utf8(chars);
    encode_utf8_decode_utf8(chars);
}


/// The first `n` bytes of `s` and what follows them, where `s` has that many.
pub open spec fn take_fixed(s: Seq<u8>, n: nat) -> Option<(Seq<u8>, Seq<u8>)> {
    if s.len() >= n {
        Some((s.take(n as int), s.skip(n as int)))
    } else {
        None
    }
}

/// A big-endian number at the front of `s` and what follows it.
pub open spec fn take_u64(s: Seq<u8>) -> Option<(u64, Seq<u8>)> {
    if s.len() >= 8 {
        Some((u64_from_be(s), s.skip(8)))
    } else {
        None
    }
}

/// The bytes of `s` before the first byte `b`, and what follows that byte;
/// `None` where `s` holds no `b`.
pub open spec fn take_until(s: Seq<u8>, b: u8) -> Option<(Seq<u8>, Seq<u8>)>
    decreases s.len(),
{
    if s.len() == 0 {
        None
    } else if s[0] == b {
        Some((Seq::empty(), s.drop_first()))
    } else {
        match take_until(s.drop_first(), b) {
            Some((h, r)) => Some((seq![s[0]] + h, r)),
            None => None,
        }
    }
}

/// The bytes of `s` before the first newline, and what follows it; all of `s`
/// where it holds no newline.
pub open spec fn take_line(s: Seq<u8>) -> (Seq<u8>, Seq<u8>) {
    match take_until(s, 10u8) {
        Some(p) => p,
        None => (s, Seq::empty()),
    }
}

/// Bytes that hold no `b` give no field closed by `b`.
pub proof fn lemma_take_until_none(s: Seq<u8>, b: u8)
    requires
        !s.contains(b),
    ensures
        take_until(s, b) is None,
    decreases s.len(),
{
    if s.len() > 0 {
        assert(s[0] != b);
        assert(!s.drop_first().contains(b)) by {
            if s.drop_first().contains(b) {
                let k = choose|k: int| 0 <= k < s.drop_first().len() && s.drop_first()[k] == b;
                assert(s[k + 1] == b);
            }
        }
        lemma_take_until_none(s.drop_first(), b);
    }
}

/// A field closed by `b` is read back when its bytes hold no `b`.
pub proof fn lemma_take_until_roundtrip(x: Seq<u8>, b: u8, rest: Seq<u8>)
    requires
        !x.contains(b),
    ensures
        take_until(x + seq![b] + rest, b) == Some((x, rest)),
    decreases x.len(),
{
    let s = x + seq![b] + rest;
    if x.len() == 0 {
        assert(s[0] == b);
        assert(s.drop_first() =~= rest);
    } else {
        assert(x[0] != b);
        assert(!x.drop_first().contains(b)) by {
            if x.drop_first().contains(b) {
                let k = choose|k: int| 0 <= k < x.drop_first().len() && x.drop_first()[k] == b;
                assert(x[k + 1] == b);
            }
        }
        lemma_take_until_roundtrip(x.drop_first(), b, rest);
        assert(s.drop_first() =~= x.drop_first() + seq![b] + rest);
        assert(seq![x[0]] + x.drop_first() =~= x);
    }
}

/// `take_until` consumes the field and its closing byte.
pub proof fn lemma_take_until_len(s: Seq<u8>, b: u8)
    ensures
        take_until(s, b) matches Some((h, r)) ==> h.len() + 1 + r.len() == s.len() && s == h + seq![b] + r,
    decreases s.len(),
{
    if s.len() > 0 && s[0] != b {
        lemma_take_until_len(s.drop_first(), b);
        assert(s =~= seq![s[0]] + s.drop_first());
        if let Some((h, r)) = take_until(s.drop_first(), b) {
            assert(s =~= (seq![s[0]] + h) + seq![b] + r);
        }
    } else if s.len() > 0 {
        assert(s =~= Seq::<u8>::empty() + seq![b] + s.drop_first());
    }
}

/// A number is read back from its bytes.
pub proof fn lemma_take_u64_roundtrip(v: u64, x: Seq<u8>)
    ensures
        take_u64(u64_be(v) + x) == Some((v, x)),
{
    lemma_u64_be_roundtrip(v);
    let s = u64_be(v) + x;
    assert(s.skip(8) =~= x);
    assert(u64_from_be(s) == u64_from_be(u64_be(v))) by {
        assert(s[0] == u64_be(v)[0] && s[1] == u64_be(v)[1] && s[2] == u64_be(v)[2] && s[3] == u64_be(v)[3]);
        assert(s[4] == u64_be(v)[4] && s[5] == u64_be(v)[5] && s[6] == u64_be(v)[6] && s[7] == u64_be(v)[7]);
    }
}

/// A field of fixed length is read back.
pub proof fn lemma_take_fixed_roundtrip(a: Seq<u8>, n: nat, x: Seq<u8>)
    requires
        a.len() == n,
    ensures
        take_fixed(a + x, n) == Some((a, x)),
{
    assert((a + x).take(n as int) =~= a);
    assert((a + x).skip(n as int) =~= x);
}

/// A reader over a byte buffer; its view is the bytes not yet read.
pub struct ByteIter {
    data: Vec<u8>,
    pos: usize,
}

impl View for ByteIter {
    type V = Seq<u8>;

    closed spec fn view(&self) -> Seq<u8> {
        self.data@.skip(self.pos as int)
    }
}

impl ByteIter {
    closed spec fn inv(&self) -> bool {
        self.pos <= self.data@.len()
    }

    pub closed spec fn wf(&self) -> bool {
        self.inv()
    }

    pub fn new(data: Vec<u8>) -> (it: ByteIter)
        ensures
            it@ == data@,
            it.wf(),
    {
        let it = ByteIter { data, pos: 0 };
        assert(it.data@.skip(0) =~= it.data@);
        it
    }

    /// Whether every byte was read.
    pub fn is_empty(&self) -> (empty: bool)
        requires
            self.wf(),
        ensures
            empty == (self@.len() == 0),
    {
        self.pos >= self.data.len()
    }

    /// The next byte, if any.
    pub fn next(&mut self) -> (b: Option<u8>)
        requires
            old(self).wf(),
        ensures
            final(self).wf(),
            old(self)@.len() > 0 ==> b == Some(old(self)@[0]) && final(self)@ == old(self)@.drop_first(),
            old(self)@.len() == 0 ==> b is None && final(self)@ == old(self)@,
    {
        if self.pos < self.data.len() {
            let b = self.data[self.pos];
            self.pos = self.pos + 1;
            assert(self@ =~= old(self)@.drop_first());
            Some(b)
        } else {
            None
        }
    }

    /// The next 32 bytes; where fewer are left, reads them all and gives `None`.
    pub fn take_array32(&mut self) -> (arr: Option<[u8; 32]>)
        requires
            old(self).wf(),
        ensures
            final(self).wf(),
            match take_fixed(old(self)@, 32) {
                Some((h, r)) => arr matches Some(a) && a@ == h && final(self)@ == r,
                None => arr is None && final(self)@.len() == 0,
            },
    {
        let mut arr = [0u8; 32];
        let ghost s0 = self@;
        let mut i: usize = 0;
        while i < 32
            invariant
                self.wf(),
                s0 == old(self)@,
                i <= 32,
                i <= s0.len(),
                self@ == s0.skip(i as int),
                forall|k: int| 0 <= k < i ==> arr@[k] == s0[k],
            decreases 32 - i,
        {
            match self.next() {
                Some(b) => {
                    arr[i] = b;
                    assert(s0.skip(i as int).drop_first() =~= s0.skip(i as int + 1));
                },
                None => {
                    assert(s0.len() == i);
                    return None;
                },
            }
            i = i + 1;
        }
        assert(arr@ =~= s0.take(32));
        Some(arr)
    }

    /// The next big-endian number; where fewer than eight bytes are left, reads them all and gives `None`.
    pub fn take_u64(&mut self) -> (v: Option<u64>)
        requires
            old(self).wf(),
        ensures
            final(self).wf(),
            match take_u64(old(self)@) {
                Some((n, r)) => v == Some(n) && final(self)@ == r,
                None => v is None && final(self)@.len() == 0,
            },
    {
        let ghost s0 = self@;
        let mut acc: Vec<u8> = Vec::new();
        let mut i: usize = 0;
        while i < 8
            invariant
                self.wf(),
                s0 == old(self)@,
                i <= 8,
                i <= s0.len(),
                self@ == s0.skip(i as int),
                acc@ == s0.take(i as int),
            decreases 8 - i,
        {
            match self.next() {
                Some(b) => {
                    acc.push(b);
                    assert(s0.skip(i as int).drop_first() =~= s0.skip(i as int + 1));
                    assert(s0.take(i as int + 1) =~= s0.take(i as int).push(b));
                },
                None => {
                    assert(s0.len() == i);
                    return None;
                },
            }
            i = i + 1;
        }
        let v = (acc[0] as u64) << 56 | (acc[1] as u64) << 48 | (acc[2] as u64) << 40 | (acc[3] as u64) << 32
            | (acc[4] as u64) << 24 | (acc[5] as u64) << 16 | (acc[6] as u64) << 8 | (acc[7] as u64);
        assert(v == u64_from_be(s0));
        Some(v)
    }

    /// The bytes before the next byte `b`, which is read too; where no `b` is
    /// left, reads everything and gives `None`.
    pub fn take_until(&mut self, b: u8) -> (field: Option<Vec<u8>>)
        requires
            old(self).wf(),
        ensures
            final(self).wf(),
            match take_until(old(self)@, b) {
                Some((h, r)) => field matches Some(f) && f@ == h && final(self)@ == r,
                None => field is None && final(self)@.len() == 0,
            },
    {
        let ghost s0 = self@;
        let mut acc: Vec<u8> = Vec::new();
        loop
            invariant
                self.wf(),
                s0 == old(self)@,
                take_until(s0, b) == match take_until(self@, b) {
                    Some((h, r)) => Some((acc@ + h, r)),
                    None => None,
                },
            decreases self@.len(),
        {
            let ghost before = self@;
            match self.next() {
                Some(x) => {
                    if x == b {
                        assert(before[0] == b);
                        assert(take_until(before, b) == Some((Seq::<u8>::empty(), self@)));
                        assert(acc@ + Seq::<u8>::empty() =~= acc@);
                        return Some(acc);
                    }
                    assert(before[0] == x);
                    proof {
                        if let Some((h, r)) = take_until(self@, b) {
                            assert(acc@ + (seq![x] + h) =~= acc@.push(x) + h);
                        }
                    }
                    acc.push(x);
                },
                None => {
                    assert(take_until(before, b) is None);
                    return None;
                },
            }
        }
    }

    /// The bytes before the next newline, which is read too; all the rest where
    /// no newline is left.
    pub fn take_line(&mut self) -> (line: Vec<u8>)
        requires
            old(self).wf(),
        ensures
            final(self).wf(),
            (line@, final(self)@) == take_line(old(self)@),
    {
        let ghost s0 = self@;
        let mut acc: Vec<u8> = Vec::new();
        loop
            invariant
                self.wf(),
                s0 == old(self)@,
                take_line(s0) == (match take_until(self@, 10u8) {
                    Some((h, r)) => (acc@ + h, r),
                    None => (acc@ + self@, Seq::<u8>::empty()),
                }),
            decreases self@.len(),
        {
            match self.next() {
                Some(x) => {
                    if x == 10u8 {
                        assert(acc@ + Seq::<u8>::empty() =~= acc@);
                        return acc;
                    }
                    proof {
                        if let Some((h, r)) = take_until(self@, 10u8) {
                            assert(acc@ + (seq![x] + h) =~= acc@.push(x) + h);
                        }
                    }
                    acc.push(x);
                },
                None => {
                    assert(acc@ + Seq::<u8>::empty() =~= acc@);
                    return acc;
                },
            }
        }
    }
}

} // verus!
