//! Hexadecimal text for byte strings, produced and read by the `hex` crate.

use vstd::prelude::*;
use vstd::utf8::{encode_utf8, is_ascii_chars, is_ascii_chars_encode_utf8};

verus! {

/// The lower-case hex digit for `n` (below 16).
pub open spec fn hex_digit(n: int) -> char {
    if n < 10 {
        ((48 + n) as u32) as char
    } else {
        ((87 + n) as u32) as char
    }
}

/// Two lower-case hex digits per byte, the high half first.
pub open spec fn hex_encoding(bytes: Seq<u8>) -> Seq<char>
    decreases bytes.len(),
{
    if bytes.len() == 0 {
        Seq::empty()
    } else {
        hex_encoding(bytes.drop_last()) + seq![hex_digit(bytes.last() as int / 16), hex_digit(bytes.last() as int % 16)]
    }
}

/// The value of a hex digit byte of either case.
pub open spec fn hex_value(c: u8) -> Option<int> {
    if 48 <= c <= 57 {
        Some(c - 48)
    } else if 97 <= c <= 102 {
        Some(c - 87)
    } else if 65 <= c <= 70 {
        Some(c - 55)
    } else {
        None
    }
}

/// An even number of bytes, each a hex digit.
pub open spec fn hex_decodable(text: Seq<u8>) -> bool {
    &&& text.len() % 2 == 0
    &&& forall|i: int| 0 <= i < text.len() ==> (#[trigger] hex_value(text[i])) is Some
}

/// The bytes that hex text stands for: each pair of digits, the high half first.
pub open spec fn hex_decoding(text: Seq<u8>) -> Seq<u8> {
    Seq::new(text.len() / 2, |i: int| (hex_value(text[2 * i]).unwrap() * 16 + hex_value(text[2 * i + 1]).unwrap()) as u8)
}

/// The encoding has two digits per byte, in order.
pub proof fn lemma_hex_encoding_index(bytes: Seq<u8>)
    ensures
        hex_encoding(bytes).len() == 2 * bytes.len(),
        forall|i: int| 0 <= i < bytes.len() ==> hex_encoding(bytes)[2 * i] == hex_digit(bytes[i] as int / 16)
            && hex_encoding(bytes)[2 * i + 1] == hex_digit(bytes[i] as int % 16),
    decreases bytes.len(),
{
    if bytes.len() > 0 {
        let b2 = bytes.drop_last();
        lemma_hex_encoding_index(b2);
        let e = hex_encoding(bytes);
        assert forall|i: int| 0 <= i < bytes.len() implies e[2 * i] == hex_digit(bytes[i] as int / 16)
            && e[2 * i + 1] == hex_digit(bytes[i] as int % 16) by {
            if i < b2.len() {
                assert(b2[i] == bytes[i]);
            }
        }
    }
}

proof fn lemma_hex_digit(n: int)
    requires
        0 <= n < 16,
    ensures
        (hex_digit(n) as u32) < 128,
        hex_value(hex_digit(n) as u8) == Some(n),
{
}

/// The digit at position `k` of the encoding of `bytes`.
pub open spec fn hex_char_at(bytes: Seq<u8>, k: int) -> char {
    if k % 2 == 0 {
        hex_digit(bytes[k / 2] as int / 16)
    } else {
        hex_digit(bytes[k / 2] as int % 16)
    }
}

proof fn lemma_hex_encoding_at(bytes: Seq<u8>)
    ensures
        hex_encoding(bytes).len() == 2 * bytes.len(),
        forall|k: int| 0 <= k < 2 * bytes.len() ==> #[trigger] hex_encoding(bytes)[k] == hex_char_at(bytes, k),
{
    lemma_hex_encoding_index(bytes);
    assert forall|k: int| 0 <= k < 2 * bytes.len() implies #[trigger] hex_encoding(bytes)[k] == hex_char_at(bytes, k) by {
        let i = k / 2;
        assert(k == 2 * i || k == 2 * i + 1);
        assert(hex_encoding(bytes)[2 * i] == hex_digit(bytes[i] as int / 16));
        assert(hex_encoding(bytes)[2 * i + 1] == hex_digit(bytes[i] as int % 16));
    }
}

/// Hex text read back gives the bytes it was made from.
pub proof fn lemma_hex_roundtrip(bytes: Seq<u8>)
    ensures
        hex_decodable(encode_utf8(hex_encoding(bytes))),
        hex_decoding(encode_utf8(hex_encoding(bytes))) == bytes,
        encode_utf8(hex_encoding(bytes)).len() == 2 * bytes.len(),
{
    let e = hex_encoding(bytes);
    lemma_hex_encoding_at(bytes);
    assert forall|k: int| 0 <= k < e.len() implies '\0' <= #[trigger] e[k] <= '\u{7f}' && hex_value(e[k] as u8) == Some(
        if k % 2 == 0 { bytes[k / 2] as int / 16 } else { bytes[k / 2] as int % 16 },
    ) by {
        if k % 2 == 0 {
            lemma_hex_digit(bytes[k / 2] as int / 16);
        } else {
            lemma_hex_digit(bytes[k / 2] as int % 16);
        }
    }
    assert(is_ascii_chars(e));
    is_ascii_chars_encode_utf8(e);
    let t = encode_utf8(e);
    assert forall|k: int| 0 <= k < t.len() implies (#[trigger] hex_value(t[k])) is Some by {
        assert(t[k] == e[k] as u8);
    }
    assert forall|i: int| 0 <= i < bytes.len() implies #[trigger] hex_decoding(t)[i] == bytes[i] by {
        assert(t[2 * i] == e[2 * i] as u8);
        assert(t[2 * i + 1] == e[2 * i + 1] as u8);
        assert((2 * i) % 2 == 0 && (2 * i) / 2 == i);
        assert((2 * i + 1) % 2 == 1 && (2 * i + 1) / 2 == i);
    }
    assert(hex_decoding(t) =~= bytes);
}

/// Calls `hex::encode`. Trusted: the result is two lower-case digits per
/// byte, high half first, as the crate's source (`encode_to_iter` with
/// `HEX_CHARS_LOWER`) writes them.
#[verifier::external_body]
pub(crate) fn hex_encode(data: &[u8]) -> (text: String)
    ensures
        text@ == hex_encoding(data@),
{
    hex::encode(data)
}

/// Calls `hex::decode`. Trusted: it succeeds exactly on an even number of
/// digits of either case, each pair giving one byte, high half first (the
/// crate's `FromHex for Vec<u8>` and `val`); which error comes otherwise is
/// not stated.
#[verifier::external_body]
pub(crate) fn hex_decode(text: &[u8]) -> (bytes: Result<Vec<u8>, hex::FromHexError>)
    ensures
        bytes is Ok <==> hex_decodable(text@),
        bytes matches Ok(b) ==> b@ == hex_decoding(text@),
{
    hex::decode(text)
}

#[verifier::external_type_specification]
#[verifier::external_body]
pub struct ExFromHexError(hex::FromHexError);

} // verus!
