//! Percent-encoding and base64.
use vstd::prelude::*;
use crate::decoding::utf8_lossy;
use crate::text::string_of;
use vstd::utf8::{encode_utf8, valid_utf8};

verus! {

/// The base64 text of bytes.
pub uninterp spec fn base64_text(bytes: Seq<u8>) -> Seq<char>;

/// The bytes that a base64 text stands for; none where it is malformed.
pub uninterp spec fn base64_bytes(s: Seq<char>) -> Option<Seq<u8>>;

/// The value of a hexadecimal digit, in capitals or small.
pub open spec fn hex_value(b: u8) -> Option<int> {
    if 0x30 <= b <= 0x39 {
        Some(b - 0x30)
    } else if 0x41 <= b <= 0x46 {
        Some(b - 0x41 + 10)
    } else if 0x61 <= b <= 0x66 {
        Some(b - 0x61 + 10)
    } else {
        None
    }
}

/// The bytes from the `i`-th on with every percent sign and two hexadecimal digits made one byte.
pub open spec fn percent_undone(b: Seq<u8>, i: int) -> Seq<u8>
    decreases b.len() - i,
{
    if i < 0 || i >= b.len() {
        Seq::empty()
    } else if b[i] == 0x25 && i + 2 < b.len() && hex_value(b[i + 1]) is Some && hex_value(
        b[i + 2],
    ) is Some {
        seq![(16 * hex_value(b[i + 1]).unwrap() + hex_value(b[i + 2]).unwrap()) as u8]
            + percent_undone(b, i + 3)
    } else {
        seq![b[i]] + percent_undone(b, i + 1)
    }
}

/// The text that percent-encoding stands for, malformed UTF-8 exchanged for U+FFFD.
pub open spec fn percent_decoded(s: Seq<char>) -> Seq<char> {
    utf8_lossy(percent_undone(encode_utf8(s), 0))
}

/// `percent_encoding::percent_decode_str` and `percent_encoding::PercentDecode::decode_utf8_lossy`:
/// each percent sign with two hexadecimal digits becomes a byte, other bytes stay, and the bytes
/// are decoded as `String::from_utf8_lossy` does it.
#[verifier::external_body]
pub(crate) fn percent_decode(s: &str) -> (r: String)
    ensures
        r@ == percent_decoded(s@),
        valid_utf8(percent_undone(encode_utf8(s@), 0)) ==> encode_utf8(r@) == percent_undone(
            encode_utf8(s@),
            0,
        ),
{
    percent_encoding::percent_decode_str(s).decode_utf8_lossy().into_owned()
}

/// `base64::Engine::encode` of the standard alphabet with padding, under the name `base64_text`.
/// Decoding gives the bytes back.
#[verifier::external_body]
pub(crate) fn encode_base64(bytes: &[u8]) -> (r: String)
    ensures
        r@ == base64_text(bytes@),
        base64_bytes(r@) == Some(bytes@),
{
    base64::Engine::encode(&base64::engine::general_purpose::STANDARD, bytes)
}

/// `base64::Engine::decode` of the standard alphabet with padding: the bytes, or none where the
/// text is malformed, under the name `base64_bytes`.
#[verifier::external_body]
pub(crate) fn decode_base64(s: &str) -> (r: Option<Vec<u8>>)
    ensures
        match r {
            Some(b) => base64_bytes(s@) == Some(b@),
            None => base64_bytes(s@) is None,
        },
{
    base64::Engine::decode(&base64::engine::general_purpose::STANDARD, s).ok()
}

/// A byte that stands for itself in the path of an address: printable ASCII but for the
/// characters that have a meaning there.
pub open spec fn is_plain(b: u8) -> bool {
    0x20 < b < 0x7f && b != 0x22 && b != 0x23 && b != 0x25 && b != 0x3c && b != 0x3e && b != 0x3f
        && b != 0x60 && b != 0x7b && b != 0x7d && b != 0x7c && b != 0x5e && b != 0x5c
}

/// A hexadecimal digit, in capitals.
pub open spec fn capital_digit(n: int) -> char {
    if n < 10 {
        (0x30 + n) as char
    } else {
        (0x41 + n - 10) as char
    }
}

/// A byte as it is written in the path of an address.
pub open spec fn percent_byte(b: u8) -> Seq<char> {
    if is_plain(b) {
        seq![b as char]
    } else {
        seq!['%', capital_digit(b as int / 16), capital_digit(b as int % 16)]
    }
}

/// Bytes as they are written in the path of an address.
pub open spec fn percent_bytes(bytes: Seq<u8>) -> Seq<char>
    decreases bytes.len(),
{
    if bytes.len() == 0 {
        Seq::empty()
    } else {
        percent_bytes(bytes.drop_last()) + percent_byte(bytes.last())
    }
}

/// A path as it is written in an address: its UTF-8 bytes, those without a meaning of their own
/// as they are and the others as a percent sign and two digits.
pub open spec fn percent_encoded(s: Seq<char>) -> Seq<char> {
    percent_bytes(encode_utf8(s))
}

fn capital(n: u8) -> (r: char)
    requires
        n < 16,
    ensures
        r == capital_digit(n as int),
{
    if n < 10 {
        (0x30 + n) as char
    } else {
        (0x41 + (n - 10)) as char
    }
}

/// Writes a path as it stands in an address.
pub fn percent_encode(s: &str) -> (r: String)
    ensures
        r@ == percent_encoded(s@),
{
    let bytes = s.as_bytes();
    let mut out: Vec<char> = Vec::new();
    let mut i: usize = 0;
    assert(bytes@.take(0) =~= Seq::empty());
    while i < bytes.len()
        invariant
            i <= bytes@.len(),
            out@ == percent_bytes(bytes@.take(i as int)),
        decreases bytes@.len() - i,
    {
        let b = bytes[i];
        let ghost before = out@;
        if 0x20 < b && b < 0x7f && b != 0x22 && b != 0x23 && b != 0x25 && b != 0x3c && b != 0x3e
            && b != 0x3f && b != 0x60 && b != 0x7b && b != 0x7d && b != 0x7c && b != 0x5e && b
            != 0x5c {
            out.push(b as char);
        } else {
            out.push('%');
            out.push(capital(b / 16));
            out.push(capital(b % 16));
        }
        assert(out@ =~= before + percent_byte(b));
        assert(bytes@.take(i + 1).drop_last() =~= bytes@.take(i as int));
        i = i + 1;
    }
    assert(bytes@.take(i as int) =~= bytes@);
    string_of(&out)
}

} // verus!
