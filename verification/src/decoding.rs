//! From bytes to text.
use vstd::prelude::*;
use crate::error::{AppError, AppResult, Failure};
use crate::text::{chars_of, push_str, replace, replaced, string_of};
use vstd::utf8::{encode_utf8, valid_utf8};

verus! {

/// What a decoder named by a label makes of bytes: the text, and whether anything in it was
/// malformed. None where no decoder has the label.
pub uninterp spec fn decoding(label: Seq<char>, bytes: Seq<u8>) -> Option<(Seq<char>, bool)>;

/// The label of the encoding that the statistics of the bytes suggest.
pub uninterp spec fn suggested_label(bytes: Seq<u8>) -> Seq<char>;

/// The text of bytes taken as UTF-8, malformed parts exchanged for U+FFFD.
pub uninterp spec fn utf8_lossy(bytes: Seq<u8>) -> Seq<char>;

/// The text with every letter made small, as Unicode has it.
pub uninterp spec fn lowercase(s: Seq<char>) -> Seq<char>;

/// What a character is made small to: mostly one character, sometimes more.
pub uninterp spec fn lower_expansion(c: char) -> Seq<char>;

/// The labels whose decoders the library asks for by name.
pub open spec fn is_known_label(label: Seq<char>) -> bool {
    label == "UTF-8"@ || label == "UTF-16LE"@ || label == "UTF-16BE"@ || label == "windows-1252"@
}

/// `encoding_rs::Encoding::for_label` and `encoding_rs::Encoding::decode`: the text that the
/// decoder with this label makes of the bytes, and whether malformed sequences were exchanged.
/// A byte order mark at the start of the bytes takes precedence over the label. The four labels
/// above have decoders; what is decoded is left to the name `decoding`.
#[verifier::external_body]
pub(crate) fn decode_as(label: &str, bytes: &[u8]) -> (r: Option<(String, bool)>)
    ensures
        match r {
            Some((s, e)) => decoding(label@, bytes@) == Some((s@, e)),
            None => decoding(label@, bytes@) is None,
        },
        is_known_label(label@) ==> r is Some,
{
    let encoding = encoding_rs::Encoding::for_label(label.as_bytes())?;
    let (text, _, malformed) = encoding.decode(bytes);
    Some((text.into_owned(), malformed))
}

/// `chardetng::EncodingDetector`: fed with the bytes as a whole stream, it guesses their
/// encoding, UTF-8 allowed and no top-level domain given. Which one is left to the name
/// `suggested_label`.
#[verifier::external_body]
pub(crate) fn suggest_label(bytes: &[u8]) -> (r: String)
    ensures
        r@ == suggested_label(bytes@),
{
    let mut detector = chardetng::EncodingDetector::new();
    detector.feed(bytes, true);
    detector.guess(None, true).name().to_string()
}

/// `String::from_utf8_lossy`: bytes that are valid UTF-8 give the text they encode; of others,
/// what comes of them is left to the name `utf8_lossy`.
#[verifier::external_body]
pub(crate) fn from_utf8_lossy(bytes: &[u8]) -> (r: String)
    ensures
        r@ == utf8_lossy(bytes@),
        valid_utf8(bytes@) ==> encode_utf8(r@) == bytes@,
{
    String::from_utf8_lossy(bytes).into_owned()
}

/// `str::to_lowercase`: the mapping of Unicode, left to the name `lowercase`. A text of ASCII
/// characters alone is mapped letter by letter.
#[verifier::external_body]
pub(crate) fn to_lowercase(s: &str) -> (r: String)
    ensures
        r@ == lowercase(s@),
        (forall|i: int| 0 <= i < s@.len() ==> (#[trigger] s@[i] as u32) < 128) ==> r@
            == crate::text::lower_ascii(s@),
{
    s.to_lowercase()
}

/// `char::to_lowercase`: the characters that a character is made small to, under the name
/// `lower_expansion`. There is always one at least; an ASCII character is made small as ASCII has
/// it.
#[verifier::external_body]
pub(crate) fn lower_letters(c: char) -> (r: Vec<char>)
    ensures
        r@ == lower_expansion(c),
        r@.len() > 0,
        (c as u32) < 128 ==> r@ == seq![crate::text::lower_char(c)],
{
    c.to_lowercase().collect()
}

/// How many bytes at the start of a file are looked at to guess its encoding.
pub const ENCODING_SAMPLE_SIZE: usize = 262144;

/// What a file of text holds: a byte order mark decides the encoding, else it is guessed from
/// the first bytes. Malformed text is an error, but not after a UTF-16 mark.
pub open spec fn decoded_file(bytes: Seq<u8>) -> Result<Seq<char>, Failure> {
    if bytes.len() >= 3 && bytes[0] == 0xEF && bytes[1] == 0xBB && bytes[2] == 0xBF {
        match decoding("UTF-8"@, bytes.skip(3)).unwrap() {
            (s, true) => Err(Failure::Encoding("UTF-8 解码存在非法字节"@)),
            (s, false) => Ok(s),
        }
    } else if bytes.len() >= 2 && bytes[0] == 0xFF && bytes[1] == 0xFE {
        Ok(decoding("UTF-16LE"@, bytes.skip(2)).unwrap().0)
    } else if bytes.len() >= 2 && bytes[0] == 0xFE && bytes[1] == 0xFF {
        Ok(decoding("UTF-16BE"@, bytes.skip(2)).unwrap().0)
    } else {
        let sample = if bytes.len() < ENCODING_SAMPLE_SIZE {
            bytes
        } else {
            bytes.take(ENCODING_SAMPLE_SIZE as int)
        };
        let label = suggested_label(sample);
        judged(label, decoding(label, bytes))
    }
}

/// The outcome of decoding with a guessed encoding.
pub open spec fn judged(label: Seq<char>, outcome: Option<(Seq<char>, bool)>) -> Result<
    Seq<char>,
    Failure,
> {
    match outcome {
        Some((s, false)) => Ok(s),
        _ => Err(
            Failure::Encoding(
                "以 "@ + label + " 解码失败（编码检测不确定，文件可能已损坏）"@,
            ),
        ),
    }
}

/// Accepts or refuses what came of decoding with a guessed encoding.
pub fn judge_decoding(label: &str, outcome: Option<(String, bool)>) -> (r: AppResult<String>)
    ensures
        match r {
            Ok(s) => judged(
                label@,
                match outcome {
                    Some(p) => Some((p.0@, p.1)),
                    None => None,
                },
            ) == Ok::<Seq<char>, Failure>(s@),
            Err(e) => judged(
                label@,
                match outcome {
                    Some(p) => Some((p.0@, p.1)),
                    None => None,
                },
            ) == Err::<Seq<char>, Failure>(e@),
        },
{
    if let Some((s, malformed)) = outcome {
        if !malformed {
            return Ok(s);
        }
    }
    let mut m = chars_of("以 ");
    push_str(&mut m, label);
    push_str(&mut m, " 解码失败（编码检测不确定，文件可能已损坏）");
    Err(AppError::Encoding(string_of(&m)))
}

/// Decodes a file of text.
pub fn decode_to_utf8(bytes: &[u8]) -> (r: AppResult<String>)
    ensures
        match r {
            Ok(s) => decoded_file(bytes@) == Ok::<Seq<char>, Failure>(s@),
            Err(e) => decoded_file(bytes@) == Err::<Seq<char>, Failure>(e@),
        },
{
    let n = bytes.len();
    if n >= 3 && bytes[0] == 0xEF && bytes[1] == 0xBB && bytes[2] == 0xBF {
        let rest = vstd::slice::slice_subrange(bytes, 3, n);
        assert(rest@ =~= bytes@.skip(3));
        if let Some((s, malformed)) = decode_as("UTF-8", rest) {
            if malformed {
                return Err(AppError::Encoding("UTF-8 解码存在非法字节".to_owned()));
            }
            return Ok(s);
        }
    }
    if n >= 2 && bytes[0] == 0xFF && bytes[1] == 0xFE {
        let rest = vstd::slice::slice_subrange(bytes, 2, n);
        assert(rest@ =~= bytes@.skip(2));
        if let Some((s, _)) = decode_as("UTF-16LE", rest) {
            return Ok(s);
        }
    }
    if n >= 2 && bytes[0] == 0xFE && bytes[1] == 0xFF {
        let rest = vstd::slice::slice_subrange(bytes, 2, n);
        assert(rest@ =~= bytes@.skip(2));
        if let Some((s, _)) = decode_as("UTF-16BE", rest) {
            return Ok(s);
        }
    }
    let m: usize = if n < ENCODING_SAMPLE_SIZE {
        n
    } else {
        ENCODING_SAMPLE_SIZE
    };
    let sample = vstd::slice::slice_subrange(bytes, 0, m);
    assert(m == n ==> sample@ =~= bytes@);
    let label = suggest_label(sample);
    let outcome = decode_as(label.as_str(), bytes);
    judge_decoding(label.as_str(), outcome)
}

/// The text of a Mobipocket string: UTF-8 or Windows-1252, with NUL made a space.
pub open spec fn mobi_text(bytes: Seq<u8>, encoding: int) -> Seq<char> {
    let raw = if encoding == 65001 {
        utf8_lossy(bytes)
    } else {
        decoding("windows-1252"@, bytes).unwrap().0
    };
    without_nul(raw)
}

/// The text with every NUL made a space.
pub open spec fn without_nul(s: Seq<char>) -> Seq<char> {
    replaced(s, seq!['\0'], seq![' '])
}

/// Makes every NUL a space.
pub fn blank_nul(s: &str) -> (r: Vec<char>)
    ensures
        r@ == without_nul(s@),
{
    let cs = chars_of(s);
    let mut nul: Vec<char> = Vec::new();
    nul.push('\0');
    let mut space: Vec<char> = Vec::new();
    space.push(' ');
    assert(nul@ =~= seq!['\0']);
    assert(space@ =~= seq![' ']);
    replace(&cs, &nul, &space)
}

/// Decodes a Mobipocket string.
pub fn decode_bytes(bytes: &[u8], encoding: u64) -> (r: Vec<char>)
    ensures
        r@ == mobi_text(bytes@, encoding as int),
{
    if encoding == 65001 {
        let s = from_utf8_lossy(bytes);
        blank_nul(s.as_str())
    } else {
        match decode_as("windows-1252", bytes) {
            Some((s, _)) => blank_nul(s.as_str()),
            None => Vec::new(),
        }
    }
}


/// A mark at the start of a file decides its encoding and is no part of its text. Text in UTF-8 that is
/// malformed is refused; behind a mark of UTF-16 it is shown as well as it can be.
pub proof fn a_mark_decides_the_encoding(rest: Seq<u8>, s: Seq<char>, malformed: bool)
    ensures
        decoding("UTF-8"@, rest) == Some((s, malformed)) ==> ({
            let out = decoded_file(seq![0xEFu8, 0xBB, 0xBF] + rest);
            &&& !malformed ==> out == Ok::<Seq<char>, Failure>(s)
            &&& malformed ==> out is Err
        }),
        decoding("UTF-16LE"@, rest) == Some((s, malformed)) ==> decoded_file(seq![0xFFu8, 0xFE] + rest) == Ok::<
            Seq<char>,
            Failure,
        >(s),
        decoding("UTF-16BE"@, rest) == Some((s, malformed)) ==> decoded_file(seq![0xFEu8, 0xFF] + rest) == Ok::<
            Seq<char>,
            Failure,
        >(s),
{
    let a = seq![0xEFu8, 0xBB, 0xBF] + rest;
    assert(a.skip(3) =~= rest);
    assert(a[0] == 0xEF && a[1] == 0xBB && a[2] == 0xBF);
    let b = seq![0xFFu8, 0xFE] + rest;
    assert(b.skip(2) =~= rest);
    assert(b[0] == 0xFF && b[1] == 0xFE);
    let c = seq![0xFEu8, 0xFF] + rest;
    assert(c.skip(2) =~= rest);
    assert(c[0] == 0xFE && c[1] == 0xFF);
}

/// Without a mark the encoding that the bytes suggest is taken for all of them, and text that is malformed in
/// it is refused.
pub proof fn without_a_mark_the_encoding_is_guessed(bytes: Seq<u8>, s: Seq<char>, malformed: bool)
    requires
        0 < bytes.len() < 262144,
        bytes[0] < 0x80,
        decoding(suggested_label(bytes), bytes) == Some((s, malformed)),
    ensures
        !malformed ==> decoded_file(bytes) == Ok::<Seq<char>, Failure>(s),
        malformed ==> decoded_file(bytes) is Err,
{
}

} // verus!
