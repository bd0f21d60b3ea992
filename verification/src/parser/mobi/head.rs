//! The headers of a Mobipocket book, and the text behind them.
use vstd::prelude::*;
use crate::decoding::{decode_bytes, mobi_text};
use crate::error::{with_number, AppError, AppResult, Failure};
use crate::model::BookFormat;
use crate::numbers::decimal;
use crate::parser::mobi::compress::{
    cdic_from, decompress_palmdoc, huff_from, huff_table1, huff_table2, palm, push_bytes, HuffCdic,
};
use crate::parser::mobi::pdb::{
    be16, be32, bit_count, clip, clipped, count_bits_set, get_var_len_from_end, has_tag,
    record_bytes, tagged, u16_at, u32_at, var_value_at_end, Pdb,
};
use crate::text::{string_of, trim, trimmed};
use crate::views::{deep_empty, deep_push};

verus! {

pub const OFF_TEXT_ENCODING: u64 = 28;

pub const OFF_FILE_VERSION: u64 = 36;

pub const OFF_FULL_NAME_OFFSET: u64 = 84;

pub const OFF_FULL_NAME_LENGTH: u64 = 88;

pub const OFF_FIRST_IMAGE: u64 = 108;

pub const OFF_HUFFCDIC: u64 = 112;

pub const OFF_NUM_HUFFCDIC: u64 = 116;

pub const OFF_EXTH_FLAG: u64 = 128;

pub const OFF_TRAILING_FLAGS: u64 = 240;

pub const OFF_INDX: u64 = 244;

pub const OFF_KF8_FRAG: u64 = 248;

pub const OFF_KF8_SKEL: u64 = 252;

pub const EXTH_AUTHOR: u32 = 100;

pub const EXTH_PUBLISHER: u32 = 101;

pub const EXTH_RIGHTS: u32 = 109;

pub const EXTH_BOUNDARY: u32 = 121;

pub const EXTH_COVER_OFFSET: u32 = 201;

pub const EXTH_THUMB_OFFSET: u32 = 202;

pub const EXTH_TITLE: u32 = 503;

pub const EXTH_LANGUAGE: u32 = 524;

// ---------------------------------------------------------------------------
// EXTH
// ---------------------------------------------------------------------------

/// The value of an EXTH record.
pub enum ExthValue {
    Uint(u32),
    Str(String),
}

/// `ExthValue` over character sequences.
#[verifier::ext_equal]
pub enum Exth {
    Uint(u32),
    Str(Seq<char>),
}

impl DeepView for ExthValue {
    type V = Exth;

    open spec fn deep_view(&self) -> Exth {
        match *self {
            ExthValue::Uint(n) => Exth::Uint(n),
            ExthValue::Str(s) => Exth::Str(s@),
        }
    }
}

impl ExthValue {
    /// The value as a number.
    pub fn as_uint(&self) -> (r: Option<u32>)
        ensures
            r == match self.deep_view() {
                Exth::Uint(n) => Some(n),
                Exth::Str(_) => None,
            },
    {
        match self {
            ExthValue::Uint(n) => Some(*n),
            ExthValue::Str(_) => None,
        }
    }

    /// The value as a text.
    pub fn as_string(&self) -> (r: Option<&String>)
        ensures
            match r {
                Some(s) => self.deep_view() == Exth::Str(s@),
                None => self.deep_view() is Uint,
            },
    {
        match self {
            ExthValue::Uint(_) => None,
            ExthValue::Str(s) => Some(s),
        }
    }
}

/// What the bytes of an EXTH record of some type say.
pub open spec fn exth_value(rtype: u32, data: Seq<u8>, encoding: int) -> Exth {
    if rtype == EXTH_BOUNDARY || rtype == EXTH_COVER_OFFSET || rtype == EXTH_THUMB_OFFSET {
        Exth::Uint(be32(data, 0) as u32)
    } else if rtype == EXTH_AUTHOR || rtype == EXTH_PUBLISHER || rtype == EXTH_TITLE || rtype
        == EXTH_LANGUAGE || rtype == EXTH_RIGHTS {
        Exth::Str(trimmed(mobi_text(data, encoding)))
    } else {
        Exth::Str(mobi_text(data, encoding))
    }
}

/// How long an EXTH record says it is; its own header counts.
pub open spec fn exth_length(rec: Seq<u8>, offset: int) -> int {
    if be32(rec, offset + 4) < 8 {
        8
    } else {
        be32(rec, offset + 4)
    }
}

/// The EXTH records from `offset` on, `left` of them, as far as the data goes.
pub open spec fn exth_from(
    rec: Seq<u8>,
    offset: int,
    left: int,
    encoding: int,
    acc: Seq<(u32, Exth)>,
) -> Seq<(u32, Exth)>
    decreases left,
{
    if left <= 0 || offset + 8 > rec.len() {
        acc
    } else {
        let rtype = be32(rec, offset) as u32;
        let rlen = exth_length(rec, offset);
        exth_from(
            rec,
            offset + rlen,
            left - 1,
            encoding,
            acc.push((rtype, exth_value(rtype, clipped(rec, offset + 8, offset + rlen), encoding))),
        )
    }
}

/// The EXTH records that start at `start`; none where there is no EXTH section.
pub open spec fn exth_records(rec: Seq<u8>, start: int, encoding: int) -> Seq<(u32, Exth)> {
    if start + 12 > rec.len() || !tagged(rec, start, 0x45, 0x58, 0x54, 0x48) {
        Seq::empty()
    } else {
        exth_from(rec, start + 12, be32(rec, start + 8), encoding, Seq::empty())
    }
}

/// The first record of a type, from the `i`-th on.
pub open spec fn exth_get(exth: Seq<(u32, Exth)>, key: u32, i: int) -> Option<Exth>
    decreases exth.len() - i,
{
    if i < 0 || i >= exth.len() {
        None
    } else if exth[i].0 == key {
        Some(exth[i].1)
    } else {
        exth_get(exth, key, i + 1)
    }
}

/// The text of the first record of a type.
pub open spec fn exth_text(exth: Seq<(u32, Exth)>, key: u32) -> Option<Seq<char>> {
    match exth_get(exth, key, 0) {
        Some(Exth::Str(s)) => Some(s),
        _ => None,
    }
}

/// The number of the first record of a type.
pub open spec fn exth_number(exth: Seq<(u32, Exth)>, key: u32) -> Option<u32> {
    match exth_get(exth, key, 0) {
        Some(Exth::Uint(n)) => Some(n),
        _ => None,
    }
}

/// Where the cover is among the resources: the cover's own record, or else the thumbnail's.
pub open spec fn cover_number(exth: Seq<(u32, Exth)>) -> Option<u32> {
    match exth_number(exth, EXTH_COVER_OFFSET) {
        Some(n) if n < u32::MAX => Some(n),
        _ => match exth_number(exth, EXTH_THUMB_OFFSET) {
            Some(n) if n < u32::MAX => Some(n),
            _ => None,
        },
    }
}

/// Reads the EXTH records that start at `start`.
pub fn parse_exth(rec: &[u8], start: u64, encoding: u64) -> (r: Vec<(u32, ExthValue)>)
    ensures
        r.deep_view() == exth_records(rec@, start as int, encoding as int),
{
    let mut out: Vec<(u32, ExthValue)> = Vec::new();
    proof {
        deep_empty(out);
    }
    let n = rec.len() as u64;
    if n < 12 || start > n - 12 || !has_tag(rec, start, 0x45, 0x58, 0x54, 0x48) {
        return out;
    }
    let count = u32_at(rec, start + 8);
    let mut offset: u64 = start + 12;
    let mut k: u32 = 0;
    while k < count && offset <= n && n - offset >= 8
        invariant
            n == rec@.len(),
            k <= count,
            exth_records(rec@, start as int, encoding as int) == exth_from(
                rec@,
                offset as int,
                count - k,
                encoding as int,
                out.deep_view(),
            ),
        decreases count - k,
    {
        let rtype = u32_at(rec, offset);
        let said = u32_at(rec, offset + 4) as u64;
        let rlen: u64 = if said < 8 {
            8
        } else {
            said
        };
        let wide: u128 = offset as u128 + rlen as u128;
        let next: u64 = if wide <= n as u128 {
            wide as u64
        } else {
            n
        };
        let data = clip(rec, offset + 8, next);
        assert(data@ =~= clipped(rec@, offset + 8, offset + rlen));
        let value = if rtype == EXTH_BOUNDARY || rtype == EXTH_COVER_OFFSET || rtype
            == EXTH_THUMB_OFFSET {
            ExthValue::Uint(u32_at(data, 0))
        } else if rtype == EXTH_AUTHOR || rtype == EXTH_PUBLISHER || rtype == EXTH_TITLE || rtype
            == EXTH_LANGUAGE || rtype == EXTH_RIGHTS {
            let t = decode_bytes(data, encoding);
            ExthValue::Str(string_of(trim(&t)))
        } else {
            let t = decode_bytes(data, encoding);
            ExthValue::Str(string_of(&t))
        };
        let ghost before = out;
        let item = (rtype, value);
        out.push(item);
        proof {
            deep_push(before, item, out);
            assert(item.deep_view() == (rtype, value.deep_view()));
            if wide > n {
                assert(exth_from(
                    rec@,
                    offset + rlen,
                    count - k - 1,
                    encoding as int,
                    out.deep_view(),
                ) == out.deep_view());
                assert(exth_from(
                    rec@,
                    n as int,
                    count - k - 1,
                    encoding as int,
                    out.deep_view(),
                ) == out.deep_view());
            }
        }
        offset = next;
        k = k + 1;
    }
    out
}

/// The first record of a type.
pub fn get_exth(exth: &Vec<(u32, ExthValue)>, key: u32) -> (r: Option<&ExthValue>)
    ensures
        match r {
            Some(v) => exth_get(exth.deep_view(), key, 0) == Some(v.deep_view()),
            None => exth_get(exth.deep_view(), key, 0) is None,
        },
{
    let mut i: usize = 0;
    while i < exth.len()
        invariant
            i <= exth@.len(),
            exth_get(exth.deep_view(), key, 0) == exth_get(exth.deep_view(), key, i as int),
        decreases exth@.len() - i,
    {
        assert(exth.deep_view()[i as int] == exth@[i as int].deep_view());
        if exth[i].0 == key {
            return Some(&exth[i].1);
        }
        i = i + 1;
    }
    None
}

/// The text of the first record of a type.
pub fn get_exth_text(exth: &Vec<(u32, ExthValue)>, key: u32) -> (r: Option<String>)
    ensures
        r.deep_view() == exth_text(exth.deep_view(), key),
{
    match get_exth(exth, key) {
        Some(v) => match v.as_string() {
            Some(s) => Some(s.clone()),
            None => None,
        },
        None => None,
    }
}

/// The number of the first record of a type.
pub fn get_exth_number(exth: &Vec<(u32, ExthValue)>, key: u32) -> (r: Option<u32>)
    ensures
        r == exth_number(exth.deep_view(), key),
{
    match get_exth(exth, key) {
        Some(v) => v.as_uint(),
        None => None,
    }
}

/// Where the cover is among the resources.
pub fn cover_offset(exth: &Vec<(u32, ExthValue)>) -> (r: Option<u32>)
    ensures
        r == cover_number(exth.deep_view()),
{
    if let Some(n) = get_exth_number(exth, EXTH_COVER_OFFSET) {
        if n < u32::MAX {
            return Some(n);
        }
    }
    if let Some(n) = get_exth_number(exth, EXTH_THUMB_OFFSET) {
        if n < u32::MAX {
            return Some(n);
        }
    }
    None
}

// ---------------------------------------------------------------------------
// The header
// ---------------------------------------------------------------------------

/// What the header of a text says: how it is compressed, how many records it takes, how it is
/// encoded, where the tables for its compression are, what trails its records, where the index
/// of its contents is, the EXTH records, and the title.
pub struct Head {
    pub compression: u32,
    pub num_text_records: u64,
    pub encoding: u64,
    pub huffcdic: u64,
    pub num_huffcdic: u64,
    pub trailing_flags: u32,
    pub indx: u64,
    pub exth: Vec<(u32, ExthValue)>,
    pub embedded_title: Option<String>,
}

/// `Head` over sequences.
#[verifier::ext_equal]
pub struct HeadView {
    pub compression: u32,
    pub num_text_records: u64,
    pub encoding: u64,
    pub huffcdic: u64,
    pub num_huffcdic: u64,
    pub trailing_flags: u32,
    pub indx: u64,
    pub exth: Seq<(u32, Exth)>,
    pub embedded_title: Option<Seq<char>>,
}

impl DeepView for Head {
    type V = HeadView;

    open spec fn deep_view(&self) -> HeadView {
        HeadView {
            compression: self.compression,
            num_text_records: self.num_text_records,
            encoding: self.encoding,
            huffcdic: self.huffcdic,
            num_huffcdic: self.num_huffcdic,
            trailing_flags: self.trailing_flags,
            indx: self.indx,
            exth: self.exth.deep_view(),
            embedded_title: self.embedded_title.deep_view(),
        }
    }
}

/// The record has a MOBI header.
pub open spec fn has_mobi(rec: Seq<u8>) -> bool {
    tagged(rec, 16, 0x4d, 0x4f, 0x42, 0x49)
}

/// The EXTH records of a record with a MOBI header, where it says that it has any.
pub open spec fn exth_of(rec: Seq<u8>) -> Seq<(u32, Exth)> {
    if (be32(rec, OFF_EXTH_FLAG as int) / 64) % 2 == 1 {
        exth_records(rec, be32(rec, 20) + 16, be32(rec, OFF_TEXT_ENCODING as int))
    } else {
        Seq::empty()
    }
}

/// The title that a MOBI header names.
pub open spec fn title_in(rec: Seq<u8>) -> Option<Seq<char>> {
    let at = be32(rec, OFF_FULL_NAME_OFFSET as int);
    let len = be32(rec, OFF_FULL_NAME_LENGTH as int);
    if len > 0 && at + len <= rec.len() {
        Some(mobi_text(rec.subrange(at, at + len), be32(rec, OFF_TEXT_ENCODING as int)))
    } else {
        None
    }
}

/// What a record says as a header: the older part alone where it has no MOBI header.
pub open spec fn head_of(rec: Seq<u8>) -> HeadView {
    if has_mobi(rec) {
        HeadView {
            compression: be16(rec, 0) as u32,
            num_text_records: be16(rec, 8) as u64,
            encoding: be32(rec, OFF_TEXT_ENCODING as int) as u64,
            huffcdic: be32(rec, OFF_HUFFCDIC as int) as u64,
            num_huffcdic: be32(rec, OFF_NUM_HUFFCDIC as int) as u64,
            trailing_flags: be32(rec, OFF_TRAILING_FLAGS as int) as u32,
            indx: be32(rec, OFF_INDX as int) as u64,
            exth: exth_of(rec),
            embedded_title: title_in(rec),
        }
    } else {
        HeadView {
            compression: be16(rec, 0) as u32,
            num_text_records: be16(rec, 8) as u64,
            encoding: 1252,
            huffcdic: 0,
            num_huffcdic: 0,
            trailing_flags: 0,
            indx: u32::MAX as u64,
            exth: Seq::empty(),
            embedded_title: None,
        }
    }
}

/// The EXTH records of a record with a MOBI header.
pub fn read_exth(rec: &[u8]) -> (r: Vec<(u32, ExthValue)>)
    ensures
        r.deep_view() == exth_of(rec@),
{
    if (u32_at(rec, OFF_EXTH_FLAG) / 64) % 2 == 1 {
        parse_exth(rec, u32_at(rec, 20) as u64 + 16, u32_at(rec, OFF_TEXT_ENCODING) as u64)
    } else {
        let out: Vec<(u32, ExthValue)> = Vec::new();
        proof {
            deep_empty(out);
        }
        out
    }
}

/// Reads a record as a header.
pub fn read_head(rec: &[u8]) -> (r: Head)
    ensures
        r.deep_view() == head_of(rec@),
        r.num_text_records <= 0xffff,
        r.encoding <= u32::MAX,
        r.huffcdic <= u32::MAX,
        r.num_huffcdic <= u32::MAX,
        r.indx <= u32::MAX,
{
    if has_tag(rec, 16, 0x4d, 0x4f, 0x42, 0x49) {
        let encoding = u32_at(rec, OFF_TEXT_ENCODING) as u64;
        let at = u32_at(rec, OFF_FULL_NAME_OFFSET) as u64;
        let len = u32_at(rec, OFF_FULL_NAME_LENGTH) as u64;
        let embedded_title: Option<String> = if len > 0 && at + len <= rec.len() as u64 {
            let t = decode_bytes(
                vstd::slice::slice_subrange(rec, at as usize, (at + len) as usize),
                encoding,
            );
            Some(string_of(&t))
        } else {
            None
        };
        let r = Head {
            compression: u16_at(rec, 0),
            num_text_records: u16_at(rec, 8) as u64,
            encoding,
            huffcdic: u32_at(rec, OFF_HUFFCDIC) as u64,
            num_huffcdic: u32_at(rec, OFF_NUM_HUFFCDIC) as u64,
            trailing_flags: u32_at(rec, OFF_TRAILING_FLAGS),
            indx: u32_at(rec, OFF_INDX) as u64,
            exth: read_exth(rec),
            embedded_title,
        };
        assert(r.deep_view() =~= head_of(rec@));
        r
    } else {
        let exth: Vec<(u32, ExthValue)> = Vec::new();
        proof {
            deep_empty(exth);
        }
        let r = Head {
            compression: u16_at(rec, 0),
            num_text_records: u16_at(rec, 8) as u64,
            encoding: 1252,
            huffcdic: 0,
            num_huffcdic: 0,
            trailing_flags: 0,
            indx: u32::MAX as u64,
            exth,
            embedded_title: None,
        };
        assert(r.deep_view() =~= head_of(rec@));
        r
    }
}

/// The record at which a second, newer text starts, where the header names one.
pub open spec fn boundary_of(head: HeadView) -> int {
    match exth_number(head.exth, EXTH_BOUNDARY) {
        Some(b) => if b < u32::MAX {
            b as int
        } else {
            0
        },
        None => 0,
    }
}

/// The header that counts, the record it stands in and where the images start. A file may hold
/// a second, newer text: unless the format is AZW3, that one counts, with the images of the
/// first. A text that is encrypted is refused.
pub open spec fn chosen_head(data: Seq<u8>, offsets: Seq<u32>, format: BookFormat) -> Result<
    (HeadView, int, int),
    Failure,
> {
    match record_bytes(data, offsets, 0) {
        Err(e) => Err(e),
        Ok(rec0) => if be16(rec0, 12) != 0 {
            Err(Failure::DrmDetected)
        } else if !has_mobi(rec0) {
            Ok((head_of(rec0), 0, 0))
        } else {
            let head = head_of(rec0);
            let images = be32(rec0, OFF_FIRST_IMAGE as int);
            let boundary = boundary_of(head);
            if format == BookFormat::Azw3 || boundary == 0 {
                Ok((head, 0, images))
            } else {
                match record_bytes(data, offsets, boundary) {
                    Err(e) => Err(e),
                    Ok(rec) => if !has_mobi(rec) {
                        Ok((head, 0, images))
                    } else if be16(rec, 12) != 0 {
                        Err(Failure::DrmDetected)
                    } else {
                        Ok((head_of(rec), boundary, images))
                    },
                }
            }
        },
    }
}

/// Finds the header that counts.
pub fn choose_head(pdb: &Pdb, format: BookFormat) -> (r: AppResult<(Head, u64, u64)>)
    ensures
        match r {
            Ok((h, start, images)) => chosen_head(pdb.data@, pdb.offsets@, format) == Ok::<
                (HeadView, int, int),
                Failure,
            >((h.deep_view(), start as int, images as int)) && start <= u32::MAX && images
                <= u32::MAX && h.num_text_records <= 0xffff && h.encoding <= u32::MAX && h.huffcdic
                <= u32::MAX && h.num_huffcdic <= u32::MAX && h.indx <= u32::MAX,
            Err(e) => chosen_head(pdb.data@, pdb.offsets@, format) == Err::<
                (HeadView, int, int),
                Failure,
            >(e@),
        },
{
    let rec0 = match pdb.record(0) {
        Ok(b) => b,
        Err(e) => {
            return Err(e);
        },
    };
    if u16_at(rec0, 12) != 0 {
        return Err(AppError::DrmDetected);
    }
    let head = read_head(rec0);
    if !has_tag(rec0, 16, 0x4d, 0x4f, 0x42, 0x49) {
        return Ok((head, 0, 0));
    }
    let images = u32_at(rec0, OFF_FIRST_IMAGE) as u64;
    let boundary: u64 = match get_exth_number(&head.exth, EXTH_BOUNDARY) {
        Some(b) => if b < u32::MAX {
            b as u64
        } else {
            0
        },
        None => 0,
    };
    if format == BookFormat::Azw3 || boundary == 0 {
        return Ok((head, 0, images));
    }
    let rec = match pdb.record(boundary) {
        Ok(b) => b,
        Err(e) => {
            return Err(e);
        },
    };
    if !has_tag(rec, 16, 0x4d, 0x4f, 0x42, 0x49) {
        return Ok((head, 0, images));
    }
    if u16_at(rec, 12) != 0 {
        return Err(AppError::DrmDetected);
    }
    Ok((read_head(rec), boundary, images))
}

// ---------------------------------------------------------------------------
// The text
// ---------------------------------------------------------------------------

/// A record without `n` entries at its end, each as long as the number that ends it; one that
/// cannot be ends the taking off.
pub open spec fn without_entries(d: Seq<u8>, n: int) -> Seq<u8>
    decreases n,
{
    if n <= 0 {
        d
    } else {
        let len = var_value_at_end(d);
        if len == 0 || len > d.len() {
            d
        } else {
            without_entries(d.take(d.len() - len), n - 1)
        }
    }
}

/// A record without what trails its text: entries, and the bytes of a character that runs over
/// into the next record.
pub open spec fn without_trailing(d: Seq<u8>, flags: u32) -> Seq<u8> {
    let out = without_entries(d, bit_count(flags as int / 2));
    if flags % 2 == 1 && out.len() > 0 {
        let len = out.last() % 4 + 1;
        if len <= out.len() {
            out.take(out.len() - len)
        } else {
            Seq::empty()
        }
    } else {
        out
    }
}

/// Takes off what trails the text of a record.
pub fn remove_trailing(data: &[u8], flags: u32) -> (r: Vec<u8>)
    ensures
        r@ == without_trailing(data@, flags),
{
    let n = count_bits_set(flags / 2);
    let mut len: usize = data.len();
    assert(data@.take(len as int) =~= data@);
    let mut k: u32 = 0;
    while k < n
        invariant_except_break
            without_entries(data@, n as int) == without_entries(data@.take(len as int), n - k),
        invariant
            len <= data@.len(),
            k <= n,
        ensures
            data@.take(len as int) == without_entries(data@, n as int),
        decreases n - k,
    {
        let cut = get_var_len_from_end(vstd::slice::slice_subrange(data, 0, len));
        assert(data@.subrange(0, len as int) =~= data@.take(len as int));
        if cut == 0 || cut > len as u64 {
            break;
        }
        assert(data@.take(len as int).take(len - cut) =~= data@.take(len - cut));
        len = len - cut as usize;
        k = k + 1;
    }
    let ghost out = data@.take(len as int);
    if flags % 2 == 1 && len > 0 {
        let over: usize = (data[len - 1] % 4) as usize + 1;
        assert(out.last() == data@[len - 1]);
        if over <= len {
            assert(out.take(len - over) =~= data@.take(len - over));
            len = len - over;
        } else {
            len = 0;
        }
    }
    let r = vstd::slice::slice_to_vec(vstd::slice::slice_subrange(data, 0, len));
    assert(r@ =~= without_trailing(data@, flags));
    r
}

/// The tables of a compression over sequences.
#[verifier::ext_equal]
pub struct Tables {
    pub table1: Seq<(bool, u32, u32)>,
    pub table2: Seq<(u32, u32)>,
    pub dictionary: Seq<(Seq<u8>, bool)>,
}

/// The tables of a text that is compressed by HUFF/CDIC; none for another.
pub open spec fn tables_of(data: Seq<u8>, offsets: Seq<u32>, head: HeadView, start: int) -> Result<
    Option<Tables>,
    Failure,
> {
    if head.compression != 17480 {
        Ok(None)
    } else if head.huffcdic == 0 || head.num_huffcdic == 0 {
        Err(Failure::Other("HUFF/CDIC 头缺失"@))
    } else {
        match record_bytes(data, offsets, start + head.huffcdic) {
            Err(e) => Err(e),
            Ok(rec) => if !tagged(rec, 0, 0x48, 0x55, 0x46, 0x46) {
                Err(Failure::Other("无效的 HUFF 记录"@))
            } else {
                match cdic_from(
                    data,
                    offsets,
                    start + head.huffcdic,
                    head.num_huffcdic as int,
                    1,
                    Seq::empty(),
                ) {
                    Err(e) => Err(e),
                    Ok(dictionary) => Ok(
                        Some(
                            Tables {
                                table1: huff_table1(rec),
                                table2: huff_table2(rec),
                                dictionary,
                            },
                        ),
                    ),
                }
            },
        }
    }
}

/// What the bytes of one record stand for.
pub open spec fn expanded_record(d: Seq<u8>, compression: u32, tables: Option<Tables>) -> Result<
    Seq<u8>,
    Failure,
> {
    if compression == 1 {
        Ok(d)
    } else if compression == 2 {
        match palm(d) {
            Some(t) => Ok(t),
            None => Err(Failure::Other("PalmDOC 数据损坏"@)),
        }
    } else if compression == 17480 {
        match tables {
            Some(t) => match huff_from(
                t.table1,
                t.table2,
                t.dictionary,
                d,
                0,
                Seq::empty(),
                t.dictionary.len(),
            ) {
                Some(t) => Ok(t),
                None => Err(Failure::Other("HUFF 数据损坏"@)),
            },
            None => Ok(Seq::empty()),
        }
    } else {
        Err(Failure::Other("未知压缩类型: "@ + decimal(compression as int)))
    }
}

/// The text from the `i`-th record on, behind what is already out.
pub open spec fn text_from(
    data: Seq<u8>,
    offsets: Seq<u32>,
    head: HeadView,
    start: int,
    tables: Option<Tables>,
    i: int,
    out: Seq<u8>,
) -> Result<Seq<u8>, Failure>
    decreases head.num_text_records - i,
{
    if i >= head.num_text_records {
        Ok(out)
    } else {
        match record_bytes(data, offsets, start + i + 1) {
            Err(e) => Err(e),
            Ok(rec) => match expanded_record(
                without_trailing(rec, head.trailing_flags),
                head.compression,
                tables,
            ) {
                Err(e) => Err(e),
                Ok(t) => text_from(data, offsets, head, start, tables, i + 1, out + t),
            },
        }
    }
}

/// The whole text of a book.
pub open spec fn text_of(data: Seq<u8>, offsets: Seq<u32>, head: HeadView, start: int) -> Result<
    Seq<u8>,
    Failure,
> {
    match tables_of(data, offsets, head, start) {
        Err(e) => Err(e),
        Ok(tables) => text_from(data, offsets, head, start, tables, 0, Seq::empty()),
    }
}

/// Expands the bytes of one record.
fn expand(data: Vec<u8>, compression: u32, huff: &Option<HuffCdic>) -> (r: AppResult<Vec<u8>>)
    requires
        huff matches Some(h) ==> h.wf(),
    ensures
        match r {
            Ok(v) => expanded_record(data@, compression, tables_view(*huff)) == Ok::<
                Seq<u8>,
                Failure,
            >(v@),
            Err(e) => expanded_record(data@, compression, tables_view(*huff)) == Err::<
                Seq<u8>,
                Failure,
            >(e@),
        },
{
    if compression == 1 {
        Ok(data)
    } else if compression == 2 {
        match decompress_palmdoc(&data) {
            Some(v) => Ok(v),
            None => Err(AppError::other("PalmDOC 数据损坏")),
        }
    } else if compression == 17480 {
        match huff {
            Some(h) => match h.decompress(&data) {
                Some(v) => Ok(v),
                None => Err(AppError::other("HUFF 数据损坏")),
            },
            None => {
                let none: Vec<u8> = Vec::new();
                assert(none@ =~= Seq::empty());
                Ok(none)
            },
        }
    } else {
        Err(AppError::Other(with_number("未知压缩类型: ", compression as u64)))
    }
}

/// The tables of a compression as a value of the specification.
pub open spec fn tables_view(h: Option<HuffCdic>) -> Option<Tables> {
    match h {
        Some(h) => Some(
            Tables {
                table1: h.table1@,
                table2: h.table2@,
                dictionary: h.dictionary.deep_view(),
            },
        ),
        None => None,
    }
}

/// Reads the tables of the text's compression.
fn read_tables(pdb: &Pdb, head: &Head, start: u64) -> (r: AppResult<Option<HuffCdic>>)
    requires
        start + head.huffcdic + head.num_huffcdic <= u64::MAX,
    ensures
        match r {
            Ok(h) => (h matches Some(t) ==> t.wf()) && tables_of(
                pdb.data@,
                pdb.offsets@,
                head.deep_view(),
                start as int,
            ) == Ok::<Option<Tables>, Failure>(tables_view(h)),
            Err(e) => tables_of(pdb.data@, pdb.offsets@, head.deep_view(), start as int) == Err::<
                Option<Tables>,
                Failure,
            >(e@),
        },
{
    if head.compression != 17480 {
        return Ok(None);
    }
    if head.huffcdic == 0 || head.num_huffcdic == 0 {
        return Err(AppError::other("HUFF/CDIC 头缺失"));
    }
    match HuffCdic::parse(pdb, start + head.huffcdic, head.num_huffcdic) {
        Ok(h) => Ok(Some(h)),
        Err(e) => Err(e),
    }
}

/// Reads the whole text of a book.
pub fn read_text(pdb: &Pdb, head: &Head, start: u64) -> (r: AppResult<Vec<u8>>)
    requires
        start + head.num_text_records <= u64::MAX,
        start + head.huffcdic + head.num_huffcdic <= u64::MAX,
    ensures
        match r {
            Ok(v) => text_of(pdb.data@, pdb.offsets@, head.deep_view(), start as int) == Ok::<
                Seq<u8>,
                Failure,
            >(v@),
            Err(e) => text_of(pdb.data@, pdb.offsets@, head.deep_view(), start as int) == Err::<
                Seq<u8>,
                Failure,
            >(e@),
        },
{
    let huff = match read_tables(pdb, head, start) {
        Ok(h) => h,
        Err(e) => {
            return Err(e);
        },
    };
    let ghost hv = head.deep_view();
    let ghost tables = tables_view(huff);
    let mut raw: Vec<u8> = Vec::new();
    assert(raw@ =~= Seq::empty());
    let mut i: u64 = 0;
    while i < head.num_text_records
        invariant
            i <= head.num_text_records,
            start + head.num_text_records <= u64::MAX,
            hv == head.deep_view(),
            tables == tables_view(huff),
            huff matches Some(t) ==> t.wf(),
            text_of(pdb.data@, pdb.offsets@, hv, start as int) == text_from(
                pdb.data@,
                pdb.offsets@,
                hv,
                start as int,
                tables,
                i as int,
                raw@,
            ),
        decreases head.num_text_records - i,
    {
        let record = match pdb.record(start + i + 1) {
            Ok(b) => b,
            Err(e) => {
                return Err(e);
            },
        };
        let bare = remove_trailing(record, head.trailing_flags);
        match expand(bare, head.compression, &huff) {
            Ok(t) => {
                push_bytes(&mut raw, &t);
            },
            Err(e) => {
                return Err(e);
            },
        }
        i = i + 1;
    }
    Ok(raw)
}

} // verus!
