//! Where the references of a Mobipocket book lead: to its pictures, its chapters and its cover.
use vstd::prelude::*;
use crate::decoding::mobi_text;
use crate::error::Failure;
use crate::model::BookFormat;
use crate::numbers::{decimal, reading_undoes_writing};
use crate::parser::mobi::book::{plain_toc, Mobi};
use crate::parser::mobi::chapter::{
    cover_by, cover_record, embed_text, mobi_resource, recindex_text, resource_in,
};
use crate::parser::mobi::head::{
    chosen_head, cover_number, exth_number, has_mobi, head_of, Exth, HeadView,
};
use crate::parser::mobi::index::Ncx;
use crate::parser::mobi::layout::ranges;
use crate::parser::mobi::pdb::{be16, be32, record_bytes};
use crate::parser::mobi::pieces::{a_place_falls_into_its_chapter, the_first_that_is_known_counts};
use crate::parser::mobi::toc::{place_of, Part};
use crate::parser::resource_origin;
use crate::regexes::{in_order, Groups};

verus! {

/// The picture that an older text calls its `n`-th is the `n`-th of the book: its address ends in a number
/// one less, and under that stands the record so far behind the first of the pictures.
pub proof fn pictures_are_counted_from_one(m: Mobi, n: int)
    requires
        1 <= n <= u64::MAX,
        0 <= m.resource_start,
        m.resource_start + n - 1 <= u64::MAX,
    ensures
        recindex_text(m, Some(decimal(n))) == "src=\""@ + (resource_origin(m.windows) + m.book_id + "/rec:"@
            + decimal(n - 1)) + "\""@,
        recindex_text(m, Some(decimal(0))).len() == 0,
        mobi_resource(m, "rec:"@ + decimal(n - 1)) == match record_bytes(
            m.data,
            m.offsets,
            m.resource_start + (n - 1),
        ) {
            Ok(b) => resource_in(b, "rec:"@ + decimal(n - 1)),
            Err(e) => Err(e),
        },
{
    reading_undoes_writing(n, 10, u64::MAX as int);
    reading_undoes_writing(0, 10, u64::MAX as int);
    crate::parser::mobi::chapter::a_number_leads_to_its_record(m, n - 1);
}

/// A newer text counts its pictures from one, too, in digits of thirty-two values.
pub proof fn embedded_pictures_are_counted_from_one(m: Mobi, n: int)
    requires
        1 <= n <= u64::MAX,
        0 <= m.resource_start,
        m.resource_start + n - 1 <= u64::MAX,
    ensures
        embed_text(m, Some(crate::numbers::written(n, 32))) == resource_origin(m.windows) + m.book_id
            + "/rec:"@ + decimal(n - 1),
{
    reading_undoes_writing(n, 32, u64::MAX as int);
}

/// A record that starts as a picture is a picture of that kind, all of it; of a font the first twelve bytes
/// are its header.
pub proof fn a_record_is_what_it_starts_as(rest: Seq<u8>, path: Seq<char>)
    ensures
        ({
            let b = seq![0xffu8, 0xd8, 0xff] + rest;
            rest.len() > 0 ==> resource_in(b, path) == Ok::<(Seq<char>, Seq<u8>), Failure>(
                ("image/jpeg"@, b),
            )
        }),
        ({
            let b = seq![0x89u8, 0x50, 0x4e, 0x47] + rest;
            resource_in(b, path) == Ok::<(Seq<char>, Seq<u8>), Failure>(("image/png"@, b))
        }),
        ({
            let b = seq![0x47u8, 0x49, 0x46, 0x38] + rest;
            resource_in(b, path) == Ok::<(Seq<char>, Seq<u8>), Failure>(("image/gif"@, b))
        }),
        ({
            let b = seq![0x42u8, 0x4d] + rest;
            rest.len() >= 2 ==> resource_in(b, path) == Ok::<(Seq<char>, Seq<u8>), Failure>(
                ("image/bmp"@, b),
            )
        }),
        ({
            let b = seq![0x46u8, 0x4f, 0x4e, 0x54] + rest;
            rest.len() >= 8 ==> resource_in(b, path) == Ok::<(Seq<char>, Seq<u8>), Failure>(
                ("font/ttf"@, rest.skip(8)),
            )
        }),
{
    let jpeg = seq![0xffu8, 0xd8, 0xff] + rest;
    assert(jpeg.skip(0) =~= jpeg);
    let png = seq![0x89u8, 0x50, 0x4e, 0x47] + rest;
    assert(png[0] == 0x89);
    assert(png.skip(0) =~= png);
    let gif = seq![0x47u8, 0x49, 0x46, 0x38] + rest;
    assert(gif[0] == 0x47);
    assert(gif.skip(0) =~= gif);
    let bmp = seq![0x42u8, 0x4d] + rest;
    assert(bmp[0] == 0x42);
    assert(bmp.skip(0) =~= bmp);
    let font = seq![0x46u8, 0x4f, 0x4e, 0x54] + rest;
    assert(font[0] == 0x46);
    if rest.len() >= 8 {
        assert(font.skip(12) =~= rest.skip(8));
    }
}

/// An item of an older text leads to the chapter that holds its place, and there to the mark of that place.
pub proof fn an_item_leads_to_its_place(
    item: Ncx,
    breaks: Seq<Groups>,
    len: int,
    k: int,
    fp: u32,
    info: Seq<(u32, u64, u64)>,
    raw: Seq<u8>,
    encoding: int,
)
    requires
        item.filepos == Some(fp),
        in_order(breaks, len),
        0 <= len,
        0 <= k <= breaks.len() < u32::MAX,
        ranges(breaks, len)[k] matches Part::Range { start, end } && start <= fp < end,
    ensures
        place_of(item, false, ranges(breaks, len), info, raw, encoding) == (
            k as u32,
            Some("filepos"@ + decimal(fp as int)),
        ),
{
    a_place_falls_into_its_chapter(breaks, len, k, fp as int);
}

/// The cover is the one that the book names, or else its thumbnail; either is counted from the first of the
/// pictures.
pub proof fn the_cover_is_counted_from_the_first_picture(
    data: Seq<u8>,
    exth: Seq<(u32, Exth)>,
    images: int,
    i: int,
    n: u32,
)
    requires
        0 <= i < exth.len(),
        exth[i].1 == Exth::Uint(n),
        n < u32::MAX,
        exth[i].0 == 201 && (forall|k: int| 0 <= k < i ==> (#[trigger] exth[k]).0 != 201) || exth[i].0 == 202
            && (forall|k: int| 0 <= k < i ==> (#[trigger] exth[k]).0 != 202) && (forall|k: int|
            0 <= k < exth.len() ==> (#[trigger] exth[k]).0 != 201),
    ensures
        cover_number(exth) == Some(n),
        cover_by(data, exth, images) == match cover_record(data, images + n) {
            Ok(b) => Ok(Some(b)),
            Err(e) => Err(e),
        },
{
    if exth[i].0 == 201 {
        the_first_that_is_known_counts(exth, 201, i, 0);
    } else {
        the_first_that_is_known_counts(exth, 202, i, 0);
        the_first_that_is_known_counts(exth, 201, exth.len() as int, 0);
    }
}

/// Without a table of its own a book has an entry for each part, in order, under its title or else its number.
pub proof fn a_book_without_a_table_has_its_parts(titles: Seq<Seq<char>>, i: int)
    requires
        0 <= i < titles.len() <= u32::MAX,
    ensures
        plain_toc(titles).len() == titles.len(),
        plain_toc(titles)[i].chapter_index == i,
        titles[i].len() > 0 ==> plain_toc(titles)[i].label == titles[i],
        titles[i].len() == 0 ==> plain_toc(titles)[i].label == "第 "@ + decimal(i + 1) + " 节"@,
        plain_toc(titles)[i].children.len() == 0,
{
}


/// A file may hold a second, newer text: then that one is read, with the pictures of the first, unless the
/// format of the file is that of newer texts alone. A text that is protected is refused.
pub proof fn the_newer_text_counts(data: Seq<u8>, offsets: Seq<u32>, first: Seq<u8>, second: Seq<u8>, b: u32)
    requires
        record_bytes(data, offsets, 0) == Ok::<Seq<u8>, Failure>(first),
        has_mobi(first),
        exth_number(head_of(first).exth, 121) == Some(b),
        0 < b < u32::MAX,
        record_bytes(data, offsets, b as int) == Ok::<Seq<u8>, Failure>(second),
        has_mobi(second),
    ensures
        be16(first, 12) == 0 && be16(second, 12) == 0 ==> chosen_head(data, offsets, BookFormat::Mobi) == Ok::<
            (HeadView, int, int),
            Failure,
        >((head_of(second), b as int, be32(first, 108))),
        be16(first, 12) == 0 ==> chosen_head(data, offsets, BookFormat::Azw3) == Ok::<
            (HeadView, int, int),
            Failure,
        >((head_of(first), 0, be32(first, 108))),
        be16(first, 12) != 0 || be16(second, 12) != 0 ==> chosen_head(data, offsets, BookFormat::Mobi) == Err::<
            (HeadView, int, int),
            Failure,
        >(Failure::DrmDetected),
{
}

/// What the header of a text says stands at fixed places: how it is packed, in how many records, in which
/// encoding, what trails the records, and where its tables are.
pub proof fn a_header_has_fixed_places(rec: Seq<u8>)
    requires
        has_mobi(rec),
    ensures
        head_of(rec).compression == be16(rec, 0) as u32,
        head_of(rec).num_text_records == be16(rec, 8) as u64,
        head_of(rec).encoding == be32(rec, 28) as u64,
        head_of(rec).huffcdic == be32(rec, 112) as u64,
        head_of(rec).num_huffcdic == be32(rec, 116) as u64,
        head_of(rec).trailing_flags == be32(rec, 240) as u32,
        head_of(rec).indx == be32(rec, 244) as u64,
        be32(rec, 88) > 0 && be32(rec, 84) + be32(rec, 88) <= rec.len() ==> head_of(rec).embedded_title == Some(
            mobi_text(rec.subrange(be32(rec, 84), be32(rec, 84) + be32(rec, 88)), be32(rec, 28)),
        ),
{
}

} // verus!
