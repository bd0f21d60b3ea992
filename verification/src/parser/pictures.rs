//! How pictures state their size, and what becomes of the pictures that a book offers as covers.
use vstd::prelude::*;
use crate::parser::covers::{
    as_cover, better, cover_position_is_first, has_bytes, image_size, jpeg_from, le24, le32,
    past_fill, place_for, place_is_first, row_at, stepped, total_bytes, with_cover, Cover,
};
use crate::routes::{cover_like, image_mime};

verus! {

/// A number in two bytes, the high byte first.
pub open spec fn big16(n: u16) -> Seq<u8> {
    seq![(n / 256) as u8, (n % 256) as u8]
}

/// A number in four bytes, the high byte first.
pub open spec fn big32(n: u32) -> Seq<u8> {
    seq![(n / 16777216) as u8, (n / 65536 % 256) as u8, (n / 256 % 256) as u8, (n % 256) as u8]
}

/// A number in two bytes, the low byte first.
pub open spec fn little16(n: u16) -> Seq<u8> {
    seq![(n % 256) as u8, (n / 256) as u8]
}

/// A number in three bytes, the low byte first.
pub open spec fn little24(n: u32) -> Seq<u8> {
    seq![(n % 256) as u8, (n / 256 % 256) as u8, (n / 65536 % 256) as u8]
}

/// A PNG picture states its width and then its height, behind its mark and the head of its first chunk.
pub proof fn a_png_states_its_size(head: Seq<u8>, w: u32, h: u32, rest: Seq<u8>)
    requires
        head.len() == 8,
    ensures
        ({
            let b = seq![0x89u8, 0x50, 0x4e, 0x47, 0x0d, 0x0a, 0x1a, 0x0a] + head + big32(w) + big32(
                h,
            ) + rest;
            image_size(b) == Some((w as int, h as int)) && image_mime(b) == "image/png"@ && cover_like(b)
        }),
{
    let sig = seq![0x89u8, 0x50, 0x4e, 0x47, 0x0d, 0x0a, 0x1a, 0x0a];
    let b = sig + head + big32(w) + big32(h) + rest;
    assert(b.subrange(0, 8) =~= sig);
    assert(b[0] == 0x89);
    assert(b.subrange(0, 4)[0] == 0x89);
    assert(seq![0x52u8, 0x49, 0x46, 0x46][0] == 0x52);
    assert(b[16] == big32(w)[0] && b[17] == big32(w)[1] && b[18] == big32(w)[2] && b[19] == big32(w)[3]);
    assert(b[20] == big32(h)[0] && b[21] == big32(h)[1] && b[22] == big32(h)[2] && b[23] == big32(h)[3]);
    assert(b.take(3)[0] == 0x89);
    assert(seq![0xffu8, 0xd8, 0xff][0] == 0xff);
    assert(b.take(4) =~= seq![0x89u8, 0x50, 0x4e, 0x47]);
    assert(b.take(8) =~= sig);
}

/// A GIF picture states its width and then its height behind its mark, of either year.
pub proof fn a_gif_states_its_size(newer: bool, w: u16, h: u16, rest: Seq<u8>)
    ensures
        ({
            let year = if newer {
                0x39u8
            } else {
                0x37u8
            };
            let b = seq![0x47u8, 0x49, 0x46, 0x38, year, 0x61] + little16(w) + little16(h) + rest;
            image_size(b) == Some((w as int, h as int)) && image_mime(b) == "image/gif"@ && cover_like(b)
        }),
{
    let year = if newer {
        0x39u8
    } else {
        0x37u8
    };
    let sig = seq![0x47u8, 0x49, 0x46, 0x38, year, 0x61];
    let b = sig + little16(w) + little16(h) + rest;
    assert(b.subrange(0, 6) =~= sig);
    assert(b.take(6) =~= sig);
    assert(b[0] == 0x47);
    assert(b.subrange(0, 4)[0] == 0x47);
    assert(seq![0x52u8, 0x49, 0x46, 0x46][0] == 0x52);
    assert(b.subrange(0, 8)[0] == 0x47 || b.len() < 8);
    assert(seq![0x89u8, 0x50, 0x4e, 0x47, 0x0d, 0x0a, 0x1a, 0x0a][0] == 0x89);
    assert(b[6] == little16(w)[0] && b[7] == little16(w)[1]);
    assert(b[8] == little16(h)[0] && b[9] == little16(h)[1]);
    assert(b.take(3)[0] == 0x47);
    assert(seq![0xffu8, 0xd8, 0xff][0] == 0xff);
    assert(b.take(4)[0] == 0x47);
    assert(seq![0x89u8, 0x50, 0x4e, 0x47][0] == 0x89);
    assert(b.take(4) =~= seq![0x47u8, 0x49, 0x46, 0x38]);
}

/// What a WebP picture starts with: its two marks with a length between them, and the name of its first
/// chunk with another behind it.
pub open spec fn webp_start(len: Seq<u8>, kind: u8, chunk: Seq<u8>) -> Seq<u8> {
    seq![0x52u8, 0x49, 0x46, 0x46] + len + seq![0x57u8, 0x45, 0x42, 0x50] + seq![
        0x56u8,
        0x50,
        0x38,
        kind,
    ] + chunk
}

#[verifier::rlimit(40)]
proof fn webp_is_marked(len: Seq<u8>, kind: u8, chunk: Seq<u8>, rest: Seq<u8>)
    requires
        len.len() == 4,
        chunk.len() == 4,
    ensures
        ({
            let b = webp_start(len, kind, chunk) + rest;
            &&& row_at(b, 0, seq![0x52u8, 0x49, 0x46, 0x46])
            &&& row_at(b, 8, seq![0x57u8, 0x45, 0x42, 0x50])
            &&& forall|k: u8| row_at(b, 12, seq![0x56u8, 0x50, 0x38, k]) <==> k == kind
            &&& forall|i: int| 20 <= i < b.len() ==> #[trigger] b[i] == rest[i - 20]
            &&& b.len() == 20 + rest.len()
            &&& image_mime(b) == "image/webp"@
            &&& cover_like(b)
        }),
{
    let b = webp_start(len, kind, chunk) + rest;
    assert(b.subrange(0, 4) =~= seq![0x52u8, 0x49, 0x46, 0x46]);
    assert(b.subrange(8, 12) =~= seq![0x57u8, 0x45, 0x42, 0x50]);
    assert(b.subrange(12, 16) =~= seq![0x56u8, 0x50, 0x38, kind]);
    assert forall|k: u8| row_at(b, 12, seq![0x56u8, 0x50, 0x38, k]) <==> k == kind by {
        if k != kind {
            assert(b.subrange(12, 16)[3] == kind);
            assert(seq![0x56u8, 0x50, 0x38, k][3] == k);
        }
    }
    assert(b.take(4) =~= seq![0x52u8, 0x49, 0x46, 0x46]);
    assert(b.take(4)[0] == 0x52);
    assert(b.take(3)[0] == 0x52);
    assert(seq![0xffu8, 0xd8, 0xff][0] == 0xff);
    assert(seq![0x89u8, 0x50, 0x4e, 0x47][0] == 0x89);
    assert(seq![0x47u8, 0x49, 0x46, 0x38][0] == 0x47);
}

/// A WebP picture of the extended kind states one less than its width and its height, in three bytes each.
#[verifier::rlimit(40)]
pub proof fn an_extended_webp_states_its_size(
    len: Seq<u8>,
    chunk: Seq<u8>,
    four: Seq<u8>,
    w: u32,
    h: u32,
    rest: Seq<u8>,
)
    requires
        len.len() == 4,
        chunk.len() == 4,
        four.len() == 4,
        1 <= w <= 16777216,
        1 <= h <= 16777216,
    ensures
        image_size(
            webp_start(len, 0x58, chunk) + (four + little24((w - 1) as u32) + little24((h - 1) as u32) + rest),
        ) == Some((w as int, h as int)),
{
    let x = (w - 1) as u32;
    let y = (h - 1) as u32;
    let r = four + little24(x) + little24(y) + rest;
    let b = webp_start(len, 0x58, chunk) + r;
    webp_is_marked(len, 0x58, chunk, r);
    assert(r[4] == little24(x)[0] && r[5] == little24(x)[1] && r[6] == little24(x)[2]);
    assert(r[7] == little24(y)[0] && r[8] == little24(y)[1] && r[9] == little24(y)[2]);
    assert(row_at(b, 12, seq![0x56u8, 0x50, 0x38, 0x58]));
    assert(b[24] == x % 256 && b[25] == x / 256 % 256 && b[26] == x / 65536 % 256);
    assert(b[27] == y % 256 && b[28] == y / 256 % 256 && b[29] == y / 65536 % 256);
    assert(le24(b, 24) == x && le24(b, 27) == y);
}

/// A WebP picture of the kind without loss states one less than its width and its height, fourteen bits for
/// each.
#[verifier::rlimit(40)]
pub proof fn a_lossless_webp_states_its_size(
    len: Seq<u8>,
    chunk: Seq<u8>,
    w: u32,
    h: u32,
    rest: Seq<u8>,
)
    requires
        len.len() == 4,
        chunk.len() == 4,
        1 <= w <= 16384,
        1 <= h <= 16384,
    ensures
        image_size(
            webp_start(len, 0x4c, chunk) + (seq![
                0x2fu8,
                ((w - 1) % 256) as u8,
                ((w - 1) / 256 + (h - 1) % 4 * 64) as u8,
                ((h - 1) / 4 % 256) as u8,
                ((h - 1) / 1024) as u8,
            ] + rest),
        ) == Some((w as int, h as int)),
{
    let r = seq![
        0x2fu8,
        ((w - 1) % 256) as u8,
        ((w - 1) / 256 + (h - 1) % 4 * 64) as u8,
        ((h - 1) / 4 % 256) as u8,
        ((h - 1) / 1024) as u8,
    ] + rest;
    let b = webp_start(len, 0x4c, chunk) + r;
    webp_is_marked(len, 0x4c, chunk, r);
    assert(!row_at(b, 12, seq![0x56u8, 0x50, 0x38, 0x58]));
    assert(b[20] == 0x2f);
    assert(b[21] == (w - 1) % 256);
    assert(b[22] == (w - 1) / 256 + (h - 1) % 4 * 64);
    assert(b[23] == (h - 1) / 4 % 256);
    assert(b[24] == (h - 1) / 1024);
    assert(le32(b, 21) == (w - 1) + (h - 1) * 16384);
}

/// A plain WebP picture states its width and its height behind a mark of its own.
#[verifier::rlimit(40)]
pub proof fn a_plain_webp_states_its_size(
    len: Seq<u8>,
    chunk: Seq<u8>,
    three: Seq<u8>,
    w: u16,
    h: u16,
    rest: Seq<u8>,
)
    requires
        len.len() == 4,
        chunk.len() == 4,
        three.len() == 3,
        w <= 16383,
        h <= 16383,
    ensures
        image_size(
            webp_start(len, 0x20, chunk) + (three + seq![0x9du8, 0x01, 0x2a] + little16(w) + little16(h)
                + rest),
        ) == Some((w as int, h as int)),
{
    let r = three + seq![0x9du8, 0x01, 0x2a] + little16(w) + little16(h) + rest;
    let b = webp_start(len, 0x20, chunk) + r;
    webp_is_marked(len, 0x20, chunk, r);
    assert(!row_at(b, 12, seq![0x56u8, 0x50, 0x38, 0x58]));
    assert(!row_at(b, 12, seq![0x56u8, 0x50, 0x38, 0x4c]));
    assert(b[23] == r[3] && b[24] == r[4] && b[25] == r[5]);
    assert(b.subrange(23, 26) =~= seq![0x9du8, 0x01, 0x2a]);
    assert(r[6] == little16(w)[0] && r[7] == little16(w)[1]);
    assert(r[8] == little16(h)[0] && r[9] == little16(h)[1]);
}

/// A piece of a JPEG picture that states no size: what a program notes, a comment, or a table.
pub open spec fn is_aside(marker: u8) -> bool {
    0xe0 <= marker <= 0xef || marker == 0xfe || marker == 0xdb || marker == 0xc4 || marker == 0xdd
}

/// Pieces of a JPEG picture, each with its marker and its length, which counts itself.
pub open spec fn asides(pieces: Seq<(u8, Seq<u8>)>) -> Seq<u8>
    decreases pieces.len(),
{
    if pieces.len() == 0 {
        Seq::empty()
    } else {
        seq![0xffu8, pieces[0].0] + big16((pieces[0].1.len() + 2) as u16) + pieces[0].1 + asides(
            pieces.skip(1),
        )
    }
}

/// The piece of a JPEG picture that states its height and then its width.
pub open spec fn frame(marker: u8, depth: u8, w: u16, h: u16, more: Seq<u8>) -> Seq<u8> {
    seq![0xffu8, marker] + big16((more.len() + 7) as u16) + seq![depth] + big16(h) + big16(w) + more
}

#[verifier::rlimit(40)]
proof fn asides_are_passed(
    front: Seq<u8>,
    pieces: Seq<(u8, Seq<u8>)>,
    marker: u8,
    depth: u8,
    w: u16,
    h: u16,
    more: Seq<u8>,
    rest: Seq<u8>,
)
    requires
        forall|i: int|
            0 <= i < pieces.len() ==> is_aside((#[trigger] pieces[i]).0) && pieces[i].1.len() + 2
                <= u16::MAX,
        marker == 0xc0 || marker == 0xc1 || marker == 0xc2,
        more.len() + 7 <= u16::MAX,
    ensures
        jpeg_from(
            front + (asides(pieces) + (frame(marker, depth, w, h, more) + rest)),
            front.len() as int,
        ) == Some((w as int, h as int)),
    decreases pieces.len(),
{
    let tail = frame(marker, depth, w, h, more) + rest;
    let b = front + (asides(pieces) + tail);
    let p = front.len() as int;
    if pieces.len() == 0 {
        assert(b =~= front + tail);
        let f = frame(marker, depth, w, h, more);
        assert(forall|k: int| 0 <= k < f.len() ==> #[trigger] b[p + k] == f[k]);
        assert(b[p + 0] == 0xff && b[p + 1] == marker);
        assert(past_fill(b, p + 1) == p + 1);
        assert(b[p + 2] == f[2] && b[p + 3] == f[3] && f[2] == big16((more.len() + 7) as u16)[0] && f[3]
            == big16((more.len() + 7) as u16)[1]);
        assert(b[p + 5] == f[5] && b[p + 6] == f[6] && f[5] == big16(h)[0] && f[6] == big16(h)[1]);
        assert(b[p + 7] == f[7] && b[p + 8] == f[8] && f[7] == big16(w)[0] && f[8] == big16(w)[1]);
    } else {
        let m = pieces[0].0;
        let body = pieces[0].1;
        let one = seq![0xffu8, m] + big16((body.len() + 2) as u16) + body;
        assert(is_aside(m));
        assert(b =~= (front + one) + (asides(pieces.skip(1)) + tail));
        assert forall|i: int| 0 <= i < pieces.skip(1).len() implies is_aside(
            (#[trigger] pieces.skip(1)[i]).0,
        ) && pieces.skip(1)[i].1.len() + 2 <= u16::MAX by {
            assert(pieces.skip(1)[i] == pieces[i + 1]);
        }
        asides_are_passed(front + one, pieces.skip(1), marker, depth, w, h, more, rest);
        assert(forall|k: int| 0 <= k < one.len() ==> #[trigger] b[p + k] == one[k]);
        assert(b[p + 0] == 0xff && b[p + 1] == m);
        assert(past_fill(b, p + 1) == p + 1);
        assert(b[p + 2] == one[2] && b[p + 3] == one[3] && one[2] == big16((body.len() + 2) as u16)[0]
            && one[3] == big16((body.len() + 2) as u16)[1]);
        assert((front + one).len() == p + 4 + body.len());
    }
}

/// A JPEG picture states its height and then its width in its frame, wherever that stands behind pieces of
/// other kinds.
#[verifier::rlimit(40)]
pub proof fn a_jpeg_states_its_size(
    pieces: Seq<(u8, Seq<u8>)>,
    marker: u8,
    depth: u8,
    w: u16,
    h: u16,
    more: Seq<u8>,
    rest: Seq<u8>,
)
    requires
        forall|i: int|
            0 <= i < pieces.len() ==> is_aside((#[trigger] pieces[i]).0) && pieces[i].1.len() + 2
                <= u16::MAX,
        marker == 0xc0 || marker == 0xc1 || marker == 0xc2,
        more.len() + 7 <= u16::MAX,
    ensures
        ({
            let b = seq![0xffu8, 0xd8] + (asides(pieces) + (frame(marker, depth, w, h, more) + rest));
            image_size(b) == Some((w as int, h as int)) && image_mime(b) == "image/jpeg"@ && cover_like(b)
        }),
{
    let tail = frame(marker, depth, w, h, more) + rest;
    let front = seq![0xffu8, 0xd8];
    let b = front + (asides(pieces) + tail);
    asides_are_passed(front, pieces, marker, depth, w, h, more, rest);
    assert(b.subrange(0, 2) =~= front);
    assert(b[2] == 0xff) by {
        if pieces.len() == 0 {
            assert(b =~= front + tail);
        }
    }
    assert(b.len() >= 4 ==> b.subrange(0, 4)[0] == 0xff);
    assert(seq![0x52u8, 0x49, 0x46, 0x46][0] == 0x52);
    assert(b.len() >= 8 ==> b.subrange(0, 8)[0] == 0xff);
    assert(seq![0x89u8, 0x50, 0x4e, 0x47, 0x0d, 0x0a, 0x1a, 0x0a][0] == 0x89);
    assert(b.len() >= 6 ==> b.subrange(0, 6)[0] == 0xff);
    assert(seq![0x47u8, 0x49, 0x46, 0x38, 0x37, 0x61][0] == 0x47);
    assert(seq![0x47u8, 0x49, 0x46, 0x38, 0x39, 0x61][0] == 0x47);
    assert(b.take(3) =~= seq![0xffu8, 0xd8, 0xff]);
}

/// A picture of known size is a cover if it is at least 160 wide and 240 high, or is the one that the book
/// names, and no larger than twenty mebibytes. It is a portrait if its height is between five quarters and
/// two and a half times its width.
pub proof fn a_picture_is_a_cover(bytes: Seq<u8>, primary: bool, w: int, h: int)
    requires
        image_size(bytes) == Some((w, h)),
        0 <= w,
        0 <= h,
    ensures
        as_cover(bytes, primary) is Some <==> bytes.len() <= 20 * 1024 * 1024 && w > 0 && h > 0 && (
        primary || (w >= 160 && h >= 240)),
        as_cover(bytes, primary) matches Some(c) ==> {
            &&& c.bytes == bytes
            &&& c.primary == primary
            &&& c.portrait <==> 10 * w <= 8 * h && 4 * h <= 10 * w
        },
{
}

/// Of two pictures of a kind the larger comes first; a portrait comes before what is none, and the one that
/// the book names before all.
pub proof fn what_makes_a_cover_better(a: Cover, b: Cover)
    ensures
        a.primary && !b.primary ==> better(a, b) && !better(b, a),
        a.primary == b.primary && a.portrait && !b.portrait ==> better(a, b) && !better(b, a),
        a.primary == b.primary && a.portrait == b.portrait && a.area > b.area ==> better(a, b)
            && !better(b, a),
        a.primary == b.primary && a.portrait == b.portrait && a.area == b.area ==> !better(a, b)
            && !better(b, a),
{
}

/// A new cover takes its place: none of the others goes while there is room, none changes its order, and
/// those that are not worse stand before it.
pub proof fn a_new_cover_moves_none(list: Seq<Cover>, bytes: Seq<u8>, primary: bool, c: Cover) -> (p: int)
    requires
        as_cover(bytes, primary) == Some(c),
        !has_bytes(list, bytes),
        list.len() < 32,
        total_bytes(list.insert(place_for(list, c, 0), c)) <= 64 * 1024 * 1024,
    ensures
        0 <= p <= list.len(),
        with_cover(list, bytes, primary) == list.insert(p, c),
        forall|i: int| 0 <= i < p ==> !better(c, #[trigger] list[i]),
        p < list.len() ==> better(c, list[p]),
{
    place_is_first(list, c, 0);
    place_for(list, c, 0)
}

/// The cover that comes next is the one behind, and behind the last comes the first; the other way round
/// going back.
pub proof fn covers_come_one_by_one(list: Seq<Seq<u8>>, k: int)
    requires
        0 <= k < list.len(),
        forall|i: int, j: int| 0 <= i < j < list.len() ==> list[i] != list[j],
    ensures
        k + 1 < list.len() ==> stepped(list, Some(list[k]), true) == k + 1,
        k + 1 == list.len() ==> stepped(list, Some(list[k]), true) == 0,
        k > 0 ==> stepped(list, Some(list[k]), false) == k - 1,
        k == 0 ==> stepped(list, Some(list[k]), false) == list.len() - 1,
        stepped(list, None, true) == 0,
        stepped(list, None, false) == list.len() - 1,
{
    cover_position_is_first(list, list[k], 0);
    let n = list.len() as int;
    if k + 1 < n {
        assert((k + 1) % n == k + 1) by (nonlinear_arith)
            requires
                0 <= k + 1 < n,
        ;
    } else {
        assert(n % n == 0) by (nonlinear_arith)
            requires
                n > 0,
        ;
    }
    if k > 0 {
        assert((k + n - 1) % n == k - 1) by (nonlinear_arith)
            requires
                1 <= k < n,
        ;
    } else {
        assert((n - 1) % n == n - 1) by (nonlinear_arith)
            requires
                n > 0,
        ;
    }
}

} // verus!
