//! Covers that a book brings with it: its default cover first, then portraits before other
//! images and larger ones before smaller, without small images and repetitions.
use vstd::prelude::*;
use crate::error::{AppError, AppResult, Failure};
use crate::parser::mobi::pdb::{be16, be32, u16_at, u32_at};
use crate::views::deep_empty;

pub use crate::parser::session::load;

verus! {

/// The largest image, in bytes, that can be a cover.
pub const MAX_IMAGE_BYTES: u64 = 20971520;

/// How many covers are kept at most.
pub const MAX_CANDIDATES: usize = 32;

/// How many bytes of covers are kept at most.
pub const MAX_CANDIDATE_BYTES: u64 = 67108864;

// ---------------------------------------------------------------------------
// The size of an image
// ---------------------------------------------------------------------------

/// The bytes at `off` are those of the row `w`.
pub open spec fn row_at(b: Seq<u8>, off: int, w: Seq<u8>) -> bool {
    0 <= off && off + w.len() <= b.len() && b.subrange(off, off + w.len()) == w
}

/// Two bytes as a number, the low byte first.
pub open spec fn le16(b: Seq<u8>, off: int) -> int {
    b[off] + b[off + 1] * 256
}

/// Three bytes as a number, the low byte first.
pub open spec fn le24(b: Seq<u8>, off: int) -> int {
    b[off] + b[off + 1] * 256 + b[off + 2] * 65536
}

/// Four bytes as a number, the low byte first.
pub open spec fn le32(b: Seq<u8>, off: int) -> int {
    b[off] + b[off + 1] * 256 + b[off + 2] * 65536 + b[off + 3] * 16777216
}

/// The width and height of a WebP image, by the first chunk of its three kinds.
pub open spec fn webp_size(b: Seq<u8>) -> Option<(int, int)> {
    if row_at(b, 12, seq![0x56u8, 0x50, 0x38, 0x58]) && b.len() >= 30 {
        Some((1 + le24(b, 24), 1 + le24(b, 27)))
    } else if row_at(b, 12, seq![0x56u8, 0x50, 0x38, 0x4c]) && b.len() >= 25 && b[20] == 0x2f {
        let bits = le32(b, 21);
        Some((bits % 16384 + 1, bits / 16384 % 16384 + 1))
    } else if row_at(b, 12, seq![0x56u8, 0x50, 0x38, 0x20]) && row_at(
        b,
        23,
        seq![0x9du8, 0x01, 0x2a],
    ) && b.len() >= 30 {
        Some((le16(b, 26) % 16384, le16(b, 28) % 16384))
    } else {
        None
    }
}

/// The first position at or after `p` that does not hold 0xff.
pub open spec fn past_fill(b: Seq<u8>, p: int) -> int
    decreases b.len() - p,
{
    if 0 <= p < b.len() && b[p] == 0xff {
        past_fill(b, p + 1)
    } else {
        p
    }
}

/// A marker of JPEG without a length.
pub open spec fn stands_alone(marker: u8) -> bool {
    marker == 0x01 || 0xd0 <= marker <= 0xd7
}

/// A marker of JPEG that starts a frame.
pub open spec fn starts_frame(marker: u8) -> bool {
    0xc0 <= marker <= 0xcf && marker != 0xc4 && marker != 0xc8 && marker != 0xcc
}

/// The width and height that the first frame from `p` on states.
pub open spec fn jpeg_from(b: Seq<u8>, p: int) -> Option<(int, int)>
    decreases b.len() - p,
{
    if p < 0 || p + 4 > b.len() || b[p] != 0xff {
        None
    } else {
        let m = past_fill(b, p + 1);
        if m < p + 1 || m >= b.len() || b[m] == 0xda || b[m] == 0xd9 {
            None
        } else if stands_alone(b[m]) {
            jpeg_from(b, m + 1)
        } else if m + 3 > b.len() {
            None
        } else {
            let n = be16(b, m + 1);
            if n < 2 || m + 1 + n > b.len() {
                None
            } else if starts_frame(b[m]) && n >= 7 {
                Some((be16(b, m + 6), be16(b, m + 4)))
            } else {
                jpeg_from(b, m + 1 + n)
            }
        }
    }
}

/// The width and height of an image: of WebP, PNG, GIF or JPEG, by what its first bytes say.
pub open spec fn image_size(b: Seq<u8>) -> Option<(int, int)> {
    if row_at(b, 0, seq![0x52u8, 0x49, 0x46, 0x46]) && row_at(
        b,
        8,
        seq![0x57u8, 0x45, 0x42, 0x50],
    ) {
        webp_size(b)
    } else if row_at(b, 0, seq![0x89u8, 0x50, 0x4e, 0x47, 0x0d, 0x0a, 0x1a, 0x0a]) {
        if b.len() >= 24 {
            Some((be32(b, 16), be32(b, 20)))
        } else {
            None
        }
    } else if row_at(b, 0, seq![0x47u8, 0x49, 0x46, 0x38, 0x37, 0x61]) || row_at(
        b,
        0,
        seq![0x47u8, 0x49, 0x46, 0x38, 0x39, 0x61],
    ) {
        if b.len() >= 10 {
            Some((le16(b, 6), le16(b, 8)))
        } else {
            None
        }
    } else if row_at(b, 0, seq![0xffu8, 0xd8]) {
        jpeg_from(b, 2)
    } else {
        None
    }
}

fn has_row(b: &[u8], off: usize, w: &[u8]) -> (r: bool)
    ensures
        r == row_at(b@, off as int, w@),
{
    let n = b.len();
    if off > n || w.len() > n - off {
        return false;
    }
    let mut i: usize = 0;
    while i < w.len()
        invariant
            i <= w@.len(),
            n == b@.len(),
            off + w@.len() <= n,
            forall|k: int| 0 <= k < i ==> b@[off + k] == w@[k],
        decreases w@.len() - i,
    {
        if b[off + i] != w[i] {
            assert(b@.subrange(off as int, off + w@.len())[i as int] != w@[i as int]);
            return false;
        }
        i = i + 1;
    }
    assert(b@.subrange(off as int, off + w@.len()) =~= w@);
    true
}

fn low16(b: &[u8], off: usize) -> (r: u32)
    requires
        off + 2 <= b@.len(),
    ensures
        r == le16(b@, off as int),
        r <= 0xffff,
{
    b[off] as u32 + b[off + 1] as u32 * 256
}

fn low24(b: &[u8], off: usize) -> (r: u32)
    requires
        off + 3 <= b@.len(),
    ensures
        r == le24(b@, off as int),
        r <= 0xffffff,
{
    b[off] as u32 + b[off + 1] as u32 * 256 + b[off + 2] as u32 * 65536
}

fn webp_dimensions(b: &[u8]) -> (r: Option<(u32, u32)>)
    ensures
        match r {
            Some((w, h)) => webp_size(b@) == Some((w as int, h as int)),
            None => webp_size(b@) is None,
        },
{
    let extended: [u8; 4] = [0x56, 0x50, 0x38, 0x58];
    let lossless: [u8; 4] = [0x56, 0x50, 0x38, 0x4c];
    let lossy: [u8; 4] = [0x56, 0x50, 0x38, 0x20];
    let start: [u8; 3] = [0x9d, 0x01, 0x2a];
    assert(extended@ =~= seq![0x56u8, 0x50, 0x38, 0x58]);
    assert(lossless@ =~= seq![0x56u8, 0x50, 0x38, 0x4c]);
    assert(lossy@ =~= seq![0x56u8, 0x50, 0x38, 0x20]);
    assert(start@ =~= seq![0x9du8, 0x01, 0x2a]);
    if has_row(b, 12, &extended) && b.len() >= 30 {
        return Some((1 + low24(b, 24), 1 + low24(b, 27)));
    }
    if has_row(b, 12, &lossless) && b.len() >= 25 && b[20] == 0x2f {
        let bits: u32 = low24(b, 21) + b[24] as u32 * 16777216;
        return Some((bits % 16384 + 1, bits / 16384 % 16384 + 1));
    }
    if has_row(b, 12, &lossy) && has_row(b, 23, &start) && b.len() >= 30 {
        return Some((low16(b, 26) % 16384, low16(b, 28) % 16384));
    }
    None
}

fn jpeg_dimensions(b: &[u8]) -> (r: Option<(u32, u32)>)
    ensures
        match r {
            Some((w, h)) => jpeg_from(b@, 2) == Some((w as int, h as int)),
            None => jpeg_from(b@, 2) is None,
        },
{
    let n = b.len();
    let mut p: usize = 2;
    while p <= n && n - p >= 4
        invariant
            n == b@.len(),
            jpeg_from(b@, 2) == jpeg_from(b@, p as int),
        decreases n + 1 - p,
    {
        if b[p] != 0xff {
            return None;
        }
        let mut m: usize = p + 1;
        while m < n && b[m] == 0xff
            invariant
                n == b@.len(),
                p + 1 <= m <= n,
                past_fill(b@, p + 1) == past_fill(b@, m as int),
            decreases n - m,
        {
            m = m + 1;
        }
        assert(past_fill(b@, p + 1) == m);
        if m >= n {
            return None;
        }
        let marker = b[m];
        if marker == 0xda || marker == 0xd9 {
            return None;
        }
        if marker == 0x01 || (0xd0 <= marker && marker <= 0xd7) {
            p = m + 1;
        } else {
            if n - m < 3 {
                return None;
            }
            let len = u16_at(b, m as u64 + 1) as usize;
            if len < 2 || len > n - m - 1 {
                return None;
            }
            if 0xc0 <= marker && marker <= 0xcf && marker != 0xc4 && marker != 0xc8 && marker
                != 0xcc && len >= 7 {
                return Some((u16_at(b, m as u64 + 6), u16_at(b, m as u64 + 4)));
            }
            p = m + 1 + len;
        }
    }
    None
}

/// The width and height of an image.
pub fn dimensions(b: &[u8]) -> (r: Option<(u32, u32)>)
    ensures
        match r {
            Some((w, h)) => image_size(b@) == Some((w as int, h as int)),
            None => image_size(b@) is None,
        },
{
    let riff: [u8; 4] = [0x52, 0x49, 0x46, 0x46];
    let webp: [u8; 4] = [0x57, 0x45, 0x42, 0x50];
    let png: [u8; 8] = [0x89, 0x50, 0x4e, 0x47, 0x0d, 0x0a, 0x1a, 0x0a];
    let gif7: [u8; 6] = [0x47, 0x49, 0x46, 0x38, 0x37, 0x61];
    let gif9: [u8; 6] = [0x47, 0x49, 0x46, 0x38, 0x39, 0x61];
    let jpeg: [u8; 2] = [0xff, 0xd8];
    assert(riff@ =~= seq![0x52u8, 0x49, 0x46, 0x46]);
    assert(webp@ =~= seq![0x57u8, 0x45, 0x42, 0x50]);
    assert(png@ =~= seq![0x89u8, 0x50, 0x4e, 0x47, 0x0d, 0x0a, 0x1a, 0x0a]);
    assert(gif7@ =~= seq![0x47u8, 0x49, 0x46, 0x38, 0x37, 0x61]);
    assert(gif9@ =~= seq![0x47u8, 0x49, 0x46, 0x38, 0x39, 0x61]);
    assert(jpeg@ =~= seq![0xffu8, 0xd8]);
    if has_row(b, 0, &riff) && has_row(b, 8, &webp) {
        return webp_dimensions(b);
    }
    if has_row(b, 0, &png) {
        if b.len() >= 24 {
            return Some((u32_at(b, 16), u32_at(b, 20)));
        }
        return None;
    }
    if has_row(b, 0, &gif7) || has_row(b, 0, &gif9) {
        if b.len() >= 10 {
            return Some((low16(b, 6), low16(b, 8)));
        }
        return None;
    }
    if has_row(b, 0, &jpeg) {
        return jpeg_dimensions(b);
    }
    None
}

// ---------------------------------------------------------------------------
// Candidates
// ---------------------------------------------------------------------------

/// An image that may be a cover: whether it is the default, whether it is a portrait, its area,
/// and its bytes.
#[derive(Debug)]
pub struct Candidate {
    primary: bool,
    portrait: bool,
    area: u64,
    bytes: Vec<u8>,
}

/// `Candidate` over sequences.
#[verifier::ext_equal]
pub struct Cover {
    pub primary: bool,
    pub portrait: bool,
    pub area: u64,
    pub bytes: Seq<u8>,
}

impl DeepView for Candidate {
    type V = Cover;

    closed spec fn deep_view(&self) -> Cover {
        Cover {
            primary: self.primary,
            portrait: self.portrait,
            area: self.area,
            bytes: self.bytes@,
        }
    }
}

/// The images that may be covers, best first.
#[derive(Debug)]
pub struct Candidates {
    list: Vec<Candidate>,
}

/// One image comes strictly before another: the default before others, then portraits before
/// others, then by area.
pub open spec fn better(a: Cover, b: Cover) -> bool {
    if a.primary != b.primary {
        a.primary
    } else if a.portrait != b.portrait {
        a.portrait
    } else {
        a.area > b.area
    }
}

/// The place of an image among others: behind all that are not worse.
pub open spec fn place_for(list: Seq<Cover>, c: Cover, i: int) -> int
    decreases list.len() - i,
{
    if 0 <= i < list.len() && !better(c, list[i]) {
        place_for(list, c, i + 1)
    } else {
        i
    }
}

/// How many bytes images hold together.
pub open spec fn total_bytes(list: Seq<Cover>) -> int
    decreases list.len(),
{
    if list.len() == 0 {
        0
    } else {
        total_bytes(list.drop_last()) + list.last().bytes.len()
    }
}

/// The images that are kept: the last go while there are too many or they hold too much.
pub open spec fn within_limits(list: Seq<Cover>) -> Seq<Cover>
    decreases list.len(),
{
    if list.len() > 0 && (list.len() > MAX_CANDIDATES || total_bytes(list) > MAX_CANDIDATE_BYTES) {
        within_limits(list.drop_last())
    } else {
        list
    }
}

/// The image that bytes make, where they can be a cover: an image of known size that is not too
/// large and, unless it is the default, not too small.
pub open spec fn as_cover(bytes: Seq<u8>, primary: bool) -> Option<Cover> {
    match image_size(bytes) {
        Some((w, h)) => if bytes.len() > MAX_IMAGE_BYTES || w == 0 || h == 0 || (!primary && (w
            < 160 || h < 240)) {
            None
        } else {
            Some(
                Cover {
                    primary,
                    portrait: h * 4 <= w * 10 <= h * 8,
                    area: (w * h) as u64,
                    bytes,
                },
            )
        },
        None => None,
    }
}

/// Some image of the list has these bytes.
pub open spec fn has_bytes(list: Seq<Cover>, bytes: Seq<u8>) -> bool {
    exists|i: int| 0 <= i < list.len() && (#[trigger] list[i]).bytes == bytes
}

/// The list with one more image, where it can be a cover and is not there yet.
pub open spec fn with_cover(list: Seq<Cover>, bytes: Seq<u8>, primary: bool) -> Seq<Cover> {
    match as_cover(bytes, primary) {
        Some(c) => if has_bytes(list, bytes) {
            list
        } else {
            within_limits(list.insert(place_for(list, c, 0), c))
        },
        None => list,
    }
}

/// The bytes of images.
pub open spec fn cover_bytes(list: Seq<Cover>) -> Seq<Seq<u8>> {
    list.map_values(|c: Cover| c.bytes)
}

/// What is noted of an image is what its bytes say: whether it is a portrait and its area follow
/// from its width and height. It is not too large and, unless it is the default, not too small.
pub open spec fn is_of_its_bytes(c: Cover) -> bool {
    &&& c.bytes.len() <= MAX_IMAGE_BYTES
    &&& match image_size(c.bytes) {
        Some((w, h)) => {
            &&& w > 0 && h > 0
            &&& c.portrait == (h * 4 <= w * 10 <= h * 8)
            &&& c.area == w * h
            &&& !c.primary ==> w >= 160 && h >= 240
        },
        None => false,
    }
}

/// No image stands before a better one, no two have the same bytes, and what is noted of each is
/// what its bytes say.
pub open spec fn well_ordered(list: Seq<Cover>) -> bool {
    &&& forall|i: int, j: int|
        #![trigger list[i], list[j]]
        0 <= i < j < list.len() ==> !better(list[j], list[i]) && list[i].bytes != list[j].bytes
    &&& forall|i: int| 0 <= i < list.len() ==> is_of_its_bytes(#[trigger] list[i])
}

proof fn jpeg_size_fits(b: Seq<u8>, p: int)
    ensures
        jpeg_from(b, p) matches Some((w, h)) ==> 0 <= w <= 0xffff_ffff && 0 <= h <= 0xffff_ffff,
    decreases b.len() - p,
{
    if 0 <= p && p + 4 <= b.len() && b[p] == 0xff {
        let m = past_fill(b, p + 1);
        if p + 1 <= m < b.len() && b[m] != 0xda && b[m] != 0xd9 {
            if stands_alone(b[m]) {
                jpeg_size_fits(b, m + 1);
            } else if m + 3 <= b.len() {
                let n = be16(b, m + 1);
                if n >= 2 && m + 1 + n <= b.len() && !(starts_frame(b[m]) && n >= 7) {
                    jpeg_size_fits(b, m + 1 + n);
                }
            }
        }
    }
}

/// A width and a height are numbers of four bytes at most.
proof fn image_size_fits(b: Seq<u8>)
    ensures
        image_size(b) matches Some((w, h)) ==> 0 <= w <= 0xffff_ffff && 0 <= h <= 0xffff_ffff,
{
    jpeg_size_fits(b, 2);
}

/// An image that can be a cover is noted as its bytes say.
proof fn covers_are_of_their_bytes(bytes: Seq<u8>, primary: bool)
    ensures
        as_cover(bytes, primary) matches Some(c) ==> is_of_its_bytes(c) && c.bytes == bytes
            && c.primary == primary,
{
    image_size_fits(bytes);
    if let Some((w, h)) = image_size(bytes) {
        assert(0 <= w * h <= u64::MAX) by (nonlinear_arith)
            requires
                0 <= w <= 0xffff_ffff,
                0 <= h <= 0xffff_ffff,
        ;
    }
}

/// The place of an image lies behind all that are not worse and before the first that is.
pub proof fn place_is_first(list: Seq<Cover>, c: Cover, i: int)
    requires
        0 <= i <= list.len(),
    ensures
        i <= place_for(list, c, i) <= list.len(),
        place_for(list, c, i) < list.len() ==> better(c, list[place_for(list, c, i)]),
        forall|k: int| i <= k < place_for(list, c, i) ==> !better(c, #[trigger] list[k]),
    decreases list.len() - i,
{
    if i < list.len() && !better(c, list[i]) {
        place_is_first(list, c, i + 1);
    }
}

/// An ordered list with an image put in its place is ordered.
proof fn insert_keeps_order(list: Seq<Cover>, c: Cover)
    requires
        well_ordered(list),
        !has_bytes(list, c.bytes),
        is_of_its_bytes(c),
    ensures
        well_ordered(list.insert(place_for(list, c, 0), c)),
{
    place_is_first(list, c, 0);
    let p = place_for(list, c, 0);
    let out = list.insert(p, c);
    assert forall|i: int, j: int|
        #![trigger out[i], out[j]]
        0 <= i < j < out.len() implies !better(out[j], out[i]) && out[i].bytes
        != out[j].bytes by {
        let a = if i < p { i } else { i - 1 };
        let b = if j < p { j } else { j - 1 };
        if i == p {
            assert(out[j] == list[b]);
            assert(better(c, list[p]));
            if b > p {
                assert(!better(list[b], list[p]));
            }
        } else if j == p {
            assert(out[i] == list[a]);
        } else {
            assert(out[i] == list[a] && out[j] == list[b]);
        }
    }
    assert forall|i: int| 0 <= i < out.len() implies is_of_its_bytes(#[trigger] out[i]) by {
        if i < p {
            assert(out[i] == list[i]);
        } else if i > p {
            assert(out[i] == list[i - 1]);
        }
    }
}

/// What is kept of an ordered list is the start of it, and ordered, and within the limits.
proof fn limits_keep_order(list: Seq<Cover>)
    requires
        well_ordered(list),
    ensures
        well_ordered(within_limits(list)),
        within_limits(list).len() <= list.len(),
        within_limits(list) == list.take(within_limits(list).len() as int),
        within_limits(list).len() <= MAX_CANDIDATES,
        total_bytes(within_limits(list)) <= MAX_CANDIDATE_BYTES,
    decreases list.len(),
{
    if list.len() > 0 && (list.len() > MAX_CANDIDATES || total_bytes(list) > MAX_CANDIDATE_BYTES) {
        let front = list.drop_last();
        assert forall|i: int, j: int|
            #![trigger front[i], front[j]]
            0 <= i < j < front.len() implies !better(front[j], front[i]) && front[i].bytes
            != front[j].bytes by {
            assert(list[i] == front[i] && list[j] == front[j]);
        }
        assert forall|i: int| 0 <= i < front.len() implies is_of_its_bytes(#[trigger] front[i]) by {
            assert(list[i] == front[i]);
        }
        limits_keep_order(front);
        assert(front.take(within_limits(list).len() as int) =~= list.take(
            within_limits(list).len() as int,
        ));
    } else {
        assert(list.take(list.len() as int) =~= list);
    }
}

/// Whatever is offered, the covers stay ordered by whether they are the default, whether their width
/// and height make a portrait, and their area; they stay distinct, and within the limits.
pub proof fn covers_stay_ordered(list: Seq<Cover>, bytes: Seq<u8>, primary: bool)
    requires
        well_ordered(list),
        list.len() <= MAX_CANDIDATES,
        total_bytes(list) <= MAX_CANDIDATE_BYTES,
    ensures
        well_ordered(with_cover(list, bytes, primary)),
        with_cover(list, bytes, primary).len() <= MAX_CANDIDATES,
        total_bytes(with_cover(list, bytes, primary)) <= MAX_CANDIDATE_BYTES,
{
    if let Some(c) = as_cover(bytes, primary) {
        if !has_bytes(list, bytes) {
            covers_are_of_their_bytes(bytes, primary);
            insert_keeps_order(list, c);
            limits_keep_order(list.insert(place_for(list, c, 0), c));
        }
    }
}

/// What cannot be a cover changes nothing: an image that is there already, one that is too large, one
/// whose size cannot be read or is nothing, and one that is too small and not the default.
pub proof fn what_is_no_cover_changes_nothing(list: Seq<Cover>, bytes: Seq<u8>, primary: bool)
    requires
        has_bytes(list, bytes) || bytes.len() > MAX_IMAGE_BYTES || match image_size(bytes) {
            Some((w, h)) => w == 0 || h == 0 || (!primary && (w < 160 || h < 240)),
            None => true,
        },
    ensures
        with_cover(list, bytes, primary) == list,
{
}

/// An image that was offered once is not taken a second time.
pub proof fn offered_twice_is_once(list: Seq<Cover>, bytes: Seq<u8>, primary: bool, again: bool)
    requires
        has_bytes(with_cover(list, bytes, primary), bytes),
    ensures
        with_cover(with_cover(list, bytes, primary), bytes, again) == with_cover(
            list,
            bytes,
            primary,
        ),
{
}

/// Where the default cover is among the images, it comes first; it is never pushed out by
/// others.
pub proof fn the_default_comes_first(list: Seq<Cover>, i: int)
    requires
        well_ordered(list),
        0 <= i < list.len(),
        list[i].primary,
        forall|k: int| 0 <= k < list.len() && k != i ==> !(#[trigger] list[k]).primary,
    ensures
        i == 0,
        within_limits(list).len() > 0,
        within_limits(list)[0] == list[i],
{
    if i > 0 {
        assert(better(list[i], list[0]));
        assert(!better(list[i], list[0]));
    }
    some_cover_is_kept(list);
    limits_keep_order(list);
}

/// Of images that can each be a cover, one at least is kept.
proof fn some_cover_is_kept(list: Seq<Cover>)
    requires
        well_ordered(list),
        list.len() > 0,
    ensures
        within_limits(list).len() > 0,
    decreases list.len(),
{
    if list.len() == 1 {
        assert(list.drop_last() =~= Seq::empty());
        assert(is_of_its_bytes(list[0]));
        assert(total_bytes(list.drop_last()) == 0);
    } else if list.len() > MAX_CANDIDATES || total_bytes(list) > MAX_CANDIDATE_BYTES {
        let front = list.drop_last();
        assert forall|i: int, j: int|
            #![trigger front[i], front[j]]
            0 <= i < j < front.len() implies !better(front[j], front[i]) && front[i].bytes
            != front[j].bytes by {
            assert(list[i] == front[i] && list[j] == front[j]);
        }
        assert forall|i: int| 0 <= i < front.len() implies is_of_its_bytes(#[trigger] front[i]) by {
            assert(list[i] == front[i]);
        }
        some_cover_is_kept(front);
    }
}

pub fn same_bytes(a: &[u8], b: &[u8]) -> (r: bool)
    ensures
        r == (a@ == b@),
{
    if a.len() != b.len() {
        return false;
    }
    let mut i: usize = 0;
    while i < a.len()
        invariant
            i <= a@.len(),
            a@.len() == b@.len(),
            forall|k: int| 0 <= k < i ==> a@[k] == b@[k],
        decreases a@.len() - i,
    {
        if a[i] != b[i] {
            return false;
        }
        i = i + 1;
    }
    assert(a@ =~= b@);
    true
}

fn is_better(a: &Candidate, b: &Candidate) -> (r: bool)
    ensures
        r == better(a.deep_view(), b.deep_view()),
{
    if a.primary != b.primary {
        a.primary
    } else if a.portrait != b.portrait {
        a.portrait
    } else {
        a.area > b.area
    }
}

/// The bytes held by a longer start of a list are not fewer.
proof fn total_bytes_step(list: Seq<Cover>, k: int)
    requires
        0 <= k < list.len(),
    ensures
        total_bytes(list.take(k + 1)) == total_bytes(list.take(k)) + list[k].bytes.len(),
{
    assert(list.take(k + 1).drop_last() =~= list.take(k));
}

fn count_bytes(list: &Vec<Candidate>) -> (r: u128)
    ensures
        r == total_bytes(list.deep_view()),
{
    let ghost all = list.deep_view();
    let mut total: u128 = 0;
    let mut i: usize = 0;
    assert(all.take(0) =~= Seq::empty());
    let n = list.len();
    while i < n
        invariant
            n == list@.len(),
            i <= n,
            all == list.deep_view(),
            total == total_bytes(all.take(i as int)),
            total <= i * 0xffff_ffff_ffff_ffff,
        decreases n - i,
    {
        proof {
            total_bytes_step(all, i as int);
            assert((i + 1) * 0xffff_ffff_ffff_ffff == i * 0xffff_ffff_ffff_ffff
                + 0xffff_ffff_ffff_ffff) by (nonlinear_arith);
            assert(i * 0xffff_ffff_ffff_ffff <= 0xffff_ffff_ffff_ffff * 0xffff_ffff_ffff_ffff)
                by (nonlinear_arith)
                requires
                    i <= 0xffff_ffff_ffff_ffff,
            ;
        }
        let k = list[i].bytes.len();
        assert(all[i as int].bytes.len() == k);
        total = total + k as u128;
        i = i + 1;
    }
    assert(all.take(i as int) =~= all);
    total
}

impl DeepView for Candidates {
    type V = Seq<Cover>;

    closed spec fn deep_view(&self) -> Seq<Cover> {
        self.list.deep_view()
    }
}

impl Default for Candidates {
    fn default() -> (r: Self)
        ensures
            r.deep_view() == Seq::<Cover>::empty(),
            r.wf(),
    {
        let r = Candidates { list: Vec::new() };
        proof {
            deep_empty(r.list);
        }
        r
    }
}

impl Candidates {
    /// The covers are what their bytes say, ordered, distinct, and within the limits.
    pub open spec fn wf(&self) -> bool {
        &&& well_ordered(self.deep_view())
        &&& self.deep_view().len() <= MAX_CANDIDATES
        &&& total_bytes(self.deep_view()) <= MAX_CANDIDATE_BYTES
    }

    /// Offers an image.
    pub fn push(&mut self, bytes: Vec<u8>, primary: bool)
        requires
            old(self).wf(),
        ensures
            final(self).deep_view() == with_cover(old(self).deep_view(), bytes@, primary),
            final(self).wf(),
    {
        let ghost before = self.deep_view();
        proof {
            covers_stay_ordered(before, bytes@, primary);
        }
        let (w, h) = match dimensions(bytes.as_slice()) {
            Some(d) => d,
            None => {
                return;
            },
        };
        if bytes.len() as u64 > MAX_IMAGE_BYTES || w == 0 || h == 0 || (!primary && (w < 160 || h
            < 240)) {
            return;
        }
        assert(w * h <= u64::MAX) by (nonlinear_arith)
            requires
                w <= 0xffff_ffff,
                h <= 0xffff_ffff,
        ;
        let portrait = w as u64 * 10 >= h as u64 * 4 && w as u64 * 10 <= h as u64 * 8;
        let c = Candidate { primary, portrait, area: w as u64 * h as u64, bytes };
        let ghost cv = c.deep_view();
        assert(as_cover(bytes@, primary) == Some(cv));
        let mut at: usize = 0;
        let mut i: usize = 0;
        let mut found = false;
        while i < self.list.len()
            invariant
                i <= self.list@.len(),
                before == self.list.deep_view(),
                before == old(self).deep_view(),
                old(self).wf(),
                as_cover(bytes@, primary) == Some(cv),
                cv.bytes == bytes@,
                cv == c.deep_view(),
                at <= i,
                !found ==> at == i,
                found ==> at < before.len() && better(cv, before[at as int]),
                forall|k: int| 0 <= k < at ==> !better(cv, #[trigger] before[k]),
                forall|k: int| 0 <= k < i ==> (#[trigger] before[k]).bytes != cv.bytes,
            decreases self.list@.len() - i,
        {
            assert(before[i as int] == self.list@[i as int].deep_view());
            if same_bytes(self.list[i].bytes.as_slice(), c.bytes.as_slice()) {
                assert(has_bytes(before, cv.bytes));
                return;
            }
            if !found {
                if is_better(&c, &self.list[i]) {
                    found = true;
                } else {
                    at = at + 1;
                }
            }
            i = i + 1;
        }
        assert(!has_bytes(before, cv.bytes));
        proof {
            place_at(before, cv, 0, at as int);
        }
        let ghost list_before = self.list;
        self.list.insert(at, c);
        assert(self.list.deep_view() =~= before.insert(at as int, cv)) by {
            assert forall|k: int| 0 <= k < self.list@.len() implies self.list.deep_view()[k]
                == before.insert(at as int, cv)[k] by {
                if k < at {
                    assert(self.list@[k] == list_before@[k]);
                } else if k > at {
                    assert(self.list@[k] == list_before@[k - 1]);
                }
            }
        }
        let ghost full = self.list.deep_view();
        loop
            invariant
                within_limits(full) == within_limits(self.list.deep_view()),
            ensures
                self.list.deep_view() == within_limits(full),
            decreases self.list@.len(),
        {
            let n = self.list.len();
            if n == 0 || (n <= MAX_CANDIDATES && count_bytes(&self.list)
                <= MAX_CANDIDATE_BYTES as u128) {
                break;
            }
            let ghost was = self.list;
            self.list.pop();
            proof {
                crate::views::deep_pop(was, self.list);
            }
        }
    }

    /// The bytes of the covers, best first.
    pub fn finish(self) -> (r: Vec<Vec<u8>>)
        ensures
            r.deep_view() == cover_bytes(self.deep_view()),
    {
        let ghost all = self.list.deep_view();
        let mut out: Vec<Vec<u8>> = Vec::new();
        let mut i: usize = 0;
        while i < self.list.len()
            invariant
                i <= self.list@.len(),
                all == self.list.deep_view(),
                out@.len() == i,
                forall|k: int| 0 <= k < i ==> (#[trigger] out@[k])@ == all[k].bytes,
            decreases self.list@.len() - i,
        {
            let b = vstd::slice::slice_to_vec(self.list[i].bytes.as_slice());
            out.push(b);
            i = i + 1;
        }
        assert forall|k: int| 0 <= k < out@.len() implies (#[trigger] out.deep_view()[k])
            =~= cover_bytes(all)[k] by {
            assert(out@[k]@ == all[k].bytes);
            assert(out.deep_view()[k] =~= out@[k]@);
        }
        assert(out.deep_view() =~= cover_bytes(all));
        out
    }
}

proof fn place_at(list: Seq<Cover>, c: Cover, i: int, p: int)
    requires
        0 <= i <= p <= list.len(),
        p < list.len() ==> better(c, list[p]),
        forall|k: int| i <= k < p ==> !better(c, #[trigger] list[k]),
    ensures
        place_for(list, c, i) == p,
    decreases p - i,
{
    if i < p {
        assert(!better(c, list[i]));
        place_at(list, c, i + 1, p);
    }
}

// ---------------------------------------------------------------------------
// Going from one cover to the next
// ---------------------------------------------------------------------------

/// The first image with these bytes, from the `i`-th on.
pub open spec fn cover_position(list: Seq<Seq<u8>>, bytes: Seq<u8>, i: int) -> Option<int>
    decreases list.len() - i,
{
    if i < 0 || i >= list.len() {
        None
    } else if list[i] == bytes {
        Some(i)
    } else {
        cover_position(list, bytes, i + 1)
    }
}

/// The image after the current one, or before it, going round at the ends. Where the current one
/// is none of them, the first or the last.
pub open spec fn stepped(list: Seq<Seq<u8>>, current: Option<Seq<u8>>, forward: bool) -> int {
    let at = match current {
        Some(b) => cover_position(list, b, 0),
        None => None,
    };
    match at {
        Some(i) => if forward {
            (i + 1) % (list.len() as int)
        } else {
            (i + list.len() - 1) % (list.len() as int)
        },
        None => if forward {
            0
        } else {
            list.len() - 1
        },
    }
}

/// The position found is the first that holds the bytes.
pub proof fn cover_position_is_first(list: Seq<Seq<u8>>, bytes: Seq<u8>, i: int)
    requires
        0 <= i,
    ensures
        match cover_position(list, bytes, i) {
            Some(k) => i <= k < list.len() && list[k] == bytes && forall|j: int|
                i <= j < k ==> list[j] != bytes,
            None => forall|j: int| i <= j < list.len() ==> list[j] != bytes,
        },
    decreases list.len() - i,
{
    if i < list.len() && list[i] != bytes {
        cover_position_is_first(list, bytes, i + 1);
    }
}

/// Where no two images are the same, a step forward and a step back lead to where they started.
pub proof fn stepping_back_undoes(list: Seq<Seq<u8>>, k: int)
    requires
        0 <= k < list.len(),
        forall|i: int, j: int| 0 <= i < j < list.len() ==> list[i] != list[j],
    ensures
        ({
            let next = stepped(list, Some(list[k]), true);
            &&& 0 <= next < list.len()
            &&& stepped(list, Some(list[next]), false) == k
        }),
{
    cover_position_is_first(list, list[k], 0);
    let n = list.len() as int;
    let next = stepped(list, Some(list[k]), true);
    if k + 1 < n {
        assert((k + 1) % n == k + 1) by (nonlinear_arith)
            requires
                0 <= k + 1 < n,
        ;
    } else {
        assert(n % n == 0) by (nonlinear_arith)
            requires
                n > 0,
        ;
    }
    cover_position_is_first(list, list[next], 0);
    if next == 0 {
        assert((n - 1) % n == n - 1) by (nonlinear_arith)
            requires
                n > 0,
        ;
    } else {
        assert((next + n - 1) % n == next - 1) by (nonlinear_arith)
            requires
                1 <= next < n,
        ;
    }
}

/// The image to go to from the current one.
pub fn step_index(candidates: &[Vec<u8>], current: Option<&[u8]>, forward: bool) -> (r: AppResult<
    usize,
>)
    ensures
        match r {
            Ok(i) => i < candidates@.len() && i == stepped(
                candidates.deep_view(),
                match current {
                    Some(b) => Some(b@),
                    None => None,
                },
                forward,
            ),
            Err(e) => candidates@.len() == 0 && e@ == Failure::Other(
                "本书没有可切换的内置封面图片"@,
            ),
        },
{
    let n = candidates.len();
    if n == 0 {
        return Err(AppError::other("本书没有可切换的内置封面图片"));
    }
    let ghost list = candidates.deep_view();
    let mut found: Option<usize> = None;
    if let Some(b) = current {
        let mut i: usize = 0;
        while i < n && found.is_none()
            invariant
                n == candidates@.len(),
                i <= n,
                list == candidates.deep_view(),
                match found {
                    Some(k) => k < n && cover_position(list, b@, 0) == Some(k as int),
                    None => cover_position(list, b@, 0) == cover_position(list, b@, i as int),
                },
            decreases n - i,
        {
            assert(list[i as int] =~= candidates@[i as int]@);
            if same_bytes(candidates[i].as_slice(), b) {
                found = Some(i);
            }
            i = i + 1;
        }
    }
    match found {
        Some(i) => {
            if forward {
                if i + 1 == n {
                    assert(n as int % n as int == 0) by (nonlinear_arith)
                        requires
                            n > 0,
                    ;
                    Ok(0)
                } else {
                    assert((i + 1) % n as int == i + 1) by (nonlinear_arith)
                        requires
                            0 <= i + 1 < n,
                    ;
                    Ok(i + 1)
                }
            } else if i == 0 {
                assert((n - 1) % n as int == n - 1) by (nonlinear_arith)
                    requires
                        n > 0,
                ;
                Ok(n - 1)
            } else {
                assert((i + n - 1) % n as int == i - 1) by (nonlinear_arith)
                    requires
                        1 <= i < n,
                ;
                Ok(i - 1)
            }
        },
        None => if forward {
            Ok(0)
        } else {
            Ok(n - 1)
        },
    }
}

} // verus!
