//! The chapters and resources of an open Mobipocket book, and the cover of one that is not.
use vstd::prelude::*;
use crate::cleaning::{mobi_html, sanitize_mobi_html};
use crate::decoding::{decode_bytes, mobi_text};
use crate::error::{around_number, AppError, AppResult, Failure};
use crate::model::{Chapter, ChapterContent, ChapterKind};
use crate::numbers::{
    decimal, parse, parse_decimal, parsed, reading_undoes_writing, write_decimal,
};
use crate::parser::mobi::book::{numbered_title, Mobi, MobiBook};
use crate::parser::mobi::compress::push_bytes;
use crate::parser::mobi::head::{
    cover_number, cover_offset, exth_number, exth_of, get_exth_number, has_mobi, read_exth, Exth,
    ExthValue, EXTH_BOUNDARY, OFF_FILE_VERSION, OFF_FIRST_IMAGE,
};
use crate::parser::mobi::layout::{frags_small, part_small, part_within};
use crate::parser::mobi::pdb::{
    be16, be32, clip, clipped, exactly, has_tag, record_bytes, tagged, take_exactly, u16_at, u32_at,
};
use crate::parser::mobi::toc::{Kf8Frag, Kf8Section, Part, Section};
use crate::parser::{origin, resource_origin};
use crate::regexes::{
    group, group_text, in_order, ints, regex_spans, remove, row_of, spans, splice, spliced,
    without, Groups, KINDLE_EMBED, PAGEBREAK_TAG, RECINDEX,
};
use crate::sorting::strictly_ascending;
use crate::text::{chars_of, is_at, part, push_all, push_str, starts, string_of, texts};

verus! {

// ---------------------------------------------------------------------------
// The bytes of a chapter
// ---------------------------------------------------------------------------

/// Characters as bytes of the same numbers.
pub open spec fn ascii(s: Seq<char>) -> Seq<u8> {
    s.map_values(|c: char| c as u8)
}

/// The anchor that marks an offset into the text.
pub open spec fn offset_mark(fp: int) -> Seq<u8> {
    ascii("<a id=\"filepos"@ + decimal(fp) + "\"></a>"@)
}

/// The text from `from` up to `e`, with a mark before each listed offset from the `i`-th on that
/// lies at or after `s` and before `e`.
pub open spec fn marked_from(
    raw: Seq<u8>,
    s: int,
    e: int,
    list: Seq<u32>,
    i: int,
    from: int,
) -> Seq<u8>
    decreases list.len() - i,
{
    if i < 0 || i >= list.len() {
        raw.subrange(from, e)
    } else if list[i] < s || list[i] >= e {
        marked_from(raw, s, e, list, i + 1, from)
    } else {
        raw.subrange(from, list[i] as int) + offset_mark(list[i] as int) + marked_from(
            raw,
            s,
            e,
            list,
            i + 1,
            list[i] as int,
        )
    }
}

/// Bytes put in at a place, or at the end where the place lies beyond it.
pub open spec fn put_in(buf: Seq<u8>, at: int, more: Seq<u8>) -> Seq<u8> {
    let k = if at < buf.len() {
        at
    } else {
        buf.len() as int
    };
    buf.take(k) + more + buf.skip(k)
}

/// The bytes of a fragment, as far as the text goes.
pub open spec fn frag_bytes(raw: Seq<u8>, base: int, f: Kf8Frag) -> Seq<u8> {
    let start = base + f.offset;
    let end = if start + f.length < raw.len() {
        start + f.length
    } else {
        raw.len() as int
    };
    exactly(raw, start, end)
}

/// A skeleton with its fragments from the `i`-th on put in. The place of a fragment counts from
/// the start of the text; what was put in before it moves it on.
pub open spec fn frags_in(
    raw: Seq<u8>,
    skel_offset: int,
    base: int,
    frags: Seq<Kf8Frag>,
    i: int,
    buf: Seq<u8>,
    inserted: int,
) -> Seq<u8>
    decreases frags.len() - i,
{
    if i < 0 || i >= frags.len() {
        buf
    } else {
        let at = if frags[i].insert_offset > skel_offset {
            frags[i].insert_offset - skel_offset
        } else {
            0
        };
        let more = frag_bytes(raw, base, frags[i]);
        frags_in(
            raw,
            skel_offset,
            base,
            frags,
            i + 1,
            put_in(buf, at + inserted, more),
            inserted + more.len(),
        )
    }
}

/// The bytes of a chapter: a range with the offsets into it marked, or a skeleton with its
/// fragments.
pub open spec fn chapter_bytes(raw: Seq<u8>, filepos: Seq<u32>, p: Part) -> Seq<u8> {
    match p {
        Part::Range { start, end } => marked_from(raw, start, end, filepos, 0, start),
        Part::Kf8 { skel_offset, skel_length, frags } => frags_in(
            raw,
            skel_offset,
            skel_offset + skel_length,
            frags,
            0,
            clipped(raw, skel_offset, skel_offset + skel_length),
            0,
        ),
    }
}

fn ascii_bytes(s: &[char]) -> (r: Vec<u8>)
    ensures
        r@ == ascii(s@),
{
    let mut out: Vec<u8> = Vec::new();
    let mut i: usize = 0;
    while i < s.len()
        invariant
            i <= s@.len(),
            out@ == ascii(s@.take(i as int)),
        decreases s@.len() - i,
    {
        out.push(s[i] as u8);
        i = i + 1;
        assert(out@ =~= ascii(s@.take(i as int)));
    }
    assert(s@.take(s@.len() as int) =~= s@);
    out
}

fn mark_for(fp: u32) -> (r: Vec<u8>)
    ensures
        r@ == offset_mark(fp as int),
{
    let mut t = chars_of("<a id=\"filepos");
    let d = write_decimal(fp as u64);
    push_all(&mut t, &d);
    push_str(&mut t, "\"></a>");
    ascii_bytes(&t)
}

/// The range of the text with the listed offsets marked.
pub fn mark_offsets(raw: &[u8], s: u64, e: u64, list: &Vec<u32>) -> (r: Vec<u8>)
    requires
        s <= e <= raw@.len(),
        strictly_ascending(list@),
    ensures
        r@ == marked_from(raw@, s as int, e as int, list@, 0, s as int),
{
    let mut out: Vec<u8> = Vec::new();
    let len = raw.len();
    let mut from: u64 = s;
    let mut i: usize = 0;
    while i < list.len()
        invariant
            i <= list@.len(),
            s <= from <= e <= raw@.len(),
            len == raw@.len(),
            strictly_ascending(list@),
            i < list@.len() && s <= list@[i as int] < e ==> from <= list@[i as int],
            from == s || exists|k: int| 0 <= k < i && list@[k] == from,
            marked_from(raw@, s as int, e as int, list@, 0, s as int) == out@ + marked_from(
                raw@,
                s as int,
                e as int,
                list@,
                i as int,
                from as int,
            ),
        decreases list@.len() - i,
    {
        let fp = list[i];
        let ghost before = out@;
        if fp as u64 >= s && (fp as u64) < e {
            push_bytes(
                &mut out,
                vstd::slice::slice_subrange(raw, from as usize, fp as usize),
            );
            let m = mark_for(fp);
            push_bytes(&mut out, &m);
            assert(before + (raw@.subrange(from as int, fp as int) + offset_mark(fp as int)
                + marked_from(raw@, s as int, e as int, list@, i + 1, fp as int)) =~= out@
                + marked_from(raw@, s as int, e as int, list@, i + 1, fp as int));
            from = fp as u64;
        }
        proof {
            if i + 1 < list@.len() && from != s {
                let k = choose|k: int| 0 <= k < i + 1 && list@[k] == from;
                assert(list@[k] < list@[i + 1]);
            }
        }
        i = i + 1;
    }
    push_bytes(&mut out, vstd::slice::slice_subrange(raw, from as usize, e as usize));
    out
}

/// Puts bytes in at a place.
fn insert_bytes(buf: &[u8], at: u128, more: &[u8]) -> (r: Vec<u8>)
    ensures
        r@ == put_in(buf@, at as int, more@),
{
    let k: usize = if at < buf.len() as u128 {
        at as usize
    } else {
        buf.len()
    };
    let mut out: Vec<u8> = Vec::new();
    push_bytes(&mut out, vstd::slice::slice_subrange(buf, 0, k));
    push_bytes(&mut out, more);
    push_bytes(&mut out, vstd::slice::slice_subrange(buf, k, buf.len()));
    assert(out@ =~= put_in(buf@, at as int, more@));
    out
}

/// A KF8 section put together.
pub fn assemble_section(raw: &[u8], s: &Kf8Section) -> (r: Vec<u8>)
    requires
        s.skel_offset <= u32::MAX,
        s.skel_length <= u32::MAX,
        frags_small(s.frags@),
    ensures
        r@ == chapter_bytes(
            raw@,
            Seq::empty(),
            Part::Kf8 {
                skel_offset: s.skel_offset as int,
                skel_length: s.skel_length as int,
                frags: s.frags@,
            },
        ),
{
    let base: u64 = s.skel_offset + s.skel_length;
    let ghost all = chapter_bytes(
        raw@,
        Seq::empty(),
        Part::Kf8 {
            skel_offset: s.skel_offset as int,
            skel_length: s.skel_length as int,
            frags: s.frags@,
        },
    );
    let mut buf: Vec<u8> = vstd::slice::slice_to_vec(clip(raw, s.skel_offset, base));
    let mut inserted: u128 = 0;
    let n = s.frags.len();
    let mut i: usize = 0;
    while i < n
        invariant
            i <= n,
            n == s.frags@.len(),
            frags_small(s.frags@),
            s.skel_offset <= u32::MAX,
            base == s.skel_offset + s.skel_length,
            base <= 0x2_0000_0000,
            inserted <= i * 0x1_0000_0000,
            all == frags_in(
                raw@,
                s.skel_offset as int,
                base as int,
                s.frags@,
                i as int,
                buf@,
                inserted as int,
            ),
        decreases n - i,
    {
        let f = s.frags[i];
        assert(s.frags@[i as int].offset <= u32::MAX && s.frags@[i as int].length <= u32::MAX);
        let at: u64 = if f.insert_offset > s.skel_offset {
            f.insert_offset - s.skel_offset
        } else {
            0
        };
        let start = base + f.offset;
        let end: u64 = if start + f.length < raw.len() as u64 {
            start + f.length
        } else {
            raw.len() as u64
        };
        let more = take_exactly(raw, start, end);
        assert(more@ == frag_bytes(raw@, base as int, f));
        assert(more@.len() <= f.length);
        assert(i * 0x1_0000_0000 <= 0xffff_ffff_ffff_ffff * 0x1_0000_0000) by (nonlinear_arith)
            requires
                0 <= i <= 0xffff_ffff_ffff_ffff,
        ;
        buf = insert_bytes(&buf, at as u128 + inserted, more);
        inserted = inserted + more.len() as u128;
        assert((i + 1) * 0x1_0000_0000 == i * 0x1_0000_0000 + 0x1_0000_0000) by (nonlinear_arith);
        i = i + 1;
    }
    buf
}

// ---------------------------------------------------------------------------
// The HTML of a chapter
// ---------------------------------------------------------------------------

/// The address of the resource with a number.
pub open spec fn rec_address(windows: bool, book_id: Seq<char>, n: int) -> Seq<char> {
    resource_origin(windows) + book_id + "/rec:"@ + decimal(n)
}

/// The record that an embedded resource of a KF8 text names: its number, in radix thirty-two,
/// counts from one. None where it is no such number.
pub open spec fn embedded_record(hex: Seq<char>, resource_start: int) -> Option<int> {
    match parsed(hex, 32, u64::MAX as int) {
        Some(id) => if id == 0 || resource_start + id - 1 > u64::MAX {
            None
        } else {
            Some(resource_start + id - 1)
        },
        None => None,
    }
}

/// What stands for an embedded resource of a KF8 text: the address of the resource, whose number
/// counts from zero.
pub open spec fn embed_text(m: Mobi, hex: Option<Seq<char>>) -> Seq<char> {
    match hex {
        Some(h) => match embedded_record(h, m.resource_start) {
            Some(record) => rec_address(m.windows, m.book_id, record - m.resource_start),
            None => Seq::empty(),
        },
        None => Seq::empty(),
    }
}

/// What stands for a reference to an image of an older text, whose number counts from one.
pub open spec fn recindex_text(m: Mobi, digits: Option<Seq<char>>) -> Seq<char> {
    match digits {
        Some(d) => match parsed(d, 10, u64::MAX as int) {
            Some(n) => if n == 0 {
                Seq::empty()
            } else {
                "src=\""@ + rec_address(m.windows, m.book_id, n - 1) + "\""@
            },
            None => Seq::empty(),
        },
        None => Seq::empty(),
    }
}

/// The HTML with its references to resources made addresses.
pub open spec fn linked_html(m: Mobi, html: Seq<char>, is_kf8: bool) -> Seq<char> {
    let found = regex_spans(
        if is_kf8 {
            KINDLE_EMBED@
        } else {
            RECINDEX@
        },
        html,
    );
    spliced(html, found, link_texts(m, html, found, is_kf8))
}

/// What stands for each of the references that were found.
pub open spec fn link_texts(m: Mobi, html: Seq<char>, found: Seq<Groups>, is_kf8: bool) -> Seq<
    Seq<char>,
> {
    Seq::new(
        found.len(),
        |i: int|
            if is_kf8 {
                embed_text(m, group_text(html, found[i], 1))
            } else {
                recindex_text(m, group_text(html, found[i], 1))
            },
    )
}

/// The HTML of a chapter.
pub open spec fn chapter_html(m: Mobi, index: int) -> Seq<char> {
    let text = mobi_text(chapter_bytes(m.raw, m.filepos, m.parts[index]), m.encoding);
    let html = without(text, regex_spans(PAGEBREAK_TAG@, text));
    mobi_html(linked_html(m, html, m.parts[index] is Kf8))
}

/// A chapter of an open book.
pub open spec fn mobi_chapter(m: Mobi, index: int) -> Result<Chapter, Failure> {
    if index < 0 || index >= m.parts.len() {
        Err(Failure::ChapterOutOfRange(index as u32))
    } else {
        Ok(
            Chapter {
                book_id: m.book_id,
                chapter_index: index as u32,
                title: if m.titles[index].len() > 0 {
                    m.titles[index]
                } else {
                    numbered_title(index)
                },
                kind: ChapterKind::Html,
                html: Some(chapter_html(m, index)),
                text: None,
                image_refs: None,
            },
        )
    }
}

// ---------------------------------------------------------------------------
// Resources
// ---------------------------------------------------------------------------

/// What kind of resource a record holds, and how many bytes of header it has.
pub open spec fn resource_kind(b: Seq<u8>) -> (int, Seq<char>) {
    if b[0] == 0xFF && b[1] == 0xD8 && b[2] == 0xFF {
        (0, "image/jpeg"@)
    } else if tagged(b, 0, 0x89, 0x50, 0x4E, 0x47) {
        (0, "image/png"@)
    } else if tagged(b, 0, 0x47, 0x49, 0x46, 0x38) {
        (0, "image/gif"@)
    } else if b[0] == 0x42 && b[1] == 0x4D {
        (0, "image/bmp"@)
    } else if tagged(b, 0, 0x46, 0x4F, 0x4E, 0x54) {
        (12, "font/ttf"@)
    } else if tagged(b, 0, 0x56, 0x49, 0x44, 0x45) || tagged(b, 0, 0x41, 0x55, 0x44, 0x49) {
        (12, "application/octet-stream"@)
    } else {
        (0, "application/octet-stream"@)
    }
}

/// The number that the path of a resource names.
pub open spec fn resource_number(path: Seq<char>) -> Option<int> {
    if starts(path, "rec:"@) {
        parsed(path.skip(4), 10, u64::MAX as int)
    } else {
        None
    }
}

/// What a record holds as a resource.
pub open spec fn resource_in(b: Seq<u8>, path: Seq<char>) -> Result<(Seq<char>, Seq<u8>), Failure> {
    if b.len() < 4 || b.len() < resource_kind(b).0 {
        Err(Failure::ResourceNotFound(path))
    } else {
        Ok((resource_kind(b).1, b.skip(resource_kind(b).0)))
    }
}

/// A resource of an open book: its media type and its bytes. A record too short for the header
/// that its first bytes announce is no resource.
pub open spec fn mobi_resource(m: Mobi, path: Seq<char>) -> Result<(Seq<char>, Seq<u8>), Failure> {
    match resource_number(path) {
        None => Err(Failure::ResourceNotFound(path)),
        Some(n) => if m.resource_start + n > u64::MAX {
            Err(Failure::ResourceNotFound(path))
        } else {
            match record_bytes(m.data, m.offsets, m.resource_start + n) {
                Err(e) => Err(e),
                Ok(b) => resource_in(b, path),
            }
        },
    }
}

/// A resource is found under its number: the path that an address with the number ends in leads
/// to the record that stands so far behind the first of the images.
pub proof fn a_number_leads_to_its_record(m: Mobi, n: int)
    requires
        0 <= n,
        0 <= m.resource_start,
        m.resource_start + n <= u64::MAX,
    ensures
        rec_address(m.windows, m.book_id, n) == resource_origin(m.windows) + m.book_id + "/"@ + (
        "rec:"@ + decimal(n)),
        mobi_resource(m, "rec:"@ + decimal(n)) == match record_bytes(
            m.data,
            m.offsets,
            m.resource_start + n,
        ) {
            Ok(b) => resource_in(b, "rec:"@ + decimal(n)),
            Err(e) => Err(e),
        },
{
    let path = "rec:"@ + decimal(n);
    reveal_strlit("rec:");
    reveal_strlit("/rec:");
    reveal_strlit("/");
    assert("/rec:"@ =~= "/"@ + "rec:"@);
    assert(rec_address(m.windows, m.book_id, n) =~= resource_origin(m.windows) + m.book_id + "/"@
        + path);
    reading_undoes_writing(n, 10, u64::MAX as int);
    assert(path.subrange(0, 4) =~= "rec:"@);
    assert(path.skip(4) =~= decimal(n));
}

/// An embedded resource of a KF8 text is found: where its number, in radix thirty-two, is `id`, it
/// becomes the address of the resource `id - 1`, and the path that the address ends in leads to the
/// record that stands `id - 1` behind the first of the images.
pub proof fn an_embedded_number_leads_to_its_record(m: Mobi, hex: Seq<char>, id: int)
    requires
        parsed(hex, 32, u64::MAX as int) == Some(id),
        id > 0,
        0 <= m.resource_start,
        m.resource_start + id - 1 <= u64::MAX,
    ensures
        embed_text(m, Some(hex)) == rec_address(m.windows, m.book_id, id - 1),
        embed_text(m, Some(hex)) == resource_origin(m.windows) + m.book_id + "/"@ + ("rec:"@
            + decimal(id - 1)),
        mobi_resource(m, "rec:"@ + decimal(id - 1)) == match record_bytes(
            m.data,
            m.offsets,
            m.resource_start + id - 1,
        ) {
            Ok(b) => resource_in(b, "rec:"@ + decimal(id - 1)),
            Err(e) => Err(e),
        },
{
    a_number_leads_to_its_record(m, id - 1);
}

impl MobiBook {
    /// How many chapters the book has.
    pub fn chapter_count(&self) -> (r: usize)
        ensures
            r == self.deep_view().parts.len(),
    {
        self.sections.len()
    }

    /// The record that holds the `n`-th resource.
    pub fn resource_record(&self, n: u64) -> (r: u64)
        requires
            self.resource_start + n <= u64::MAX,
        ensures
            r == self.resource_start + n,
    {
        self.resource_start + n
    }

    /// The address of the resource with a number.
    pub fn resource_url(&self, n: u64) -> (r: Vec<char>)
        ensures
            r@ == rec_address(self.windows, self.book_id@, n as int),
    {
        let mut out = chars_of(origin(self.windows));
        push_str(&mut out, self.book_id.as_str());
        push_str(&mut out, "/rec:");
        let d = write_decimal(n);
        push_all(&mut out, &d);
        out
    }

    /// The record that an embedded resource of a KF8 text names.
    pub fn kindle_embed_record(&self, hex: &[char]) -> (r: Option<u64>)
        ensures
            match r {
                Some(n) => embedded_record(hex@, self.resource_start as int) == Some(n as int) && n
                    >= self.resource_start,
                None => embedded_record(hex@, self.resource_start as int) is None,
            },
    {
        match parse(hex, 32, u64::MAX) {
            Some(id) => {
                if id == 0 || id - 1 > u64::MAX - self.resource_start {
                    None
                } else {
                    Some(self.resource_record(id - 1))
                }
            },
            None => None,
        }
    }

    fn embed_for(&self, hex: Option<Vec<char>>) -> (r: Vec<char>)
        ensures
            r@ == embed_text(
                self.deep_view(),
                match hex {
                    Some(h) => Some(h@),
                    None => None,
                },
            ),
    {
        let none: Vec<char> = Vec::new();
        assert(none@ =~= Seq::empty());
        match hex {
            Some(h) => match self.kindle_embed_record(&h) {
                Some(record) => self.resource_url(record - self.resource_start),
                None => none,
            },
            None => none,
        }
    }

    fn recindex_for(&self, digits: Option<Vec<char>>) -> (r: Vec<char>)
        ensures
            r@ == recindex_text(
                self.deep_view(),
                match digits {
                    Some(d) => Some(d@),
                    None => None,
                },
            ),
    {
        let none: Vec<char> = Vec::new();
        assert(none@ =~= Seq::empty());
        match digits {
            Some(d) => match parse_decimal(&d, u64::MAX) {
                Some(n) => {
                    if n == 0 {
                        none
                    } else {
                        let mut out = chars_of("src=\"");
                        let u = self.resource_url(n - 1);
                        push_all(&mut out, &u);
                        push_str(&mut out, "\"");
                        out
                    }
                },
                None => none,
            },
            None => none,
        }
    }

    /// The HTML with the references that were found made addresses.
    pub fn link_resources(
        &self,
        html: &[char],
        found: &Vec<Vec<Option<(usize, usize)>>>,
        is_kf8: bool,
    ) -> (r: Vec<char>)
        requires
            in_order(ints(found@), html@.len() as int),
        ensures
            r@ == spliced(
                html@,
                ints(found@),
                link_texts(self.deep_view(), html@, ints(found@), is_kf8),
            ),
    {
        let ghost want = link_texts(self.deep_view(), html@, ints(found@), is_kf8);
        let mut with: Vec<Vec<char>> = Vec::new();
        let mut i: usize = 0;
        while i < found.len()
            invariant
                i <= found@.len(),
                in_order(ints(found@), html@.len() as int),
                want == link_texts(self.deep_view(), html@, ints(found@), is_kf8),
                with@.len() == i,
                forall|k: int| 0 <= k < i ==> (#[trigger] with@[k])@ == want[k],
            decreases found@.len() - i,
        {
            proof {
                row_of(found@, i as int, html@.len() as int);
            }
            let g = group(html, &found[i], 1);
            let t = if is_kf8 {
                self.embed_for(g)
            } else {
                self.recindex_for(g)
            };
            with.push(t);
            i = i + 1;
        }
        assert(texts(with@) =~= want);
        splice(html, found, &with)
    }

    /// The bytes of a chapter.
    fn section_bytes(&self, index: usize) -> (r: Vec<u8>)
        requires
            self.wf(),
            index < self.sections@.len(),
        ensures
            r@ == chapter_bytes(
                self.raw@,
                self.filepos_list@,
                self.sections.deep_view()[index as int],
            ),
    {
        assert(self.sections.deep_view()[index as int]
            == self.sections@[index as int].deep_view());
        assert(part_within(self.sections.deep_view()[index as int], self.raw@.len() as int));
        assert(part_small(self.sections.deep_view()[index as int]));
        match &self.sections[index] {
            Section::Range { start, end } => mark_offsets(
                &self.raw,
                *start,
                *end,
                &self.filepos_list,
            ),
            Section::Kf8(s) => assemble_section(&self.raw, s),
        }
    }

    /// A chapter: its bytes put together and decoded, page breaks taken out, references to
    /// resources made addresses, and the whole cleaned.
    pub fn load_chapter(&self, index: usize) -> (r: AppResult<ChapterContent>)
        requires
            self.wf(),
        ensures
            match r {
                Ok(c) => mobi_chapter(self.deep_view(), index as int) == Ok::<Chapter, Failure>(
                    c.deep_view(),
                ),
                Err(e) => mobi_chapter(self.deep_view(), index as int) == Err::<Chapter, Failure>(
                    e@,
                ),
            },
    {
        if index >= self.sections.len() {
            return Err(AppError::ChapterOutOfRange(index as u32));
        }
        let bytes = self.section_bytes(index);
        let text = decode_bytes(&bytes, self.encoding);
        let html = remove(PAGEBREAK_TAG, &text);
        assert(self.sections.deep_view()[index as int]
            == self.sections@[index as int].deep_view());
        let is_kf8 = match &self.sections[index] {
            Section::Range { start: _, end: _ } => false,
            Section::Kf8(_) => true,
        };
        let found = if is_kf8 {
            spans(KINDLE_EMBED, &html)
        } else {
            spans(RECINDEX, &html)
        };
        let linked = self.link_resources(&html, &found, is_kf8);
        let cleaned = sanitize_mobi_html(string_of(&linked).as_str());
        let title = if self.title_fallbacks[index].as_str().is_empty() {
            around_number("第 ", (index as u64) + 1, " 节")
        } else {
            self.title_fallbacks[index].clone()
        };
        let c = ChapterContent {
            book_id: self.book_id.clone(),
            chapter_index: index as u32,
            title,
            kind: ChapterKind::Html,
            html: Some(cleaned),
            text: None,
            image_refs: None,
        };
        proof {
            let m = self.deep_view();
            assert(m.titles[index as int] == self.title_fallbacks@[index as int]@);
            assert(c.deep_view().html == Some(chapter_html(m, index as int)));
            assert(Ok::<Chapter, Failure>(c.deep_view()) =~= mobi_chapter(m, index as int));
        }
        Ok(c)
    }

    /// A resource, by its path `rec:` and a number: its media type and its bytes.
    pub fn load_resource_bytes(&self, path: &str) -> (r: AppResult<(String, Vec<u8>)>)
        ensures
            match r {
                Ok((mime, bytes)) => mobi_resource(self.deep_view(), path@) == Ok::<
                    (Seq<char>, Seq<u8>),
                    Failure,
                >((mime@, bytes@)),
                Err(e) => mobi_resource(self.deep_view(), path@) == Err::<
                    (Seq<char>, Seq<u8>),
                    Failure,
                >(e@),
            },
    {
        let p = chars_of(path);
        let prefix = chars_of("rec:");
        proof {
            reveal_strlit("rec:");
        }
        let n: Option<u64> = if is_at(&p, 0, &prefix) {
            let d = part(&p, 4, p.len());
            assert(d@ =~= p@.skip(4));
            parse_decimal(&d, u64::MAX)
        } else {
            None
        };
        let n: u64 = match n {
            Some(n) => n,
            None => {
                return Err(AppError::ResourceNotFound(path.to_owned()));
            },
        };
        if n > u64::MAX - self.resource_start {
            return Err(AppError::ResourceNotFound(path.to_owned()));
        }
        let b = match self.pdb.record(self.resource_record(n)) {
            Ok(b) => b,
            Err(e) => {
                return Err(e);
            },
        };
        if b.len() < 4 {
            return Err(AppError::ResourceNotFound(path.to_owned()));
        }
        let (skip, mime) = kind_of_resource(b);
        if b.len() < skip {
            return Err(AppError::ResourceNotFound(path.to_owned()));
        }
        let rest = vstd::slice::slice_to_vec(vstd::slice::slice_subrange(b, skip, b.len()));
        assert(rest@ =~= b@.skip(skip as int));
        Ok((mime.to_owned(), rest))
    }
}

fn kind_of_resource(b: &[u8]) -> (r: (usize, &'static str))
    requires
        b@.len() >= 4,
    ensures
        (r.0 as int, r.1@) == resource_kind(b@),
{
    if b[0] == 0xFF && b[1] == 0xD8 && b[2] == 0xFF {
        (0, "image/jpeg")
    } else if has_tag(b, 0, 0x89, 0x50, 0x4E, 0x47) {
        (0, "image/png")
    } else if has_tag(b, 0, 0x47, 0x49, 0x46, 0x38) {
        (0, "image/gif")
    } else if b[0] == 0x42 && b[1] == 0x4D {
        (0, "image/bmp")
    } else if has_tag(b, 0, 0x46, 0x4F, 0x4E, 0x54) {
        (12, "font/ttf")
    } else if has_tag(b, 0, 0x56, 0x49, 0x44, 0x45) || has_tag(b, 0, 0x41, 0x55, 0x44, 0x49) {
        (12, "application/octet-stream")
    } else {
        (0, "application/octet-stream")
    }
}

// ---------------------------------------------------------------------------
// The cover of a book that is not opened
// ---------------------------------------------------------------------------

/// A record that may hold a cover is this large at most.
pub const MAX_COVER_RECORD: u64 = 20971520;

/// A record of a file of which only the cover is wanted.
pub open spec fn cover_record(data: Seq<u8>, index: int) -> Result<Seq<u8>, Failure> {
    let count = be16(data, 76);
    if index >= count {
        Err(Failure::Other("MOBI 封面记录越界"@))
    } else {
        let start = be32(data, 78 + index * 8);
        let end = if index + 1 < count {
            be32(data, 78 + (index + 1) * 8)
        } else {
            data.len() as int
        };
        if start < 78 + count * 8 || end <= start || end > data.len() || end - start
            > MAX_COVER_RECORD {
            Err(Failure::Other("MOBI 封面记录偏移或大小异常"@))
        } else {
            Ok(data.subrange(start, end))
        }
    }
}

/// The cover that the EXTH records of a header point to, the images starting at a record.
pub open spec fn cover_by(data: Seq<u8>, exth: Seq<(u32, Exth)>, images: int) -> Result<
    Option<Seq<u8>>,
    Failure,
> {
    match cover_number(exth) {
        Some(n) => match cover_record(data, images + n) {
            Ok(b) => Ok(Some(b)),
            Err(e) => Err(e),
        },
        None => Ok(None),
    }
}

/// The cover of a file: where it holds a second, newer text, that one's header names the cover,
/// counted from the images of the first.
pub open spec fn mobi_cover(data: Seq<u8>) -> Result<Option<Seq<u8>>, Failure> {
    if data.len() < 78 {
        Err(Failure::Io("failed to fill whole buffer"@))
    } else if be16(data, 76) == 0 {
        Ok(None)
    } else if data.len() < 78 + be16(data, 76) * 8 {
        Err(Failure::Io("failed to fill whole buffer"@))
    } else {
        match cover_record(data, 0) {
            Err(e) => Err(e),
            Ok(first) => if !has_mobi(first) {
                Ok(None)
            } else if be16(first, 12) != 0 {
                Err(Failure::DrmDetected)
            } else {
                let images = be32(first, OFF_FIRST_IMAGE as int);
                let boundary = exth_number(exth_of(first), EXTH_BOUNDARY);
                if be32(first, OFF_FILE_VERSION as int) < 8 && boundary is Some && 0
                    < boundary.unwrap() < u32::MAX {
                    match cover_record(data, boundary.unwrap() as int) {
                        Err(e) => Err(e),
                        Ok(second) => if !has_mobi(second) {
                            cover_by(data, exth_of(first), images)
                        } else if be16(second, 12) != 0 {
                            Err(Failure::DrmDetected)
                        } else {
                            cover_by(data, exth_of(second), images)
                        },
                    }
                } else {
                    cover_by(data, exth_of(first), images)
                }
            },
        }
    }
}

fn read_cover_record(data: &[u8], index: u64) -> (r: AppResult<&[u8]>)
    ensures
        match r {
            Ok(b) => cover_record(data@, index as int) == Ok::<Seq<u8>, Failure>(b@),
            Err(e) => cover_record(data@, index as int) == Err::<Seq<u8>, Failure>(e@),
        },
{
    let count = u16_at(data, 76) as u64;
    if index >= count {
        return Err(AppError::other("MOBI 封面记录越界"));
    }
    let start = u32_at(data, 78 + index * 8) as u64;
    let end: u64 = if index + 1 < count {
        u32_at(data, 78 + (index + 1) * 8) as u64
    } else {
        data.len() as u64
    };
    if start < 78 + count * 8 || end <= start || end > data.len() as u64 || end - start
        > MAX_COVER_RECORD {
        return Err(AppError::other("MOBI 封面记录偏移或大小异常"));
    }
    Ok(vstd::slice::slice_subrange(data, start as usize, end as usize))
}

fn read_cover_by(data: &[u8], exth: &Vec<(u32, ExthValue)>, images: u64) -> (r: AppResult<
    Option<Vec<u8>>,
>)
    requires
        images <= u32::MAX,
    ensures
        match r {
            Ok(Some(b)) => cover_by(data@, exth.deep_view(), images as int) == Ok::<
                Option<Seq<u8>>,
                Failure,
            >(Some(b@)),
            Ok(None) => cover_by(data@, exth.deep_view(), images as int) == Ok::<
                Option<Seq<u8>>,
                Failure,
            >(None),
            Err(e) => cover_by(data@, exth.deep_view(), images as int) == Err::<
                Option<Seq<u8>>,
                Failure,
            >(e@),
        },
{
    match cover_offset(exth) {
        Some(n) => match read_cover_record(data, images + n as u64) {
            Ok(b) => Ok(Some(vstd::slice::slice_to_vec(b))),
            Err(e) => Err(e),
        },
        None => Ok(None),
    }
}

/// The cover of a file, without opening the book in it.
pub fn extract_cover(data: &[u8]) -> (r: AppResult<Option<Vec<u8>>>)
    ensures
        match r {
            Ok(Some(b)) => mobi_cover(data@) == Ok::<Option<Seq<u8>>, Failure>(Some(b@)),
            Ok(None) => mobi_cover(data@) == Ok::<Option<Seq<u8>>, Failure>(None),
            Err(e) => mobi_cover(data@) == Err::<Option<Seq<u8>>, Failure>(e@),
        },
{
    if data.len() < 78 {
        return Err(AppError::Io("failed to fill whole buffer".to_owned()));
    }
    let count = u16_at(data, 76) as u64;
    if count == 0 {
        return Ok(None);
    }
    if (data.len() as u64) < 78 + count * 8 {
        return Err(AppError::Io("failed to fill whole buffer".to_owned()));
    }
    let first = match read_cover_record(data, 0) {
        Ok(b) => b,
        Err(e) => {
            return Err(e);
        },
    };
    if !has_tag(first, 16, 0x4d, 0x4f, 0x42, 0x49) {
        return Ok(None);
    }
    if u16_at(first, 12) != 0 {
        return Err(AppError::DrmDetected);
    }
    let images = u32_at(first, OFF_FIRST_IMAGE) as u64;
    let exth = read_exth(first);
    if u32_at(first, OFF_FILE_VERSION) < 8 {
        if let Some(b) = get_exth_number(&exth, EXTH_BOUNDARY) {
            if b > 0 && b < u32::MAX {
                let second = match read_cover_record(data, b as u64) {
                    Ok(r) => r,
                    Err(e) => {
                        return Err(e);
                    },
                };
                if has_tag(second, 16, 0x4d, 0x4f, 0x42, 0x49) {
                    if u16_at(second, 12) != 0 {
                        return Err(AppError::DrmDetected);
                    }
                    let newer = read_exth(second);
                    return read_cover_by(data, &newer, images);
                }
            }
        }
    }
    read_cover_by(data, &exth, images)
}

} // verus!
