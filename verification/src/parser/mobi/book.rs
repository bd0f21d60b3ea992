//! A Mobipocket book: opening it, and its chapters and resources.
use vstd::prelude::*;
use crate::error::{around_number, with_number, AppError, AppResult, Failure};
use crate::model::{toc_children_view, BookFormat, BookMeta, Meta, Toc, TocItem};
use crate::numbers::{decimal, parse};
use crate::parser::mobi::head::{
    choose_head, chosen_head, cover_number, cover_offset, exth_text, get_exth_text, has_mobi,
    read_text, text_of, Head, HeadView, EXTH_AUTHOR, EXTH_LANGUAGE, EXTH_PUBLISHER, EXTH_TITLE,
    OFF_FILE_VERSION,
};
use crate::parser::mobi::index::{get_ncx, index_of, ncx_items, Ncx, NcxItem};
use crate::parser::mobi::layout::{
    kf8_layout, link_offsets, part_small, part_within, parts_small, parts_within, ranges,
    ranges_within, read_kf8_layout, read_link_offsets, skel_within, skeletons_within, skels_within,
    split_at_breaks, Layout,
};
use crate::parser::mobi::pdb::{
    be32, clip, clipped, has_tag, record_bytes, record_offsets, tagged, u32_at, Pdb,
};
use crate::parser::mobi::toc::{
    build_toc_from_guide, build_toc_from_ncx, guide_toc, heading_title, ncx_places,
    ncx_toc, section_fallback_title, Part, Section,
};
use crate::parser::{
    file_id, make_book_id, oversized, oversized_error, path_title, title_from_path,
    unescape_entities, unescaped, BookFile, FileView,
};
use crate::regexes::{byte_matches, in_order, regex_byte_spans, FILEPOS_BYTES, PAGEBREAK_BYTES};
use crate::sorting::{
    sort_dedup, sorted_set, sorted_set_is_the_set, strictly_ascending,
};
use crate::text::part;
use crate::views::{deep_empty, deep_push};

verus! {

/// A Mobipocket file may be this large.
pub const MAX_MOBI_FILE_SIZE: u64 = 524288000;

/// An open Mobipocket book.
pub struct MobiBook {
    pub book_id: String,
    pub windows: bool,
    pub pdb: Pdb,
    pub resource_start: u64,
    pub encoding: u64,
    pub raw: Vec<u8>,
    pub sections: Vec<Section>,
    pub filepos_list: Vec<u32>,
    pub title_fallbacks: Vec<String>,
}

/// `MobiBook` over sequences.
#[verifier::ext_equal]
pub struct Mobi {
    pub book_id: Seq<char>,
    pub windows: bool,
    pub data: Seq<u8>,
    pub offsets: Seq<u32>,
    pub resource_start: int,
    pub encoding: int,
    pub raw: Seq<u8>,
    pub parts: Seq<Part>,
    pub filepos: Seq<u32>,
    pub titles: Seq<Seq<char>>,
}

impl DeepView for MobiBook {
    type V = Mobi;

    open spec fn deep_view(&self) -> Mobi {
        Mobi {
            book_id: self.book_id@,
            windows: self.windows,
            data: self.pdb.data@,
            offsets: self.pdb.offsets@,
            resource_start: self.resource_start as int,
            encoding: self.encoding as int,
            raw: self.raw@,
            parts: self.sections.deep_view(),
            filepos: self.filepos_list@,
            titles: self.title_fallbacks.deep_view(),
        }
    }
}

// ---------------------------------------------------------------------------
// Opening
// ---------------------------------------------------------------------------

/// The second record marks a print replica, which holds a PDF.
pub open spec fn is_print_replica(data: Seq<u8>, offsets: Seq<u32>) -> bool {
    match record_bytes(data, offsets, 1) {
        Ok(b) => tagged(b, 0, 0x25, 0x4d, 0x4f, 0x50),
        Err(_) => false,
    }
}

/// The version of the text whose header is a record.
pub open spec fn version_of(rec: Seq<u8>) -> int {
    if has_mobi(rec) {
        be32(rec, OFF_FILE_VERSION as int)
    } else {
        0
    }
}

/// The bytes of a part in which its title is looked for.
pub open spec fn part_text(raw: Seq<u8>, part: Part) -> Seq<u8> {
    match part {
        Part::Range { start, end } => clipped(raw, start, end),
        Part::Kf8 { skel_offset, skel_length, frags } => clipped(
            raw,
            skel_offset,
            skel_offset + skel_length,
        ),
    }
}

/// The titles of the parts.
pub open spec fn part_titles(raw: Seq<u8>, parts: Seq<Part>, encoding: int) -> Seq<Seq<char>> {
    parts.map_values(|p: Part| heading_title(part_text(raw, p), encoding))
}

/// The name of a chapter without a title.
pub open spec fn numbered_title(index: int) -> Seq<char> {
    "第 "@ + decimal(index + 1) + " 节"@
}

/// The table of contents of a book that has none: its parts by their titles.
pub open spec fn plain_toc(titles: Seq<Seq<char>>) -> Seq<Toc> {
    Seq::new(
        titles.len(),
        |i: int|
            Toc {
                id: "mb-"@ + decimal(i),
                label: if titles[i].len() == 0 {
                    numbered_title(i)
                } else {
                    titles[i]
                },
                chapter_index: i as u32,
                anchor: None,
                children: Seq::empty(),
            },
    )
}

/// The offsets that the items of an index lead to.
pub open spec fn item_offsets(items: Seq<Ncx>, n: int) -> Seq<u32>
    decreases n,
{
    if n <= 0 {
        Seq::empty()
    } else {
        match items[n - 1].filepos {
            Some(fp) => item_offsets(items, n - 1).push(fp),
            None => item_offsets(items, n - 1),
        }
    }
}

/// The items of the index of contents, where the header names one and it can be read.
pub open spec fn contents_of(data: Seq<u8>, offsets: Seq<u32>, head: HeadView, start: int) -> Option<
    Seq<Ncx>,
> {
    if head.indx < 0xffff_ffff {
        match index_of(data, offsets, start + head.indx) {
            Ok((table, labels)) => Some(ncx_items(table, labels)),
            Err(_) => None,
        }
    } else {
        None
    }
}

/// What is known of the book.
pub open spec fn mobi_meta(
    file: FileView,
    format: BookFormat,
    head: HeadView,
    chapters: int,
) -> Meta {
    Meta {
        id: file_id(file),
        title: match exth_text(head.exth, EXTH_TITLE) {
            Some(t) => unescaped(t),
            None => match head.embedded_title {
                Some(t) => unescaped(t),
                None => path_title(file.windows, file.path),
            },
        },
        author: match exth_text(head.exth, EXTH_AUTHOR) {
            Some(t) => Some(unescaped(t)),
            None => None,
        },
        publisher: exth_text(head.exth, EXTH_PUBLISHER),
        language: exth_text(head.exth, EXTH_LANGUAGE),
        format,
        file_size: file.size,
        file_path: file.path,
        total_chapters: chapters as u32,
        cover_resource: match cover_number(head.exth) {
            Some(n) => Some("rec:"@ + decimal(n as int)),
            None => None,
        },
    }
}

/// The parts of a text: those of its skeletons, or the ranges between page breaks where there
/// are none.
pub open spec fn parts_of(raw: Seq<u8>, kf8: Seq<Part>) -> Seq<Part> {
    if kf8.len() == 0 {
        ranges(regex_byte_spans(PAGEBREAK_BYTES@, raw), raw.len() as int)
    } else {
        kf8
    }
}

/// The offsets into the text at which anchors are put: those that links lead to, in a text that
/// falls into ranges, and those that the index of contents leads to.
pub open spec fn anchors_of(raw: Seq<u8>, kf8: Seq<Part>, items: Option<Seq<Ncx>>) -> Seq<u32> {
    let own = if kf8.len() == 0 {
        sorted_set(link_offsets(raw, regex_byte_spans(FILEPOS_BYTES@, raw), 0))
    } else {
        Seq::empty()
    };
    match items {
        Some(items) => sorted_set(own + item_offsets(items, items.len() as int)),
        None => own,
    }
}

/// The table of contents: of the index, else of the guide, else by titles.
pub open spec fn toc_of(
    raw: Seq<u8>,
    encoding: int,
    is_kf8: bool,
    parts: Seq<Part>,
    info: Seq<(u32, u64, u64)>,
    items: Option<Seq<Ncx>>,
    anchors: Seq<u32>,
) -> Seq<Toc> {
    let indexed = match items {
        Some(items) => ncx_toc(items, ncx_places(items, is_kf8, parts, info, raw, encoding)),
        None => Seq::empty(),
    };
    let guided = if indexed.len() == 0 && !is_kf8 {
        guide_toc(raw, encoding, parts, anchors)
    } else {
        indexed
    };
    if guided.len() == 0 {
        plain_toc(part_titles(raw, parts, encoding))
    } else {
        guided
    }
}

/// The book, once its text and its sections are there.
pub open spec fn assembled(
    file: FileView,
    data: Seq<u8>,
    offsets: Seq<u32>,
    format: BookFormat,
    head: HeadView,
    start: int,
    images: int,
    raw: Seq<u8>,
    is_kf8: bool,
    kf8: Seq<Part>,
    info: Seq<(u32, u64, u64)>,
) -> (Meta, Seq<Toc>, Mobi) {
    let parts = parts_of(raw, kf8);
    let items = contents_of(data, offsets, head, start);
    let anchors = anchors_of(raw, kf8, items);
    (
        mobi_meta(file, format, head, parts.len() as int),
        toc_of(raw, head.encoding as int, is_kf8, parts, info, items, anchors),
        Mobi {
            book_id: file_id(file),
            windows: file.windows,
            data,
            offsets,
            resource_start: images,
            encoding: head.encoding as int,
            raw,
            parts,
            filepos: anchors,
            titles: part_titles(raw, parts, head.encoding as int),
        },
    )
}

/// What opening a file as a Mobipocket book gives.
pub open spec fn mobi_opened(file: FileView, data: Seq<u8>, format: BookFormat) -> Result<
    (Meta, Seq<Toc>, Mobi),
    Failure,
> {
    if file.size > MAX_MOBI_FILE_SIZE {
        Err(oversized("MOBI"@, file.size, "500"@))
    } else {
        match record_offsets(data) {
            Err(e) => Err(e),
            Ok(offsets) => if is_print_replica(data, offsets) {
                Err(Failure::Other("Print Replica / AZW4（PDF 包装）暂不支持"@))
            } else {
                match chosen_head(data, offsets, format) {
                    Err(e) => Err(e),
                    Ok((head, start, images)) => match record_bytes(data, offsets, start) {
                        Err(e) => Err(e),
                        Ok(rec) => match text_of(data, offsets, head, start) {
                            Err(e) => Err(e),
                            Ok(raw) => {
                                let is_kf8 = version_of(rec) >= 8;
                                let layout = if is_kf8 {
                                    kf8_layout(data, offsets, start, rec)
                                } else {
                                    Ok((Seq::empty(), Seq::empty()))
                                };
                                match layout {
                                    Err(e) => Err(e),
                                    Ok((kf8, info)) => if !skels_within(kf8, raw.len() as int) {
                                        Err(Failure::Other("KF8 骨架偏移异常"@))
                                    } else {
                                        Ok(
                                            assembled(
                                                file,
                                                data,
                                                offsets,
                                                format,
                                                head,
                                                start,
                                                images,
                                                raw,
                                                is_kf8,
                                                kf8,
                                                info,
                                            ),
                                        )
                                    },
                                }
                            },
                        },
                    },
                }
            },
        }
    }
}

fn read_meta(file: &BookFile, format: BookFormat, head: &Head, chapters: usize) -> (r: BookMeta)
    ensures
        r.deep_view() == mobi_meta(
            file.deep_view(),
            format,
            head.deep_view(),
            chapters as int,
        ),
{
    let title = match get_exth_text(&head.exth, EXTH_TITLE) {
        Some(t) => unescape_entities(t.as_str()),
        None => match &head.embedded_title {
            Some(t) => unescape_entities(t.as_str()),
            None => title_from_path(file.windows, file.path.as_str()),
        },
    };
    let author: Option<String> = match get_exth_text(&head.exth, EXTH_AUTHOR) {
        Some(t) => Some(unescape_entities(t.as_str())),
        None => None,
    };
    let cover_resource: Option<String> = match cover_offset(&head.exth) {
        Some(n) => Some(with_number("rec:", n as u64)),
        None => None,
    };
    let r = BookMeta {
        id: make_book_id(file.canonical.as_str(), file.size),
        title,
        author,
        publisher: get_exth_text(&head.exth, EXTH_PUBLISHER),
        language: get_exth_text(&head.exth, EXTH_LANGUAGE),
        format,
        file_size: file.size,
        file_path: file.path.clone(),
        total_chapters: chapters as u32,
        cover_resource,
    };
    assert(r.deep_view() =~= mobi_meta(
        file.deep_view(),
        format,
        head.deep_view(),
        chapters as int,
    ));
    r
}

fn read_titles(raw: &Vec<u8>, sections: &Vec<Section>, encoding: u64) -> (r: Vec<String>)
    requires
        parts_small(sections.deep_view()),
    ensures
        r.deep_view() == part_titles(raw@, sections.deep_view(), encoding as int),
        r@.len() == sections@.len(),
{
    let ghost want = part_titles(raw@, sections.deep_view(), encoding as int);
    let mut out: Vec<String> = Vec::new();
    proof {
        deep_empty(out);
        assert(want.take(0) =~= Seq::empty());
    }
    let mut i: usize = 0;
    while i < sections.len()
        invariant
            i <= sections@.len(),
            parts_small(sections.deep_view()),
            want == part_titles(raw@, sections.deep_view(), encoding as int),
            out@.len() == i,
            out.deep_view() == want.take(i as int),
        decreases sections@.len() - i,
    {
        assert(sections.deep_view()[i as int] == sections@[i as int].deep_view());
        assert(part_small(sections.deep_view()[i as int]));
        let bytes = match &sections[i] {
            Section::Range { start, end } => clip(raw, *start, *end),
            Section::Kf8(s) => clip(raw, s.skel_offset, s.skel_offset + s.skel_length),
        };
        let title = section_fallback_title(bytes, encoding);
        let ghost before = out;
        out.push(title);
        proof {
            deep_push(before, title, out);
            crate::views::take_push(want, i as int);
        }
        i = i + 1;
    }
    assert(want.take(i as int) =~= want);
    out
}

/// The table of contents of a book that has none.
pub fn toc_by_titles(titles: &Vec<String>) -> (r: Vec<TocItem>)
    ensures
        r.deep_view() == plain_toc(titles.deep_view()),
{
    let ghost want = plain_toc(titles.deep_view());
    let mut out: Vec<TocItem> = Vec::new();
    proof {
        deep_empty(out);
        assert(want.take(0) =~= Seq::empty());
    }
    let mut i: usize = 0;
    while i < titles.len()
        invariant
            i <= titles@.len(),
            want == plain_toc(titles.deep_view()),
            out.deep_view() == want.take(i as int),
        decreases titles@.len() - i,
    {
        let label = if titles[i].as_str().is_empty() {
            around_number("第 ", (i as u64) + 1, " 节")
        } else {
            titles[i].clone()
        };
        let node = TocItem {
            id: with_number("mb-", i as u64),
            label,
            chapter_index: i as u32,
            anchor: None,
            children: Vec::new(),
        };
        let ghost before = out;
        out.push(node);
        proof {
            toc_children_view(node);
            deep_empty(node.children);
            deep_push(before, node, out);
            crate::views::take_push(want, i as int);
            assert(node.deep_view() =~= want[i as int]);
        }
        i = i + 1;
    }
    assert(want.take(i as int) =~= want);
    out
}

fn read_item_offsets(items: &Vec<NcxItem>, own: Vec<u32>) -> (r: Vec<u32>)
    ensures
        r@ == own@ + item_offsets(items.deep_view(), items@.len() as int),
{
    let ghost iv = items.deep_view();
    let mut out = own;
    assert(own@ + Seq::<u32>::empty() =~= own@);
    let mut i: usize = 0;
    while i < items.len()
        invariant
            i <= items@.len(),
            iv == items.deep_view(),
            out@ == own@ + item_offsets(iv, i as int),
        decreases items@.len() - i,
    {
        assert(iv[i as int] == items@[i as int].deep_view());
        if let Some(fp) = items[i].filepos {
            out.push(fp);
            assert(out@ =~= own@ + item_offsets(iv, i + 1));
        }
        i = i + 1;
    }
    out
}

fn has_print_replica(pdb: &Pdb) -> (r: bool)
    ensures
        r == is_print_replica(pdb.data@, pdb.offsets@),
{
    match pdb.record(1) {
        Ok(b) => has_tag(b, 0, 0x25, 0x4d, 0x4f, 0x50),
        Err(_) => false,
    }
}

fn read_contents(pdb: &Pdb, head: &Head, start: u64) -> (r: Option<Vec<NcxItem>>)
    requires
        start <= u32::MAX,
        head.indx <= u32::MAX,
    ensures
        match r {
            Some(v) => contents_of(pdb.data@, pdb.offsets@, head.deep_view(), start as int) == Some(
                v.deep_view(),
            ),
            None => contents_of(
                pdb.data@,
                pdb.offsets@,
                head.deep_view(),
                start as int,
            ) is None,
        },
{
    if head.indx >= 0xffff_ffff {
        return None;
    }
    match get_ncx(pdb, start, head.indx) {
        Ok(items) => Some(items),
        Err(_) => None,
    }
}

/// Every range and skeleton in the book lies within its text.
proof fn parts_of_within(raw: Seq<u8>, kf8: Seq<Part>)
    requires
        skels_within(kf8, raw.len() as int),
        parts_small(kf8),
        forall|k: int| 0 <= k < kf8.len() ==> (#[trigger] kf8[k]) is Kf8,
        in_order(regex_byte_spans(PAGEBREAK_BYTES@, raw), raw.len() as int),
    ensures
        parts_within(parts_of(raw, kf8), raw.len() as int),
        parts_small(parts_of(raw, kf8)),
{
    if kf8.len() == 0 {
        ranges_within(regex_byte_spans(PAGEBREAK_BYTES@, raw), raw.len() as int);
    } else {
        assert forall|k: int| 0 <= k < kf8.len() implies part_within(
            #[trigger] kf8[k],
            raw.len() as int,
        ) by {
            assert(skel_within(kf8[k], raw.len() as int));
            assert(part_small(kf8[k]));
        }
    }
}

impl MobiBook {
    /// The parts lie within the text, the anchors ascend, and every part has a title.
    pub open spec fn wf(&self) -> bool {
        &&& parts_within(self.sections.deep_view(), self.raw@.len() as int)
        &&& parts_small(self.sections.deep_view())
        &&& strictly_ascending(self.filepos_list@)
        &&& self.title_fallbacks@.len() == self.sections@.len()
        &&& self.resource_start <= u32::MAX
    }

    /// Opens a file, given its bytes, as a Mobipocket book. Beside the errors of the format
    /// itself, a text whose compression is damaged is refused, and a skeleton that starts
    /// outside the text.
    pub fn open(file: &BookFile, data: Vec<u8>, format: BookFormat) -> (r: AppResult<
        (BookMeta, Vec<TocItem>, MobiBook),
    >)
        ensures
            match r {
                Ok((meta, toc, book)) => book.wf() && mobi_opened(
                    file.deep_view(),
                    data@,
                    format,
                ) == Ok::<(Meta, Seq<Toc>, Mobi), Failure>(
                    (meta.deep_view(), toc.deep_view(), book.deep_view()),
                ),
                Err(e) => mobi_opened(file.deep_view(), data@, format) == Err::<
                    (Meta, Seq<Toc>, Mobi),
                    Failure,
                >(e@),
            },
    {
        if file.size > MAX_MOBI_FILE_SIZE {
            return Err(oversized_error("MOBI", file.size, "500"));
        }
        let pdb = match Pdb::parse(data) {
            Ok(p) => p,
            Err(e) => {
                return Err(e);
            },
        };
        if has_print_replica(&pdb) {
            return Err(AppError::other("Print Replica / AZW4（PDF 包装）暂不支持"));
        }
        let (head, start, images) = match choose_head(&pdb, format) {
            Ok(h) => h,
            Err(e) => {
                return Err(e);
            },
        };
        let rec = match pdb.record(start) {
            Ok(b) => b,
            Err(e) => {
                return Err(e);
            },
        };
        let version: u32 = if has_tag(rec, 16, 0x4d, 0x4f, 0x42, 0x49) {
            u32_at(rec, OFF_FILE_VERSION)
        } else {
            0
        };
        let is_kf8 = version >= 8;
        let raw = match read_text(&pdb, &head, start) {
            Ok(t) => t,
            Err(e) => {
                return Err(e);
            },
        };
        let layout = if is_kf8 {
            match read_kf8_layout(&pdb, start, rec) {
                Ok(l) => l,
                Err(e) => {
                    return Err(e);
                },
            }
        } else {
            let l = Layout { sections: Vec::new(), frag_info: Vec::new() };
            proof {
                deep_empty(l.sections);
                assert(l.frag_info@ =~= Seq::empty());
            }
            l
        };
        if !skeletons_within(&layout.sections, raw.len()) {
            return Err(AppError::other("KF8 骨架偏移异常"));
        }
        let Layout { sections: kf8, frag_info } = layout;
        Ok(Self::assemble(file, pdb, format, head, start, images, raw, is_kf8, kf8, frag_info))
    }

    /// The book, once its text and its sections are there.
    fn assemble(
        file: &BookFile,
        pdb: Pdb,
        format: BookFormat,
        head: Head,
        start: u64,
        images: u64,
        raw: Vec<u8>,
        is_kf8: bool,
        kf8: Vec<Section>,
        frag_info: Vec<(u32, u64, u64)>,
    ) -> (r: (BookMeta, Vec<TocItem>, MobiBook))
        requires
            start <= u32::MAX,
            images <= u32::MAX,
            head.indx <= u32::MAX,
            parts_small(kf8.deep_view()),
            skels_within(kf8.deep_view(), raw@.len() as int),
            forall|k: int| 0 <= k < kf8@.len() ==> (#[trigger] kf8.deep_view()[k]) is Kf8,
        ensures
            r.2.wf(),
            (r.0.deep_view(), r.1.deep_view(), r.2.deep_view()) == assembled(
                file.deep_view(),
                pdb.data@,
                pdb.offsets@,
                format,
                head.deep_view(),
                start as int,
                images as int,
                raw@,
                is_kf8,
                kf8.deep_view(),
                frag_info@,
            ),
    {
        let breaks = byte_matches(PAGEBREAK_BYTES, &raw);
        proof {
            parts_of_within(raw@, kf8.deep_view());
        }
        let ghost kv = kf8.deep_view();
        let ranged = kf8.len() == 0;
        let sections: Vec<Section> = if ranged {
            split_at_breaks(&breaks, raw.len())
        } else {
            kf8
        };
        let own: Vec<u32> = if ranged {
            let links = byte_matches(FILEPOS_BYTES, &raw);
            let found = read_link_offsets(&raw, &links);
            proof {
                sorted_set_is_the_set(found@);
            }
            sort_dedup(&found)
        } else {
            let none: Vec<u32> = Vec::new();
            assert(none@ =~= Seq::empty());
            none
        };
        let items = read_contents(&pdb, &head, start);
        let anchors: Vec<u32> = match &items {
            Some(items) => {
                let all = read_item_offsets(items, own);
                proof {
                    sorted_set_is_the_set(all@);
                }
                sort_dedup(&all)
            },
            None => own,
        };
        let titles = read_titles(&raw, &sections, head.encoding);
        let indexed: Vec<TocItem> = match &items {
            Some(items) => build_toc_from_ncx(
                items,
                is_kf8,
                &sections,
                &frag_info,
                &raw,
                head.encoding,
            ),
            None => {
                let none: Vec<TocItem> = Vec::new();
                proof {
                    deep_empty(none);
                }
                none
            },
        };
        let guided: Vec<TocItem> = if indexed.len() == 0 && !is_kf8 {
            build_toc_from_guide(&raw, head.encoding, &sections, &anchors)
        } else {
            indexed
        };
        let toc: Vec<TocItem> = if guided.len() == 0 {
            toc_by_titles(&titles)
        } else {
            guided
        };
        let meta = read_meta(file, format, &head, sections.len());
        let book_id = make_book_id(file.canonical.as_str(), file.size);
        let ghost all = assembled(
            file.deep_view(),
            pdb.data@,
            pdb.offsets@,
            format,
            head.deep_view(),
            start as int,
            images as int,
            raw@,
            is_kf8,
            kv,
            frag_info@,
        );
        let book = MobiBook {
            book_id,
            windows: file.windows,
            pdb,
            resource_start: images,
            encoding: head.encoding,
            raw,
            sections,
            filepos_list: anchors,
            title_fallbacks: titles,
        };
        assert(book.deep_view() =~= all.2);
        assert(toc.deep_view() == all.1);
        (meta, toc, book)
    }
}

} // verus!
