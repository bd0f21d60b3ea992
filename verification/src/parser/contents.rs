//! What holds of every book that is open.
use vstd::prelude::*;
use crate::archive::{entry_text, zip_names, Zip};
use crate::decoding::mobi_text;
use crate::error::Failure;
use crate::model::{BookFormat, Chapter, Meta, Toc};
use crate::numbers::decimal;
use crate::parser::cbz::cbz_opened;
use crate::parser::epub::book::{
    book_toc, chapter_paths, epub_opened, own_toc, package_of, spine_toc,
};
use crate::parser::epub::hrefs::{fragment_split, parent, placed, resolved};
use crate::parser::epub::opf::{nav_doc, ncx_doc, Pkg};
use crate::parser::epub::package::attr_or_empty;
use crate::parser::epub::toc::{
    chapter_at, chapter_at_is_last, labelled, nav_leads_to_chapters, ncx_from, ncx_start, ncx_step,
    ncx_tag, nav_toc_of, only_anchors, with_last, NcxState,
};
use crate::parser::fb2::book::fb2_opened;
use crate::parser::markdown::{
    closed_one, closed_to, md_entry, md_opened, md_toc, nested, Heading, Nesting,
};
use crate::parser::mobi::book::{
    contents_of, mobi_opened, part_titles, plain_toc, toc_of, version_of, Mobi,
};
use crate::parser::mobi::index::Ncx;
use crate::parser::mobi::head::chosen_head;
use crate::parser::mobi::layout::kf8_layout;
use crate::parser::mobi::pdb::{clipped, record_bytes, record_offsets};
use crate::parser::mobi::toc::{
    chapter_of_frag, guide_links, guide_nodes, ncx_node, ncx_nodes, ncx_places, offset_of, place_of,
    range_around, range_behind, toc_offset, Part,
};
use crate::parser::session::{book_opened, opened_as, opened_chapter, opened_chapters, Opened};
use crate::parser::txt::txt_opened;
use crate::parser::{detected, file_id, FileView};
use crate::regexes::{first_group, regex_spans, NAV_ANCHOR, NAV_BLOCK, REFERENCE_TAG};
use crate::xml::{tag_name, xml_events, Xml};

verus! {

/// Every entry of a table, at every depth, leads to one of the first `n` chapters.
pub open spec fn leads(t: Seq<Toc>, n: int) -> bool
    decreases t,
{
    t.len() > 0 ==> {
        &&& t.last().chapter_index < n
        &&& leads(t.last().children, n)
        &&& leads(t.drop_last(), n)
    }
}

/// A table with one more entry leads to chapters where the table and the entry do.
pub proof fn leads_push(t: Seq<Toc>, x: Toc, n: int)
    ensures
        leads(t.push(x), n) == (leads(t, n) && x.chapter_index < n && leads(x.children, n)),
{
    assert(t.push(x).drop_last() =~= t);
}

proof fn leads_last(t: Seq<Toc>, n: int)
    requires
        t.len() > 0,
    ensures
        leads(t, n) == (leads(t.drop_last(), n) && t.last().chapter_index < n && leads(
            t.last().children,
            n,
        )),
{
}

/// A table without depth leads to chapters where each of its entries does.
pub proof fn flat_leads(t: Seq<Toc>, n: int)
    requires
        forall|i: int|
            0 <= i < t.len() ==> (#[trigger] t[i]).chapter_index < n && t[i].children.len() == 0,
    ensures
        leads(t, n),
    decreases t.len(),
{
    if t.len() > 0 {
        let r = t.drop_last();
        assert forall|i: int| 0 <= i < r.len() implies (#[trigger] r[i]).chapter_index < n
            && r[i].children.len() == 0 by {
            assert(r[i] == t[i]);
        }
        flat_leads(r, n);
        assert(t.last() == t[t.len() - 1]);
        assert(leads(t.last().children, n));
    }
}

proof fn leads_front(x: Toc, t: Seq<Toc>, n: int)
    ensures
        leads(seq![x] + t, n) == (x.chapter_index < n && leads(x.children, n) && leads(t, n)),
    decreases t.len(),
{
    let all = seq![x] + t;
    if t.len() == 0 {
        assert(all =~= Seq::empty().push(x));
        leads_push(Seq::empty(), x, n);
    } else {
        leads_front(x, t.drop_last(), n);
        assert(all.drop_last() =~= seq![x] + t.drop_last());
        assert(all.last() == t.last());
    }
}

// ---------------------------------------------------------------------------
// Markdown
// ---------------------------------------------------------------------------

proof fn closing_leads(m: Nesting, level: u8)
    requires
        leads(m.roots, 1),
        leads(m.open, 1),
    ensures
        leads(closed_to(m, level).roots, 1),
        leads(closed_to(m, level).open, 1),
    decreases m.open.len(),
{
    if m.open.len() > 0 && m.levels.len() == m.open.len() && m.levels.last() >= level {
        let done = m.open.last();
        let rest = m.open.drop_last();
        leads_last(m.open, 1);
        if rest.len() > 0 {
            let up = rest.last();
            leads_last(rest, 1);
            leads_push(up.children, done, 1);
            leads_push(
                rest.drop_last(),
                (Toc { children: up.children.push(done), ..up }),
                1,
            );
        } else {
            leads_push(m.roots, done, 1);
        }
        closing_leads(closed_one(m), level);
    }
}

proof fn nesting_leads(hs: Seq<Heading>, k: int)
    ensures
        leads(nested(hs, k).roots, 1),
        leads(nested(hs, k).open, 1),
    decreases k,
{
    if 0 < k <= hs.len() {
        nesting_leads(hs, k - 1);
        let before = nested(hs, k - 1);
        closing_leads(before, hs[k - 1].level);
        let m = closed_to(before, hs[k - 1].level);
        let e = md_entry(hs[k - 1], k - 1);
        assert(leads(Seq::<Toc>::empty(), 1));
        leads_push(m.open, e, 1);
    }
}

proof fn md_leads(hs: Seq<Heading>)
    ensures
        leads(md_toc(hs), 1),
{
    nesting_leads(hs, hs.len() as int);
    closing_leads(nested(hs, hs.len() as int), 0);
}

// ---------------------------------------------------------------------------
// Mobipocket
// ---------------------------------------------------------------------------

proof fn range_behind_within(parts: Seq<Part>, fp: int, i: int)
    ensures
        range_behind(parts, fp, i) matches Some(k) ==> 0 <= k < parts.len(),
    decreases parts.len() - i,
{
    if 0 <= i < parts.len() {
        range_behind_within(parts, fp, i + 1);
    }
}

proof fn chapter_of_frag_within(parts: Seq<Part>, fid: u32, i: int)
    ensures
        chapter_of_frag(parts, fid, i) matches Some(k) ==> 0 <= k < parts.len(),
    decreases i,
{
    if 0 < i <= parts.len() {
        chapter_of_frag_within(parts, fid, i - 1);
    }
}

proof fn place_leads(
    item: Ncx,
    is_kf8: bool,
    parts: Seq<Part>,
    info: Seq<(u32, u64, u64)>,
    raw: Seq<u8>,
    encoding: int,
)
    requires
        0 < parts.len() <= u32::MAX,
    ensures
        place_of(item, is_kf8, parts, info, raw, encoding).0 < parts.len(),
{
    if let Some((fid, off)) = item.pos {
        chapter_of_frag_within(parts, fid, parts.len() as int);
    }
    if let Some(fp) = item.filepos {
        range_behind_within(parts, fp as int, 0);
    }
}

proof fn ncx_nodes_lead(
    items: Seq<Ncx>,
    places: Seq<(u32, Option<Seq<char>>)>,
    above: Option<u32>,
    k: int,
    depth: nat,
    n: int,
)
    requires
        places.len() == items.len(),
        forall|i: int| 0 <= i < places.len() ==> (#[trigger] places[i]).0 < n,
    ensures
        leads(ncx_nodes(items, places, above, k, depth), n),
    decreases depth, items.len() - k,
{
    if 0 <= k < items.len() {
        ncx_nodes_lead(items, places, above, k + 1, depth, n);
        if items[k].parent == above {
            let children = if depth == 0 {
                Seq::empty()
            } else {
                ncx_nodes(items, places, Some(items[k].index as u32), 0, (depth - 1) as nat)
            };
            if depth > 0 {
                ncx_nodes_lead(
                    items,
                    places,
                    Some(items[k].index as u32),
                    0,
                    (depth - 1) as nat,
                    n,
                );
            }
            assert(places[k].0 < n);
            leads_front(
                ncx_node(items[k], places[k], children),
                ncx_nodes(items, places, above, k + 1, depth),
                n,
            );
        }
    }
}

proof fn guide_nodes_lead(
    links: Seq<(Option<Seq<char>>, Seq<char>)>,
    parts: Seq<Part>,
    listed: Seq<u32>,
    i: int,
    acc: Seq<Toc>,
)
    requires
        0 < parts.len() <= u32::MAX,
        leads(acc, parts.len() as int),
    ensures
        leads(guide_nodes(links, parts, listed, i, acc), parts.len() as int),
    decreases links.len() - i,
{
    if 0 <= i < links.len() {
        let (at, words) = links[i];
        match offset_of(at) {
            Some(fp) => {
                if words.len() > 0 && listed.contains(fp as u32) {
                    range_behind_within(parts, fp, 0);
                    let x = Toc {
                        id: "mbguide-"@ + decimal(acc.len() as int),
                        label: words,
                        chapter_index: match range_behind(parts, fp, 0) {
                            Some(k) => k as u32,
                            None => 0,
                        },
                        anchor: Some("filepos"@ + decimal(fp)),
                        children: Seq::empty(),
                    };
                    leads_push(acc, x, parts.len() as int);
                    guide_nodes_lead(links, parts, listed, i + 1, acc.push(x));
                } else {
                    guide_nodes_lead(links, parts, listed, i + 1, acc);
                }
            },
            None => {
                guide_nodes_lead(links, parts, listed, i + 1, acc);
            },
        }
    }
}

proof fn mobi_leads(
    raw: Seq<u8>,
    encoding: int,
    is_kf8: bool,
    parts: Seq<Part>,
    info: Seq<(u32, u64, u64)>,
    items: Option<Seq<Ncx>>,
    anchors: Seq<u32>,
)
    requires
        0 < parts.len() <= u32::MAX,
    ensures
        leads(toc_of(raw, encoding, is_kf8, parts, info, items, anchors), parts.len() as int),
{
    let n = parts.len() as int;
    if let Some(list) = items {
        let places = ncx_places(list, is_kf8, parts, info, raw, encoding);
        assert forall|i: int| 0 <= i < places.len() implies (#[trigger] places[i]).0 < n by {
            place_leads(list[i], is_kf8, parts, info, raw, encoding);
        }
        ncx_nodes_lead(list, places, None, 0, list.len(), n);
    }
    match parts[0] {
        Part::Range { start, end } => {
            let html = mobi_text(
                clipped(raw, start, end),
                encoding,
            );
            if let Some(fp) = toc_offset(
                html,
                regex_spans(REFERENCE_TAG@, html),
                0,
            ) {
                if let Some((a, b)) = range_around(parts, fp, 0) {
                    guide_nodes_lead(
                        guide_links(
                            mobi_text(
                                clipped(raw, a, b),
                                encoding,
                            ),
                        ),
                        parts,
                        anchors,
                        0,
                        Seq::empty(),
                    );
                }
            }
        },
        _ => {},
    }
    let titles = part_titles(raw, parts, encoding);
    flat_leads(plain_toc(titles), n);
}

proof fn mobi_toc_leads(
    file: FileView,
    data: Seq<u8>,
    format: BookFormat,
    meta: Meta,
    toc: Seq<Toc>,
    m: Mobi,
)
    requires
        mobi_opened(file, data, format) == Ok::<(Meta, Seq<Toc>, Mobi), Failure>((meta, toc, m)),
        0 < m.parts.len() <= u32::MAX,
    ensures
        leads(toc, m.parts.len() as int),
{
    let offsets = record_offsets(data)->Ok_0;
    let (head, start, images) = chosen_head(data, offsets, format)->Ok_0;
    let rec = record_bytes(data, offsets, start)->Ok_0;
    let is_kf8 = version_of(rec) >= 8;
    let info = if is_kf8 {
        kf8_layout(data, offsets, start, rec)->Ok_0.1
    } else {
        Seq::empty()
    };
    mobi_leads(
        m.raw,
        head.encoding as int,
        is_kf8,
        m.parts,
        info,
        contents_of(data, offsets, head, start),
        m.filepos,
    );
}

// ---------------------------------------------------------------------------
// EPUB
// ---------------------------------------------------------------------------

proof fn relabelling_leads(stack: Seq<Toc>, t: Toc, n: int)
    requires
        stack.len() > 0,
        leads(stack, n),
        t.chapter_index < n,
        leads(t.children, n),
    ensures
        leads(with_last(stack, t), n),
{
    leads_last(stack, n);
    leads_push(stack.drop_last(), t, n);
}

proof fn ncx_step_leads(s: NcxState, e: Xml, dir: Seq<char>, keys: Seq<Seq<char>>)
    requires
        0 < keys.len() <= u32::MAX,
        leads(s.stack, keys.len() as int),
        leads(s.roots, keys.len() as int),
    ensures
        leads(ncx_step(s, e, dir, keys).stack, keys.len() as int),
        leads(ncx_step(s, e, dir, keys).roots, keys.len() as int),
{
    let n = keys.len() as int;
    assert(leads(Seq::<Toc>::empty(), n));
    match e {
        Xml::Open(tag) | Xml::Single(tag) => {
            let next = ncx_tag(s, tag, dir, keys);
            if s.stack.len() > 0 {
                leads_last(s.stack, n);
                relabelling_leads(s.stack, labelled(s.stack.last(), s.words), n);
                let (path, frag) = fragment_split(
                    attr_or_empty(tag, "src"@),
                );
                let at = chapter_at(
                    keys,
                    resolved(dir, path),
                    keys.len() as int,
                );
                chapter_at_is_last(
                    keys,
                    resolved(dir, path),
                    keys.len() as int,
                );
                let t = Toc {
                    chapter_index: match at {
                        Some(i) => i as u32,
                        None => 0,
                    },
                    anchor: frag,
                    ..s.stack.last()
                };
                relabelling_leads(s.stack, t, n);
            }
            if tag_name(tag) == "navPoint"@ {
                leads_push(next.stack.drop_last(), next.stack.last(), n);
                assert(next.stack.drop_last().push(next.stack.last()) =~= next.stack);
                let base = if s.stack.len() > 0 {
                    with_last(s.stack, labelled(s.stack.last(), s.words))
                } else {
                    s.stack
                };
                assert(next.stack.drop_last() =~= base);
            }
        },
        Xml::Close(name) => {
            if s.stack.len() > 0 {
                leads_last(s.stack, n);
                let node = labelled(s.stack.last(), s.words);
                let rest = s.stack.drop_last();
                if rest.len() > 0 {
                    let up = rest.last();
                    leads_last(rest, n);
                    leads_push(up.children, node, n);
                    relabelling_leads(rest, (Toc { children: up.children.push(node), ..up }), n);
                } else {
                    leads_push(s.roots, node, n);
                }
            }
        },
        _ => {},
    }
}

proof fn ncx_leads(events: Seq<Xml>, dir: Seq<char>, keys: Seq<Seq<char>>, i: int, s: NcxState)
    requires
        0 < keys.len() <= u32::MAX,
        leads(s.stack, keys.len() as int),
        leads(s.roots, keys.len() as int),
    ensures
        ncx_from(events, dir, keys, i, s) matches Ok(t) ==> leads(t, keys.len() as int),
    decreases events.len() - i,
{
    if 0 <= i < events.len() {
        ncx_step_leads(s, events[i], dir, keys);
        ncx_leads(events, dir, keys, i + 1, ncx_step(s, events[i], dir, keys));
    }
}

proof fn own_toc_leads(z: Zip, pkg: Pkg, opf_dir: Seq<char>, keys: Seq<Seq<char>>)
    requires
        0 < keys.len() <= u32::MAX,
    ensures
        leads(own_toc(z, pkg, opf_dir, keys), keys.len() as int),
{
    let n = keys.len() as int;
    if let Some(h) = nav_doc(pkg.manifest) {
        let path = placed(opf_dir, h);
        if let Ok(xml) = entry_text(z, path) {
            let block = only_anchors(
                match first_group(NAV_BLOCK@, xml, 1) {
                    Some(t) => t,
                    None => xml,
                },
            );
            let found = regex_spans(NAV_ANCHOR@, block);
            nav_leads_to_chapters(block, found, parent(path), keys, 0, Seq::empty());
            flat_leads(nav_toc_of(xml, parent(path), keys), n);
        }
    }
    if let Some(h) = ncx_doc(pkg.manifest) {
        let path = placed(opf_dir, h);
        if let Ok(xml) = entry_text(z, path) {
            assert(leads(Seq::<Toc>::empty(), n));
            ncx_leads(xml_events(xml), parent(path), keys, 0, ncx_start());
        }
    }
    assert(leads(Seq::<Toc>::empty(), n));
}

proof fn book_toc_leads(z: Zip, pkg: Pkg, opf_dir: Seq<char>)
    requires
        0 < chapter_paths(pkg, opf_dir).len() <= u32::MAX,
    ensures
        leads(book_toc(z, pkg, opf_dir), chapter_paths(pkg, opf_dir).len() as int),
{
    let paths = chapter_paths(pkg, opf_dir);
    own_toc_leads(z, pkg, opf_dir, paths);
    flat_leads(spine_toc(paths), paths.len() as int);
}

// ---------------------------------------------------------------------------
// Every format
// ---------------------------------------------------------------------------

/// Every entry of the table of contents of a book leads to one of its chapters, whatever the
/// format.
pub proof fn every_entry_leads_to_a_chapter(
    file: FileView,
    head: Seq<u8>,
    data: Seq<u8>,
    meta: Meta,
    toc: Seq<Toc>,
    b: Opened,
)
    requires
        book_opened(file, head, data) == Ok::<(Meta, Seq<Toc>, Opened), Failure>((meta, toc, b)),
        0 < opened_chapters(b) <= u32::MAX,
    ensures
        leads(toc, opened_chapters(b)),
{
    let n = opened_chapters(b);
    match b {
        Opened::Epub(e) => {
            let names = zip_names(data)->Ok_0;
            let z = Zip { data, names };
            let (opf, pkg) = package_of(z)->Ok_0;
            book_toc_leads(z, pkg, parent(opf));
        },
        Opened::Mobi(m) => {
            mobi_toc_leads(file, data, detected(file.windows, file.path, head)->Ok_0, meta, toc, m);
        },
        Opened::Txt(t) => {
            flat_leads(toc, n);
        },
        Opened::Markdown(m) => {
            md_leads(m.headings);
        },
        Opened::Fb2(f) => {
            flat_leads(toc, n);
        },
        Opened::Cbz(c) => {
            flat_leads(toc, n);
        },
    }
}

/// The identifier that an open book gives to its chapters.
pub open spec fn opened_id(b: Opened) -> Seq<char> {
    match b {
        Opened::Epub(b) => b.book_id,
        Opened::Mobi(b) => b.book_id,
        Opened::Txt(b) => b.book_id,
        Opened::Markdown(b) => b.book_id,
        Opened::Fb2(b) => b.book_id,
        Opened::Cbz(b) => b.book_id,
    }
}

proof fn told_of(
    format: BookFormat,
    file: FileView,
    data: Seq<u8>,
    meta: Meta,
    toc: Seq<Toc>,
    b: Opened,
)
    requires
        opened_as(format, file, data) == Ok::<(Meta, Seq<Toc>, Opened), Failure>((meta, toc, b)),
    ensures
        meta.id == file_id(file),
        opened_id(b) == file_id(file),
        meta.format == format,
        meta.file_size == file.size,
        meta.file_path == file.path,
{
    match format {
        BookFormat::Epub => {
            assert(epub_opened(file, data) is Ok);
        },
        BookFormat::Mobi | BookFormat::Azw3 => {
            assert(mobi_opened(file, data, format) is Ok);
        },
        BookFormat::Txt => {
            assert(txt_opened(file, data) is Ok);
        },
        BookFormat::Markdown => {
            assert(md_opened(file, data) is Ok);
        },
        BookFormat::Fb2 => {
            assert(fb2_opened(file, data) is Ok);
        },
        BookFormat::Cbz => {
            assert(cbz_opened(file, data) is Ok);
        },
        BookFormat::Pdf => {},
    }
}

/// The number of chapters that is told of a book is the number of its chapters.
pub proof fn the_chapters_are_counted(
    file: FileView,
    head: Seq<u8>,
    data: Seq<u8>,
    meta: Meta,
    toc: Seq<Toc>,
    b: Opened,
)
    requires
        book_opened(file, head, data) == Ok::<(Meta, Seq<Toc>, Opened), Failure>((meta, toc, b)),
        opened_chapters(b) <= u32::MAX,
    ensures
        meta.total_chapters == opened_chapters(b),
{
}

/// A book is known by the path and the size of its file alone: what is in it, and what it was
/// opened by, do not matter. On this the saved progress of a book relies.
pub proof fn the_same_file_is_the_same_book(
    one: FileView,
    one_head: Seq<u8>,
    one_data: Seq<u8>,
    other: FileView,
    other_head: Seq<u8>,
    other_data: Seq<u8>,
)
    requires
        book_opened(one, one_head, one_data) is Ok,
        book_opened(other, other_head, other_data) is Ok,
        one.canonical == other.canonical,
        one.size == other.size,
    ensures
        book_opened(one, one_head, one_data)->Ok_0.0.id == book_opened(
            other,
            other_head,
            other_data,
        )->Ok_0.0.id,
{
    let (m, t, b) = book_opened(one, one_head, one_data)->Ok_0;
    told_of(detected(one.windows, one.path, one_head)->Ok_0, one, one_data, m, t, b);
    let (m, t, b) = book_opened(other, other_head, other_data)->Ok_0;
    told_of(detected(other.windows, other.path, other_head)->Ok_0, other, other_data, m, t, b);
}

/// What is told of a book is that of its file: the format that was detected, the size and the
/// path.
pub proof fn a_book_is_of_its_file(
    file: FileView,
    head: Seq<u8>,
    data: Seq<u8>,
    meta: Meta,
    toc: Seq<Toc>,
    b: Opened,
)
    requires
        book_opened(file, head, data) == Ok::<(Meta, Seq<Toc>, Opened), Failure>((meta, toc, b)),
    ensures
        detected(file.windows, file.path, head) == Ok::<BookFormat, Failure>(meta.format),
        meta.file_size == file.size,
        meta.file_path == file.path,
{
    told_of(detected(file.windows, file.path, head)->Ok_0, file, data, meta, toc, b);
}

/// A chapter names the book that it is of, and its own number.
pub proof fn a_chapter_names_its_book(
    file: FileView,
    head: Seq<u8>,
    data: Seq<u8>,
    meta: Meta,
    toc: Seq<Toc>,
    b: Opened,
    index: int,
    styled: bool,
)
    requires
        book_opened(file, head, data) == Ok::<(Meta, Seq<Toc>, Opened), Failure>((meta, toc, b)),
        opened_chapter(b, index, styled) is Ok,
    ensures
        opened_chapter(b, index, styled)->Ok_0.book_id == meta.id,
        opened_chapter(b, index, styled)->Ok_0.chapter_index == index as u32,
{
    told_of(detected(file.windows, file.path, head)->Ok_0, file, data, meta, toc, b);
}

/// There are chapters up to the count and none beyond: only a number beyond it is refused as out
/// of range.
pub proof fn chapters_end_at_the_count(b: Opened, index: int, styled: bool)
    requires
        index >= 0,
    ensures
        index >= opened_chapters(b) <==> opened_chapter(b, index, styled) == Err::<
            Chapter,
            Failure,
        >(Failure::ChapterOutOfRange(index as u32)),
{
}

} // verus!
