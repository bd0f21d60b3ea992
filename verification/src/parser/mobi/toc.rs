//! Tables of contents of Mobipocket books, and the parts of the text they lead into.
use vstd::prelude::*;
use crate::decoding::{decode_bytes, lowercase, mobi_text, to_lowercase};
use crate::error::with_number;
use crate::model::{toc_children_view, Toc, TocItem};
use crate::numbers::{decimal, parse_decimal, parsed};
use crate::parser::mobi::index::{Ncx, NcxItem};
use crate::parser::mobi::pdb::{clip, clipped};
use crate::parser::{is_word, unescape, unescaped};
use crate::regexes::{
    find_group, first_group, group, group_text, ints, regex_spans, remove, row_of, spans, without,
    Groups, ANY_TAG, FILEPOS_ATTR, FRAG_ANCHOR, GUIDE_ANCHOR, HEADING, REFERENCE_TAG, TYPE_ATTR,
};
use crate::text::{
    chars_of, contains, lower_ascii, occurs, push_all, string_of, to_lower_ascii, trim, trimmed,
};
use crate::views::{deep_empty, deep_push};

verus! {

/// A fragment of a KF8 section: where it is put in, where it lies behind the skeleton, how long
/// it is, and its number.
#[derive(Clone, Copy)]
pub struct Kf8Frag {
    pub insert_offset: u64,
    pub offset: u64,
    pub length: u64,
    pub index: u32,
}

/// A KF8 section: a skeleton and the fragments that go into it.
pub struct Kf8Section {
    pub skel_offset: u64,
    pub skel_length: u64,
    pub frags: Vec<Kf8Frag>,
}

/// A part of the text that is one chapter: a range of it, or a KF8 section.
pub enum Section {
    Range { start: u64, end: u64 },
    Kf8(Kf8Section),
}

/// `Section` over sequences.
#[verifier::ext_equal]
pub enum Part {
    Range { start: int, end: int },
    Kf8 { skel_offset: int, skel_length: int, frags: Seq<Kf8Frag> },
}

impl DeepView for Section {
    type V = Part;

    open spec fn deep_view(&self) -> Part {
        match *self {
            Section::Range { start, end } => Part::Range { start: start as int, end: end as int },
            Section::Kf8(s) => Part::Kf8 {
                skel_offset: s.skel_offset as int,
                skel_length: s.skel_length as int,
                frags: s.frags@,
            },
        }
    }
}

/// The first range, from the `i`-th part on, that ends behind an offset.
pub open spec fn range_behind(parts: Seq<Part>, fp: int, i: int) -> Option<int>
    decreases parts.len() - i,
{
    if i < 0 || i >= parts.len() {
        None
    } else if parts[i] matches Part::Range { start, end } && end > fp {
        Some(i)
    } else {
        range_behind(parts, fp, i + 1)
    }
}

/// The chapter that an offset into the text falls into: the first range that ends behind it, or
/// else the last part.
pub open spec fn chapter_of_offset(parts: Seq<Part>, fp: int) -> u32 {
    match range_behind(parts, fp, 0) {
        Some(i) => i as u32,
        None => if parts.len() > 0 {
            (parts.len() - 1) as u32
        } else {
            0
        },
    }
}

/// The part holds the fragment with a number.
pub open spec fn has_frag(part: Part, fid: u32) -> bool {
    match part {
        Part::Kf8 { skel_offset, skel_length, frags } => numbered(frags, fid),
        Part::Range { start, end } => false,
    }
}

/// One of the fragments has a number.
pub open spec fn numbered(frags: Seq<Kf8Frag>, fid: u32) -> bool {
    exists|k: int| 0 <= k < frags.len() && (#[trigger] frags[k]).index == fid
}

/// The last part before `i` that holds a fragment.
pub open spec fn chapter_of_frag(parts: Seq<Part>, fid: u32, i: int) -> Option<int>
    decreases i,
{
    if i <= 0 || i > parts.len() {
        None
    } else if has_frag(parts[i - 1], fid) {
        Some(i - 1)
    } else {
        chapter_of_frag(parts, fid, i - 1)
    }
}

fn find_range_behind(sections: &Vec<Section>, fp: u64) -> (r: Option<usize>)
    ensures
        match r {
            Some(i) => range_behind(sections.deep_view(), fp as int, 0) == Some(i as int),
            None => range_behind(sections.deep_view(), fp as int, 0) is None,
        },
{
    let mut i: usize = 0;
    while i < sections.len()
        invariant
            i <= sections@.len(),
            range_behind(sections.deep_view(), fp as int, 0) == range_behind(
                sections.deep_view(),
                fp as int,
                i as int,
            ),
        decreases sections@.len() - i,
    {
        assert(sections.deep_view()[i as int] == sections@[i as int].deep_view());
        if let Section::Range { start: _, end } = &sections[i] {
            if *end > fp {
                return Some(i);
            }
        }
        i = i + 1;
    }
    None
}

/// The chapter that an offset into the text falls into.
pub fn section_of_filepos(sections: &Vec<Section>, fp: u32) -> (r: u32)
    ensures
        r == chapter_of_offset(sections.deep_view(), fp as int),
{
    match find_range_behind(sections, fp as u64) {
        Some(i) => i as u32,
        None => if sections.len() > 0 {
            (sections.len() - 1) as u32
        } else {
            0
        },
    }
}

fn holds_frag(frags: &Vec<Kf8Frag>, fid: u32) -> (r: bool)
    ensures
        r == numbered(frags@, fid),
{
    let mut k: usize = 0;
    while k < frags.len()
        invariant
            k <= frags@.len(),
            forall|m: int| 0 <= m < k ==> (#[trigger] frags@[m]).index != fid,
        decreases frags@.len() - k,
    {
        if frags[k].index == fid {
            return true;
        }
        k = k + 1;
    }
    false
}

/// The last chapter that holds a fragment.
pub fn section_of_fid(sections: &Vec<Section>, fid: u32) -> (r: Option<u32>)
    ensures
        r == match chapter_of_frag(sections.deep_view(), fid, sections@.len() as int) {
            Some(i) => Some(i as u32),
            None => None,
        },
{
    let mut i: usize = sections.len();
    while i > 0
        invariant
            i <= sections@.len(),
            chapter_of_frag(sections.deep_view(), fid, sections@.len() as int) == chapter_of_frag(
                sections.deep_view(),
                fid,
                i as int,
            ),
        decreases i,
    {
        assert(sections.deep_view()[i - 1] == sections@[i - 1].deep_view());
        if let Section::Kf8(s) = &sections[i - 1] {
            if holds_frag(&s.frags, fid) {
                return Some((i - 1) as u32);
            }
        }
        i = i - 1;
    }
    None
}

// ---------------------------------------------------------------------------
// Anchors within fragments
// ---------------------------------------------------------------------------

/// The anchor that an attribute gives: its value, marked where the attribute is `aid`; none
/// where the value is empty.
pub open spec fn anchor_of(attr: Option<Seq<char>>, value: Option<Seq<char>>) -> Option<Seq<char>> {
    match (attr, value) {
        (Some(a), Some(v)) => if v.len() == 0 {
            None
        } else if lower_ascii(a) == "aid"@ {
            Some("aid:"@ + v)
        } else {
            Some(v)
        },
        _ => None,
    }
}

/// The first entry of the table of fragments with a number.
pub open spec fn frag_entry(info: Seq<(u32, u64, u64)>, fid: u32, i: int) -> Option<int>
    decreases info.len() - i,
{
    if i < 0 || i >= info.len() {
        None
    } else if info[i].0 == fid {
        Some(i)
    } else {
        frag_entry(info, fid, i + 1)
    }
}

/// The bytes in which the anchor of a place in a fragment is looked for: up to 512 of them, no
/// further than the fragment. None where the fragment is unknown or ends before.
pub open spec fn anchor_bytes(info: Seq<(u32, u64, u64)>, raw: Seq<u8>, fid: u32, off: u32) -> Option<
    Seq<u8>,
> {
    match frag_entry(info, fid, 0) {
        None => None,
        Some(i) => {
            let start = info[i].1 + off;
            let end = if info[i].1 + info[i].2 < raw.len() {
                info[i].1 + info[i].2
            } else {
                raw.len() as int
            };
            if start >= end {
                None
            } else {
                Some(
                    raw.subrange(
                        start,
                        if start + 512 < end {
                            start + 512
                        } else {
                            end
                        },
                    ),
                )
            }
        },
    }
}

/// The anchor at a place in a fragment.
pub open spec fn anchor_at(
    info: Seq<(u32, u64, u64)>,
    raw: Seq<u8>,
    encoding: int,
    fid: u32,
    off: u32,
) -> Option<Seq<char>> {
    match anchor_bytes(info, raw, fid, off) {
        None => None,
        Some(b) => {
            let snippet = mobi_text(b, encoding);
            let found = regex_spans(FRAG_ANCHOR@, snippet);
            if found.len() == 0 {
                None
            } else {
                anchor_of(group_text(snippet, found[0], 1), group_text(snippet, found[0], 2))
            }
        },
    }
}

/// The anchor that an attribute gives.
pub fn anchor_from(attr: Option<Vec<char>>, value: Option<Vec<char>>) -> (r: Option<String>)
    ensures
        r.deep_view() == anchor_of(
            match attr {
                Some(a) => Some(a@),
                None => None,
            },
            match value {
                Some(v) => Some(v@),
                None => None,
            },
        ),
{
    match (attr, value) {
        (Some(a), Some(v)) => {
            if v.len() == 0 {
                return None;
            }
            let low = to_lower_ascii(&a);
            if is_word(&low, "aid") {
                let mut out = chars_of("aid:");
                push_all(&mut out, &v);
                Some(string_of(&out))
            } else {
                Some(string_of(&v))
            }
        },
        _ => None,
    }
}

/// The anchor at a place in a fragment.
pub fn kf8_anchor_at(
    kf8_frag_info: &Vec<(u32, u64, u64)>,
    raw: &[u8],
    encoding: u64,
    fid: u32,
    off: u32,
) -> (r: Option<String>)
    ensures
        r.deep_view() == anchor_at(kf8_frag_info@, raw@, encoding as int, fid, off),
{
    let n = raw.len() as u128;
    let mut i: usize = 0;
    while i < kf8_frag_info.len() && kf8_frag_info[i].0 != fid
        invariant
            i <= kf8_frag_info@.len(),
            frag_entry(kf8_frag_info@, fid, 0) == frag_entry(kf8_frag_info@, fid, i as int),
        decreases kf8_frag_info@.len() - i,
    {
        i = i + 1;
    }
    if i == kf8_frag_info.len() {
        return None;
    }
    let (_, place, length) = kf8_frag_info[i];
    let start: u128 = place as u128 + off as u128;
    let close: u128 = place as u128 + length as u128;
    let end: u128 = if close < n {
        close
    } else {
        n
    };
    if start >= end {
        return None;
    }
    let stop: u128 = if 512 < end - start {
        start + 512
    } else {
        end
    };
    let bytes = vstd::slice::slice_subrange(raw, start as usize, stop as usize);
    let snippet = decode_bytes(bytes, encoding);
    let rows = spans(FRAG_ANCHOR, &snippet);
    if rows.len() == 0 {
        return None;
    }
    proof {
        row_of(rows@, 0, snippet@.len() as int);
    }
    anchor_from(group(&snippet, &rows[0], 1), group(&snippet, &rows[0], 2))
}

// ---------------------------------------------------------------------------
// The table of contents of the index
// ---------------------------------------------------------------------------

/// Where an item leads: the chapter and the anchor within it.
pub open spec fn place_of(
    item: Ncx,
    is_kf8: bool,
    parts: Seq<Part>,
    info: Seq<(u32, u64, u64)>,
    raw: Seq<u8>,
    encoding: int,
) -> (u32, Option<Seq<char>>) {
    if is_kf8 {
        match item.pos {
            Some((fid, off)) => match chapter_of_frag(parts, fid, parts.len() as int) {
                Some(ci) => (ci as u32, anchor_at(info, raw, encoding, fid, off)),
                None => (0u32, None),
            },
            None => (0u32, None),
        }
    } else {
        match item.filepos {
            Some(fp) => (
                chapter_of_offset(parts, fp as int),
                Some("filepos"@ + decimal(fp as int)),
            ),
            None => (0u32, None),
        }
    }
}

/// The node that an item becomes, its children given.
pub open spec fn ncx_node(
    item: Ncx,
    place: (u32, Option<Seq<char>>),
    children: Seq<Toc>,
) -> Toc {
    Toc {
        id: "mbncx-"@ + decimal(item.index as int),
        label: if item.label.len() == 0 {
            "未命名"@
        } else {
            item.label
        },
        chapter_index: place.0,
        anchor: place.1,
        children,
    }
}

/// The nodes of the items, from the `k`-th on, that stand below the item `above`, or at the top
/// where there is none; each with those below it, `depth` deep.
pub open spec fn ncx_nodes(
    items: Seq<Ncx>,
    places: Seq<(u32, Option<Seq<char>>)>,
    above: Option<u32>,
    k: int,
    depth: nat,
) -> Seq<Toc>
    decreases depth, items.len() - k,
{
    if k < 0 || k >= items.len() {
        Seq::empty()
    } else if items[k].parent != above {
        ncx_nodes(items, places, above, k + 1, depth)
    } else {
        let children = if depth == 0 {
            Seq::empty()
        } else {
            ncx_nodes(items, places, Some(items[k].index as u32), 0, (depth - 1) as nat)
        };
        seq![ncx_node(items[k], places[k], children)] + ncx_nodes(
            items,
            places,
            above,
            k + 1,
            depth,
        )
    }
}

/// The table of contents that the items give. No chain of items above one another is longer
/// than the list of items, so this depth reaches all of them.
pub open spec fn ncx_toc(items: Seq<Ncx>, places: Seq<(u32, Option<Seq<char>>)>) -> Seq<Toc> {
    ncx_nodes(items, places, None, 0, items.len())
}

/// Where each item leads.
pub open spec fn ncx_places(
    items: Seq<Ncx>,
    is_kf8: bool,
    parts: Seq<Part>,
    info: Seq<(u32, u64, u64)>,
    raw: Seq<u8>,
    encoding: int,
) -> Seq<(u32, Option<Seq<char>>)> {
    items.map_values(|item: Ncx| place_of(item, is_kf8, parts, info, raw, encoding))
}

/// Where an item leads.
fn find_place(
    item: &NcxItem,
    is_kf8: bool,
    sections: &Vec<Section>,
    kf8_frag_info: &Vec<(u32, u64, u64)>,
    raw: &[u8],
    encoding: u64,
) -> (r: (u32, Option<String>))
    ensures
        r.deep_view() == place_of(
            item.deep_view(),
            is_kf8,
            sections.deep_view(),
            kf8_frag_info@,
            raw@,
            encoding as int,
        ),
{
    if is_kf8 {
        match item.pos {
            Some((fid, off)) => match section_of_fid(sections, fid) {
                Some(ci) => (ci, kf8_anchor_at(kf8_frag_info, raw, encoding, fid, off)),
                None => (0, None),
            },
            None => (0, None),
        }
    } else {
        match item.filepos {
            Some(fp) => (
                section_of_filepos(sections, fp),
                Some(with_number("filepos", fp as u64)),
            ),
            None => (0, None),
        }
    }
}

fn copy_anchor(a: &Option<String>) -> (r: Option<String>)
    ensures
        r.deep_view() == a.deep_view(),
{
    match a {
        Some(s) => Some(s.clone()),
        None => None,
    }
}

/// The nodes of the items that stand below the item `above`.
fn nodes_below(
    items: &Vec<NcxItem>,
    places: &Vec<(u32, Option<String>)>,
    above: Option<u32>,
    depth: usize,
) -> (r: Vec<TocItem>)
    requires
        places@.len() == items@.len(),
    ensures
        r.deep_view() == ncx_nodes(
            items.deep_view(),
            places.deep_view(),
            above,
            0,
            depth as nat,
        ),
    decreases depth,
{
    let ghost iv = items.deep_view();
    let ghost pv = places.deep_view();
    let mut out: Vec<TocItem> = Vec::new();
    proof {
        deep_empty(out);
    }
    let mut k: usize = 0;
    while k < items.len()
        invariant
            k <= items@.len(),
            places@.len() == items@.len(),
            iv == items.deep_view(),
            pv == places.deep_view(),
            ncx_nodes(iv, pv, above, 0, depth as nat) == out.deep_view() + ncx_nodes(
                iv,
                pv,
                above,
                k as int,
                depth as nat,
            ),
        decreases items@.len() - k,
    {
        let item = &items[k];
        assert(iv[k as int] == item.deep_view());
        assert(pv[k as int] == places@[k as int].deep_view());
        let stands = match (item.parent, above) {
            (None, None) => true,
            (Some(p), Some(q)) => p == q,
            _ => false,
        };
        if stands {
            let children: Vec<TocItem> = if depth == 0 {
                Vec::new()
            } else {
                nodes_below(items, places, Some(item.index as u32), depth - 1)
            };
            assert(depth == 0 ==> children.deep_view() =~= Seq::empty());
            let node = TocItem {
                id: with_number("mbncx-", item.index),
                label: if item.label.as_str().is_empty() {
                    "未命名".to_owned()
                } else {
                    item.label.clone()
                },
                chapter_index: places[k].0,
                anchor: copy_anchor(&places[k].1),
                children,
            };
            let ghost before = out;
            out.push(node);
            proof {
                toc_children_view(node);
                deep_push(before, node, out);
                let rest = ncx_nodes(iv, pv, above, k + 1, depth as nat);
                assert(node.deep_view() =~= ncx_node(
                    iv[k as int],
                    pv[k as int],
                    children.deep_view(),
                ));
                assert(before.deep_view() + (seq![node.deep_view()] + rest) =~= out.deep_view()
                    + rest);
            }
        }
        k = k + 1;
    }
    assert(out.deep_view() + Seq::<Toc>::empty() =~= out.deep_view());
    out
}

/// The table of contents that the items of an index give.
pub fn build_toc_from_ncx(
    items: &Vec<NcxItem>,
    is_kf8: bool,
    sections: &Vec<Section>,
    kf8_frag_info: &Vec<(u32, u64, u64)>,
    raw: &[u8],
    encoding: u64,
) -> (r: Vec<TocItem>)
    ensures
        r.deep_view() == ncx_toc(
            items.deep_view(),
            ncx_places(
                items.deep_view(),
                is_kf8,
                sections.deep_view(),
                kf8_frag_info@,
                raw@,
                encoding as int,
            ),
        ),
{
    let ghost want = ncx_places(
        items.deep_view(),
        is_kf8,
        sections.deep_view(),
        kf8_frag_info@,
        raw@,
        encoding as int,
    );
    let mut places: Vec<(u32, Option<String>)> = Vec::new();
    proof {
        deep_empty(places);
        assert(want.take(0) =~= Seq::empty());
    }
    let mut k: usize = 0;
    while k < items.len()
        invariant
            k <= items@.len(),
            want == ncx_places(
                items.deep_view(),
                is_kf8,
                sections.deep_view(),
                kf8_frag_info@,
                raw@,
                encoding as int,
            ),
            places@.len() == k,
            places.deep_view() == want.take(k as int),
        decreases items@.len() - k,
    {
        let place = find_place(&items[k], is_kf8, sections, kf8_frag_info, raw, encoding);
        let ghost before = places;
        places.push(place);
        proof {
            deep_push(before, place, places);
            crate::views::take_push(want, k as int);
            assert(items.deep_view()[k as int] == items@[k as int].deep_view());
        }
        k = k + 1;
    }
    assert(want.take(k as int) =~= want);
    nodes_below(items, &places, None, items.len())
}

// ---------------------------------------------------------------------------
// The table of contents of the guide
// ---------------------------------------------------------------------------

/// The number that a text stands for, where it fits thirty-two bits.
pub open spec fn offset_of(t: Option<Seq<char>>) -> Option<int> {
    match t {
        Some(s) => parsed(s, 10, u32::MAX as int),
        None => None,
    }
}

fn read_offset(t: Option<Vec<char>>) -> (r: Option<u32>)
    ensures
        match r {
            Some(v) => offset_of(
                match t {
                    Some(s) => Some(s@),
                    None => None,
                },
            ) == Some(v as int),
            None => offset_of(
                match t {
                    Some(s) => Some(s@),
                    None => None,
                },
            ) is None,
        },
{
    match t {
        Some(s) => match parse_decimal(&s, u32::MAX as u64) {
            Some(v) => Some(v as u32),
            None => None,
        },
        None => None,
    }
}

/// The tag of a reference says that it leads to the table of contents.
pub open spec fn refers_to_toc(tag: Seq<char>) -> bool {
    match first_group(TYPE_ATTR@, tag, 1) {
        Some(t) => occurs(lowercase(t), "toc"@),
        None => occurs(Seq::empty(), "toc"@),
    }
}

/// Where the first reference to a table of contents leads, from the `i`-th reference on. A
/// reference without an offset ends the search.
pub open spec fn toc_offset(html: Seq<char>, refs: Seq<Groups>, i: int) -> Option<int>
    decreases refs.len() - i,
{
    if i < 0 || i >= refs.len() {
        None
    } else {
        match group_text(html, refs[i], 0) {
            Some(tag) => if refers_to_toc(tag) {
                offset_of(first_group(FILEPOS_ATTR@, tag, 1))
            } else {
                toc_offset(html, refs, i + 1)
            },
            None => toc_offset(html, refs, i + 1),
        }
    }
}

fn is_toc_reference(tag: &[char]) -> (r: bool)
    ensures
        r == refers_to_toc(tag@),
{
    let word = chars_of("toc");
    match find_group(TYPE_ATTR, tag, 1) {
        Some(t) => {
            let s = string_of(&t);
            let low = chars_of(to_lowercase(s.as_str()).as_str());
            contains(&low, &word)
        },
        None => {
            let none: Vec<char> = Vec::new();
            assert(none@ =~= Seq::empty());
            contains(&none, &word)
        },
    }
}

fn find_toc_offset(html: &[char]) -> (r: Option<u32>)
    ensures
        match r {
            Some(v) => toc_offset(html@, regex_spans(REFERENCE_TAG@, html@), 0) == Some(v as int),
            None => toc_offset(html@, regex_spans(REFERENCE_TAG@, html@), 0) is None,
        },
{
    let rows = spans(REFERENCE_TAG, html);
    let ghost refs = ints(rows@);
    let mut i: usize = 0;
    while i < rows.len()
        invariant
            i <= rows@.len(),
            refs == ints(rows@),
            refs == regex_spans(REFERENCE_TAG@, html@),
            crate::regexes::in_order(refs, html@.len() as int),
            toc_offset(html@, refs, 0) == toc_offset(html@, refs, i as int),
        decreases rows@.len() - i,
    {
        proof {
            row_of(rows@, i as int, html@.len() as int);
        }
        if let Some(tag) = group(html, &rows[i], 0) {
            if is_toc_reference(&tag) {
                let t = find_group(FILEPOS_ATTR, &tag, 1);
                return read_offset(t);
            }
        }
        i = i + 1;
    }
    None
}

/// The first range, from the `i`-th part on, that an offset lies in.
pub open spec fn range_around(parts: Seq<Part>, fp: int, i: int) -> Option<(int, int)>
    decreases parts.len() - i,
{
    if i < 0 || i >= parts.len() {
        None
    } else if parts[i] matches Part::Range { start, end } && start <= fp < end {
        Some((parts[i]->start, parts[i]->end))
    } else {
        range_around(parts, fp, i + 1)
    }
}

fn find_range_around(sections: &Vec<Section>, fp: u64) -> (r: Option<(u64, u64)>)
    ensures
        match r {
            Some((a, b)) => range_around(sections.deep_view(), fp as int, 0) == Some(
                (a as int, b as int),
            ),
            None => range_around(sections.deep_view(), fp as int, 0) is None,
        },
{
    let mut i: usize = 0;
    while i < sections.len()
        invariant
            i <= sections@.len(),
            range_around(sections.deep_view(), fp as int, 0) == range_around(
                sections.deep_view(),
                fp as int,
                i as int,
            ),
        decreases sections@.len() - i,
    {
        assert(sections.deep_view()[i as int] == sections@[i as int].deep_view());
        if let Section::Range { start, end } = &sections[i] {
            if *start <= fp && fp < *end {
                return Some((*start, *end));
            }
        }
        i = i + 1;
    }
    None
}

/// The words of a piece of HTML: without tags, trimmed, entities resolved.
pub open spec fn plain_words(html: Seq<char>) -> Seq<char> {
    unescaped(trimmed(without(html, regex_spans(ANY_TAG@, html))))
}

/// The words of a piece of HTML.
pub fn words_of(html: &[char]) -> (r: Vec<char>)
    ensures
        r@ == plain_words(html@),
{
    let bare = remove(ANY_TAG, html);
    unescape(trim(&bare))
}

/// The links of a page of contents: the offset each leads to, as text, and its words.
pub open spec fn guide_links(html: Seq<char>) -> Seq<(Option<Seq<char>>, Seq<char>)> {
    let found = regex_spans(GUIDE_ANCHOR@, html);
    Seq::new(
        found.len(),
        |i: int|
            (
                group_text(html, found[i], 1),
                match group_text(html, found[i], 2) {
                    Some(t) => plain_words(t),
                    None => plain_words(Seq::empty()),
                },
            ),
    )
}

/// The nodes that the links from the `i`-th on give, behind those that are there: a link counts
/// where its offset is a number that is listed, and it has words.
pub open spec fn guide_nodes(
    links: Seq<(Option<Seq<char>>, Seq<char>)>,
    parts: Seq<Part>,
    listed: Seq<u32>,
    i: int,
    acc: Seq<Toc>,
) -> Seq<Toc>
    decreases links.len() - i,
{
    if i < 0 || i >= links.len() {
        acc
    } else {
        let (at, words) = links[i];
        match offset_of(at) {
            Some(fp) => if words.len() > 0 && listed.contains(fp as u32) {
                guide_nodes(
                    links,
                    parts,
                    listed,
                    i + 1,
                    acc.push(
                        Toc {
                            id: "mbguide-"@ + decimal(acc.len() as int),
                            label: words,
                            chapter_index: match range_behind(parts, fp, 0) {
                                Some(k) => k as u32,
                                None => 0,
                            },
                            anchor: Some("filepos"@ + decimal(fp)),
                            children: Seq::empty(),
                        },
                    ),
                )
            } else {
                guide_nodes(links, parts, listed, i + 1, acc)
            },
            None => guide_nodes(links, parts, listed, i + 1, acc),
        }
    }
}

/// The table of contents that the guide of a book gives: the first part refers to a page of
/// contents, the links of that page are its items.
pub open spec fn guide_toc(raw: Seq<u8>, encoding: int, parts: Seq<Part>, listed: Seq<u32>) -> Seq<
    Toc,
> {
    if parts.len() == 0 {
        Seq::empty()
    } else {
        match parts[0] {
            Part::Range { start, end } => {
                let html = mobi_text(clipped(raw, start, end), encoding);
                match toc_offset(html, regex_spans(REFERENCE_TAG@, html), 0) {
                    None => Seq::empty(),
                    Some(fp) => match range_around(parts, fp, 0) {
                        None => Seq::empty(),
                        Some((a, b)) => guide_nodes(
                            guide_links(mobi_text(clipped(raw, a, b), encoding)),
                            parts,
                            listed,
                            0,
                            Seq::empty(),
                        ),
                    },
                }
            },
            Part::Kf8 { skel_offset, skel_length, frags } => Seq::empty(),
        }
    }
}

fn is_listed(list: &Vec<u32>, x: u32) -> (r: bool)
    ensures
        r == list@.contains(x),
{
    let mut i: usize = 0;
    while i < list.len()
        invariant
            i <= list@.len(),
            forall|k: int| 0 <= k < i ==> list@[k] != x,
        decreases list@.len() - i,
    {
        if list[i] == x {
            return true;
        }
        i = i + 1;
    }
    false
}

/// A link of a page of contents as it is held in memory.
pub struct GuideLink {
    pub at: Option<Vec<char>>,
    pub words: Vec<char>,
}

impl DeepView for GuideLink {
    type V = (Option<Seq<char>>, Seq<char>);

    open spec fn deep_view(&self) -> (Option<Seq<char>>, Seq<char>) {
        (
            match self.at {
                Some(a) => Some(a@),
                None => None,
            },
            self.words@,
        )
    }
}

/// The nodes that the links of a page of contents give.
pub fn guide_items(links: &Vec<GuideLink>, sections: &Vec<Section>, filepos_list: &Vec<u32>) -> (r:
    Vec<TocItem>)
    ensures
        r.deep_view() == guide_nodes(
            links.deep_view(),
            sections.deep_view(),
            filepos_list@,
            0,
            Seq::empty(),
        ),
{
    let ghost lv = links.deep_view();
    let mut out: Vec<TocItem> = Vec::new();
    proof {
        deep_empty(out);
    }
    let mut i: usize = 0;
    while i < links.len()
        invariant
            i <= links@.len(),
            lv == links.deep_view(),
            guide_nodes(lv, sections.deep_view(), filepos_list@, 0, Seq::empty()) == guide_nodes(
                lv,
                sections.deep_view(),
                filepos_list@,
                i as int,
                out.deep_view(),
            ),
        decreases links@.len() - i,
    {
        let link = &links[i];
        assert(lv[i as int] == link.deep_view());
        let at: Option<Vec<char>> = match &link.at {
            Some(a) => Some(crate::text::part(a, 0, a.len())),
            None => None,
        };
        assert(match at {
            Some(a) => link.at matches Some(b) && a@ =~= b@,
            None => link.at is None,
        });
        if let Some(fp) = read_offset(at) {
            if link.words.len() > 0 && is_listed(filepos_list, fp) {
                let chapter_index: u32 = match find_range_behind(sections, fp as u64) {
                    Some(k) => k as u32,
                    None => 0,
                };
                let node = TocItem {
                    id: with_number("mbguide-", out.len() as u64),
                    label: string_of(&link.words),
                    chapter_index,
                    anchor: Some(with_number("filepos", fp as u64)),
                    children: Vec::new(),
                };
                let ghost before = out;
                out.push(node);
                proof {
                    toc_children_view(node);
                    deep_empty(node.children);
                    deep_push(before, node, out);
                }
            }
        }
        i = i + 1;
    }
    out
}

fn read_guide_links(html: &[char]) -> (r: Vec<GuideLink>)
    ensures
        r.deep_view() == guide_links(html@),
{
    let rows = spans(GUIDE_ANCHOR, html);
    let ghost want = guide_links(html@);
    let mut out: Vec<GuideLink> = Vec::new();
    proof {
        deep_empty(out);
        assert(want.take(0) =~= Seq::empty());
    }
    let mut i: usize = 0;
    while i < rows.len()
        invariant
            i <= rows@.len(),
            ints(rows@) == regex_spans(GUIDE_ANCHOR@, html@),
            crate::regexes::in_order(ints(rows@), html@.len() as int),
            want == guide_links(html@),
            out.deep_view() == want.take(i as int),
        decreases rows@.len() - i,
    {
        proof {
            row_of(rows@, i as int, html@.len() as int);
        }
        let at = group(html, &rows[i], 1);
        let words = match group(html, &rows[i], 2) {
            Some(t) => words_of(&t),
            None => {
                let none: Vec<char> = Vec::new();
                assert(none@ =~= Seq::empty());
                words_of(&none)
            },
        };
        let link = GuideLink { at, words };
        let ghost before = out;
        out.push(link);
        proof {
            deep_push(before, link, out);
            crate::views::take_push(want, i as int);
            assert(link.deep_view() == want[i as int]);
        }
        i = i + 1;
    }
    assert(want.take(i as int) =~= want);
    out
}

/// The table of contents that the guide of a book gives.
pub fn build_toc_from_guide(
    raw: &[u8],
    encoding: u64,
    sections: &Vec<Section>,
    filepos_list: &Vec<u32>,
) -> (r: Vec<TocItem>)
    ensures
        r.deep_view() == guide_toc(raw@, encoding as int, sections.deep_view(), filepos_list@),
{
    let none: Vec<TocItem> = Vec::new();
    proof {
        deep_empty(none);
    }
    if sections.len() == 0 {
        return none;
    }
    assert(sections.deep_view()[0] == sections@[0].deep_view());
    match &sections[0] {
        Section::Range { start, end } => {
            let html = decode_bytes(clip(raw, *start, *end), encoding);
            match find_toc_offset(&html) {
                None => none,
                Some(fp) => match find_range_around(sections, fp as u64) {
                    None => none,
                    Some((a, b)) => {
                        let page = decode_bytes(clip(raw, a, b), encoding);
                        let links = read_guide_links(&page);
                        guide_items(&links, sections, filepos_list)
                    },
                },
            }
        },
        Section::Kf8(_) => none,
    }
}

// ---------------------------------------------------------------------------
// Titles of sections
// ---------------------------------------------------------------------------

/// The title of a section without one: its first heading, within its first 4096 bytes; empty
/// where there is none.
pub open spec fn heading_title(bytes: Seq<u8>, encoding: int) -> Seq<char> {
    let html = mobi_text(clipped(bytes, 0, 4096), encoding);
    if regex_spans(HEADING@, html).len() == 0 {
        Seq::empty()
    } else {
        match first_group(HEADING@, html, 1) {
            Some(t) => plain_words(t),
            None => plain_words(Seq::empty()),
        }
    }
}

/// The title of a section without one.
pub fn section_fallback_title(bytes: &[u8], encoding: u64) -> (r: String)
    ensures
        r@ == heading_title(bytes@, encoding as int),
{
    let html = decode_bytes(clip(bytes, 0, 4096), encoding);
    let rows = spans(HEADING, &html);
    if rows.len() == 0 {
        let r = String::new();
        assert(r@ =~= Seq::empty());
        return r;
    }
    proof {
        row_of(rows@, 0, html@.len() as int);
    }
    let words = match group(&html, &rows[0], 1) {
        Some(t) => words_of(&t),
        None => {
            let none: Vec<char> = Vec::new();
            assert(none@ =~= Seq::empty());
            words_of(&none)
        },
    };
    string_of(&words)
}

} // verus!
