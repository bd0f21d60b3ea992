//! The table of contents of an EPUB: the navigation document, or the older NCX.
use vstd::prelude::*;
use crate::archive::{entry_text, Archive, Zip};
use crate::error::{joined, with_number, AppError, AppResult, Failure};
use crate::model::{toc_children_view, Toc, TocItem};
use crate::numbers::decimal;
use crate::parser::epub::hrefs::{
    fragment_split, parent, parent_of, place, placed, plain_text, resolve, resolve_entities, resolved,
    split_fragment,
};
use crate::parser::epub::package::{attr_or_empty, find_attr, or_empty};
use crate::parser::is_word;
use crate::regexes::{
    find_group, first_group, group, group_text, ints, regex_spans, remove, row_ints, row_of,
    row_within, spans, splice, spliced, without, Groups, ANY_TAG, NAMED_TAG, NAV_ANCHOR, NAV_BLOCK,
};
use crate::text::{
    chars_of, lower_ascii, part, push_all, same, string_of, texts, to_lower_ascii, trim, trimmed,
};
use crate::views::{deep_empty, deep_pop, deep_push};
use crate::xml::{attrs_of, name_of_tag, read_events, tag_name, xml_events, Xml, XmlEvent};

verus! {

/// The last of the first `k` chapters that stands at a path.
pub open spec fn chapter_at(keys: Seq<Seq<char>>, path: Seq<char>, k: int) -> Option<int>
    decreases k,
{
    if k <= 0 || k > keys.len() {
        None
    } else if keys[k - 1] == path {
        Some(k - 1)
    } else {
        chapter_at(keys, path, k - 1)
    }
}

/// The last chapter that stands at a path.
pub fn find_chapter(keys: &Vec<Vec<char>>, path: &[char]) -> (r: Option<usize>)
    ensures
        match r {
            Some(i) => i < keys@.len() && chapter_at(texts(keys@), path@, keys@.len() as int)
                == Some(i as int),
            None => chapter_at(texts(keys@), path@, keys@.len() as int) is None,
        },
{
    let mut i: usize = keys.len();
    while i > 0
        invariant
            i <= keys@.len(),
            chapter_at(texts(keys@), path@, keys@.len() as int) == chapter_at(
                texts(keys@),
                path@,
                i as int,
            ),
        decreases i,
    {
        assert(texts(keys@)[i - 1] == keys@[i - 1]@);
        if same(&keys[i - 1], path) {
            return Some(i - 1);
        }
        i = i - 1;
    }
    None
}

// ---------------------------------------------------------------------------
// The navigation document
// ---------------------------------------------------------------------------

/// What a tag is exchanged for: anchors stay, every other tag goes.
pub open spec fn anchor_or_nothing(html: Seq<char>, m: Groups) -> Seq<char> {
    match group_text(html, m, 2) {
        Some(name) => if lower_ascii(name) == "a"@ {
            group_text(html, m, 0).unwrap()
        } else {
            Seq::empty()
        },
        None => Seq::empty(),
    }
}

/// What each tag is exchanged for.
pub open spec fn anchors_kept(html: Seq<char>, found: Seq<Groups>) -> Seq<Seq<char>> {
    Seq::new(found.len(), |i: int| anchor_or_nothing(html, found[i]))
}

/// The text with every tag taken out but anchors.
pub open spec fn only_anchors(html: Seq<char>) -> Seq<char> {
    let found = regex_spans(NAMED_TAG@, html);
    spliced(html, found, anchors_kept(html, found))
}

/// Takes every tag out but anchors.
pub fn keep_anchors(html: &[char]) -> (r: Vec<char>)
    ensures
        r@ == only_anchors(html@),
{
    let rows = spans(NAMED_TAG, html);
    let ghost found = ints(rows@);
    let mut with: Vec<Vec<char>> = Vec::new();
    let mut i: usize = 0;
    while i < rows.len()
        invariant
            i <= rows@.len(),
            found == ints(rows@),
            crate::regexes::in_order(found, html@.len() as int),
            with@.len() == i,
            forall|j: int|
                0 <= j < i ==> (#[trigger] with@[j])@ == anchor_or_nothing(html@, found[j]),
        decreases rows@.len() - i,
    {
        proof {
            row_of(rows@, i as int, html@.len() as int);
        }
        let mut piece: Vec<char> = Vec::new();
        if let Some(name) = group(html, &rows[i], 2) {
            let low = to_lower_ascii(&name);
            if is_word(&low, "a") {
                if let Some(whole) = group(html, &rows[i], 0) {
                    piece = whole;
                }
            }
        }
        assert(piece@ =~= anchor_or_nothing(html@, found[i as int]));
        with.push(piece);
        i = i + 1;
    }
    assert(texts(with@) =~= anchors_kept(html@, found));
    splice(html, &rows, &with)
}

/// Takes every tag out but anchors.
pub fn strip_tags_except_a(html: &str) -> (r: String)
    ensures
        r@ == only_anchors(html@),
{
    let cs = chars_of(html);
    let out = keep_anchors(&cs);
    string_of(&out)
}

/// The text without its tags.
pub open spec fn without_tags(html: Seq<char>) -> Seq<char> {
    without(html, regex_spans(ANY_TAG@, html))
}

/// The reference of an anchor: in double quotes, or in single ones.
pub open spec fn anchor_href(block: Seq<char>, m: Groups) -> Seq<char> {
    match group_text(block, m, 1) {
        Some(h) => h,
        None => match group_text(block, m, 2) {
            Some(h) => h,
            None => Seq::empty(),
        },
    }
}

/// The words of an anchor.
pub open spec fn anchor_label(block: Seq<char>, m: Groups) -> Seq<char> {
    trimmed(
        without_tags(
            match group_text(block, m, 3) {
                Some(t) => t,
                None => Seq::empty(),
            },
        ),
    )
}

/// The entries that anchors of a navigation document add to those before, from the `i`-th on. An
/// anchor without a reference or words adds none, nor does one that leads outside the chapters.
pub open spec fn nav_entries(
    block: Seq<char>,
    found: Seq<Groups>,
    dir: Seq<char>,
    keys: Seq<Seq<char>>,
    i: int,
    done: Seq<Toc>,
) -> Seq<Toc>
    decreases found.len() - i,
{
    if i < 0 || i >= found.len() {
        done
    } else {
        let href = anchor_href(block, found[i]);
        let label = anchor_label(block, found[i]);
        let (path, frag) = fragment_split(href);
        let at = chapter_at(keys, resolved(dir, path), keys.len() as int);
        if href.len() == 0 || label.len() == 0 || at is None {
            nav_entries(block, found, dir, keys, i + 1, done)
        } else {
            nav_entries(
                block,
                found,
                dir,
                keys,
                i + 1,
                done.push(
                    Toc {
                        id: "nav-"@ + decimal(done.len() as int),
                        label: plain_text(label),
                        chapter_index: at.unwrap() as u32,
                        anchor: frag,
                        children: Seq::empty(),
                    },
                ),
            )
        }
    }
}

/// The table that a navigation document holds: the anchors of its first `nav`, or of all of it
/// where it has none.
pub open spec fn nav_toc_of(xml: Seq<char>, dir: Seq<char>, keys: Seq<Seq<char>>) -> Seq<Toc> {
    let block = only_anchors(
        match first_group(NAV_BLOCK@, xml, 1) {
            Some(t) => t,
            None => xml,
        },
    );
    nav_entries(block, regex_spans(NAV_ANCHOR@, block), dir, keys, 0, Seq::empty())
}

/// The table of the navigation document at a place.
pub open spec fn nav_toc(
    z: Zip,
    nav_href: Seq<char>,
    opf_dir: Seq<char>,
    keys: Seq<Seq<char>>,
) -> Result<Seq<Toc>, Failure> {
    let path = placed(opf_dir, nav_href);
    match entry_text(z, path) {
        Ok(xml) => Ok(nav_toc_of(xml, parent(path), keys)),
        Err(e) => Err(e),
    }
}

fn leaf_node(id: String, label: String, chapter: u32, anchor: Option<String>) -> (r: TocItem)
    ensures
        r.deep_view() == (Toc {
            id: id@,
            label: label@,
            chapter_index: chapter,
            anchor: anchor.deep_view(),
            children: Seq::empty(),
        }),
{
    let r = TocItem { id, label, chapter_index: chapter, anchor, children: Vec::new() };
    proof {
        toc_children_view(r);
        deep_empty(r.children);
    }
    r
}

fn href_of_anchor(block: &[char], row: &Vec<Option<(usize, usize)>>) -> (r: Vec<char>)
    requires
        row_within(row_ints(row@), block@.len() as int),
    ensures
        r@ == anchor_href(block@, row_ints(row@)),
{
    match group(block, row, 1) {
        Some(h) => h,
        None => match group(block, row, 2) {
            Some(h) => h,
            None => Vec::new(),
        },
    }
}

fn label_of_anchor(block: &[char], row: &Vec<Option<(usize, usize)>>) -> (r: Vec<char>)
    requires
        row_within(row_ints(row@), block@.len() as int),
    ensures
        r@ == anchor_label(block@, row_ints(row@)),
{
    let inner = match group(block, row, 3) {
        Some(t) => t,
        None => {
            let none: Vec<char> = Vec::new();
            assert(none@ =~= Seq::empty());
            none
        },
    };
    let bare = remove(ANY_TAG, &inner);
    let t = trim(&bare);
    let r = part(t, 0, t.len());
    assert(r@ =~= t@);
    r
}

/// The table that a navigation document holds.
pub fn read_nav(xml: &[char], dir: &[char], keys: &Vec<Vec<char>>) -> (r: Vec<TocItem>)
    ensures
        r.deep_view() == nav_toc_of(xml@, dir@, texts(keys@)),
{
    let block = match find_group(NAV_BLOCK, xml, 1) {
        Some(t) => keep_anchors(&t),
        None => keep_anchors(xml),
    };
    let rows = spans(NAV_ANCHOR, &block);
    let ghost found = ints(rows@);
    let ghost ks = texts(keys@);
    let ghost want = nav_toc_of(xml@, dir@, ks);
    let mut out: Vec<TocItem> = Vec::new();
    proof {
        deep_empty(out);
    }
    let mut i: usize = 0;
    while i < rows.len()
        invariant
            i <= rows@.len(),
            found == ints(rows@),
            ks == texts(keys@),
            crate::regexes::in_order(found, block@.len() as int),
            want == nav_entries(block@, found, dir@, ks, i as int, out.deep_view()),
        decreases rows@.len() - i,
    {
        proof {
            row_of(rows@, i as int, block@.len() as int);
        }
        let href = href_of_anchor(&block, &rows[i]);
        let label = label_of_anchor(&block, &rows[i]);
        if href.len() > 0 && label.len() > 0 {
            let (path, frag) = split_fragment(&href);
            let norm = resolve(dir, &path);
            if let Some(at) = find_chapter(keys, &norm) {
                let plain = resolve_entities(&label);
                let node = leaf_node(
                    with_number("nav-", out.len() as u64),
                    string_of(&plain),
                    at as u32,
                    frag,
                );
                let ghost before = out;
                out.push(node);
                proof {
                    deep_push(before, node, out);
                }
            }
        }
        i = i + 1;
    }
    out
}

/// The table of the navigation document at a place.
pub fn parse_nav_toc(
    archive: &Archive,
    nav_href: &str,
    opf_dir: &[char],
    keys: &Vec<Vec<char>>,
) -> (r: AppResult<Vec<TocItem>>)
    ensures
        match r {
            Ok(t) => nav_toc(archive.deep_view(), nav_href@, opf_dir@, texts(keys@)) == Ok::<
                Seq<Toc>,
                Failure,
            >(t.deep_view()),
            Err(e) => nav_toc(archive.deep_view(), nav_href@, opf_dir@, texts(keys@)) == Err::<
                Seq<Toc>,
                Failure,
            >(e@),
        },
{
    let path = place(opf_dir, &chars_of(nav_href));
    match archive.read_entry_string(string_of(&path).as_str()) {
        Ok(xml) => {
            let dir = parent_of(&path);
            Ok(read_nav(&chars_of(xml.as_str()), &dir, keys))
        },
        Err(e) => Err(e),
    }
}

/// Every entry of a navigation document leads to a chapter of the book, and none stands in
/// another.
pub proof fn nav_leads_to_chapters(
    block: Seq<char>,
    found: Seq<Groups>,
    dir: Seq<char>,
    keys: Seq<Seq<char>>,
    i: int,
    done: Seq<Toc>,
)
    requires
        keys.len() <= u32::MAX,
        forall|k: int|
            0 <= k < done.len() ==> (#[trigger] done[k]).chapter_index < keys.len()
                && done[k].children.len() == 0,
    ensures
        ({
            let all = nav_entries(block, found, dir, keys, i, done);
            forall|k: int|
                0 <= k < all.len() ==> (#[trigger] all[k]).chapter_index < keys.len()
                    && all[k].children.len() == 0
        }),
    decreases found.len() - i,
{
    if 0 <= i < found.len() {
        let href = anchor_href(block, found[i]);
        let label = anchor_label(block, found[i]);
        let (path, frag) = fragment_split(href);
        let at = chapter_at(keys, resolved(dir, path), keys.len() as int);
        chapter_at_is_last(keys, resolved(dir, path), keys.len() as int);
        if href.len() == 0 || label.len() == 0 || at is None {
            nav_leads_to_chapters(block, found, dir, keys, i + 1, done);
        } else {
            let next = done.push(
                Toc {
                    id: "nav-"@ + decimal(done.len() as int),
                    label: plain_text(label),
                    chapter_index: at.unwrap() as u32,
                    anchor: frag,
                    children: Seq::empty(),
                },
            );
            nav_leads_to_chapters(block, found, dir, keys, i + 1, next);
        }
    }
}

/// The chapter found at a path stands there, and none after it does.
pub proof fn chapter_at_is_last(keys: Seq<Seq<char>>, path: Seq<char>, k: int)
    requires
        0 <= k <= keys.len(),
    ensures
        match chapter_at(keys, path, k) {
            Some(i) => 0 <= i < k && keys[i] == path && forall|j: int|
                i < j < k ==> keys[j] != path,
            None => forall|j: int| 0 <= j < k ==> keys[j] != path,
        },
    decreases k,
{
    if k > 0 {
        chapter_at_is_last(keys, path, k - 1);
    }
}

// ---------------------------------------------------------------------------
// The older table of contents
// ---------------------------------------------------------------------------

/// How far an NCX is read: the entries that are open, outermost first, those that are done, and
/// the words of a label.
#[verifier::ext_equal]
pub struct NcxState {
    pub stack: Seq<Toc>,
    pub roots: Seq<Toc>,
    pub in_label: bool,
    pub words: Seq<char>,
}

/// An entry with the words read for it as its label; one without any is numbered by its chapter.
pub open spec fn labelled(t: Toc, words: Seq<char>) -> Toc {
    if trimmed(words).len() > 0 {
        Toc { label: plain_text(trimmed(words)), ..t }
    } else if t.label.len() == 0 {
        Toc { label: "章节 "@ + decimal(t.chapter_index + 1), ..t }
    } else {
        t
    }
}

/// The entries with the last exchanged.
pub open spec fn with_last(stack: Seq<Toc>, t: Toc) -> Seq<Toc> {
    stack.drop_last().push(t)
}

/// What reading a tag that opens an element changes. A new entry opens within the last; a
/// reference leads the last to its chapter, or to the first where there is none.
pub open spec fn ncx_tag(s: NcxState, tag: Seq<char>, dir: Seq<char>, keys: Seq<Seq<char>>) -> NcxState {
    let name = tag_name(tag);
    if name == "navPoint"@ {
        let base = if s.stack.len() > 0 {
            with_last(s.stack, labelled(s.stack.last(), s.words))
        } else {
            s.stack
        };
        NcxState {
            stack: base.push(
                Toc {
                    id: "ncx-"@ + decimal(base.len() as int),
                    label: Seq::empty(),
                    chapter_index: 0,
                    anchor: None,
                    children: Seq::empty(),
                },
            ),
            words: if s.stack.len() > 0 {
                Seq::empty()
            } else {
                s.words
            },
            ..s
        }
    } else if name == "navLabel"@ {
        NcxState { in_label: true, ..s }
    } else if name == "content"@ && s.stack.len() > 0 {
        let (path, frag) = fragment_split(attr_or_empty(tag, "src"@));
        let at = chapter_at(keys, resolved(dir, path), keys.len() as int);
        let t = Toc {
            chapter_index: match at {
                Some(i) => i as u32,
                None => 0,
            },
            anchor: frag,
            ..s.stack.last()
        };
        NcxState { stack: with_last(s.stack, t), ..s }
    } else {
        s
    }
}

/// What the end of an element changes: an entry that ends goes to the one it stands in, or to
/// those that are done.
pub open spec fn ncx_close(s: NcxState, name: Seq<char>) -> NcxState {
    if name == "navLabel"@ {
        NcxState { in_label: false, ..s }
    } else if name == "navPoint"@ && s.stack.len() > 0 {
        let node = labelled(s.stack.last(), s.words);
        let rest = s.stack.drop_last();
        if rest.len() > 0 {
            let up = rest.last();
            NcxState {
                stack: with_last(rest, Toc { children: up.children.push(node), ..up }),
                words: Seq::empty(),
                ..s
            }
        } else {
            NcxState { stack: rest, roots: s.roots.push(node), words: Seq::empty(), ..s }
        }
    } else {
        s
    }
}

/// What reading an event changes.
pub open spec fn ncx_step(s: NcxState, e: Xml, dir: Seq<char>, keys: Seq<Seq<char>>) -> NcxState {
    match e {
        Xml::Open(tag) => ncx_tag(s, tag, dir, keys),
        Xml::Single(tag) => ncx_tag(s, tag, dir, keys),
        Xml::Words(w) => if s.in_label {
            NcxState { words: s.words + plain_text(w), ..s }
        } else {
            s
        },
        Xml::Close(name) => ncx_close(s, name),
        _ => s,
    }
}

/// What the events from the `i`-th on make of what is read.
pub open spec fn ncx_from(
    events: Seq<Xml>,
    dir: Seq<char>,
    keys: Seq<Seq<char>>,
    i: int,
    s: NcxState,
) -> Result<Seq<Toc>, Failure>
    decreases events.len() - i,
{
    if i < 0 || i >= events.len() {
        Ok(s.roots)
    } else {
        match events[i] {
            Xml::Failed(m) => Err(Failure::Xml("NCX: "@ + m)),
            _ => ncx_from(events, dir, keys, i + 1, ncx_step(s, events[i], dir, keys)),
        }
    }
}

/// Nothing read yet.
pub open spec fn ncx_start() -> NcxState {
    NcxState { stack: Seq::empty(), roots: Seq::empty(), in_label: false, words: Seq::empty() }
}

/// The table of the NCX at a place.
pub open spec fn ncx_toc(
    z: Zip,
    ncx_href: Seq<char>,
    opf_dir: Seq<char>,
    keys: Seq<Seq<char>>,
) -> Result<Seq<Toc>, Failure> {
    let path = placed(opf_dir, ncx_href);
    match entry_text(z, path) {
        Ok(xml) => ncx_from(xml_events(xml), parent(path), keys, 0, ncx_start()),
        Err(e) => Err(e),
    }
}

fn attach_label(item: TocItem, words: &[char]) -> (r: TocItem)
    ensures
        r.deep_view() == labelled(item.deep_view(), words@),
{
    proof {
        toc_children_view(item);
    }
    let t = trim(words);
    let TocItem { id, label, chapter_index, anchor, children } = item;
    let n = chars_of(label.as_str()).len();
    let label = if t.len() > 0 {
        let plain = resolve_entities(t);
        string_of(&plain)
    } else if n == 0 {
        with_number("章节 ", chapter_index as u64 + 1)
    } else {
        label
    };
    let r = TocItem { id, label, chapter_index, anchor, children };
    proof {
        toc_children_view(r);
    }
    assert(r.deep_view() =~= labelled(item.deep_view(), words@));
    r
}

struct NcxReading {
    stack: Vec<TocItem>,
    roots: Vec<TocItem>,
    in_label: bool,
    words: Vec<char>,
}

impl NcxReading {
    spec fn state(&self) -> NcxState {
        NcxState {
            stack: self.stack.deep_view(),
            roots: self.roots.deep_view(),
            in_label: self.in_label,
            words: self.words@,
        }
    }

    fn open_point(&mut self)
        ensures
            forall|tag: Seq<char>, dir: Seq<char>, keys: Seq<Seq<char>>|
                tag_name(tag) == "navPoint"@ ==> final(self).state() == #[trigger] ncx_tag(
                    old(self).state(),
                    tag,
                    dir,
                    keys,
                ),
    {
        let ghost before = self.stack;
        if let Some(top) = self.stack.pop() {
            let ghost popped = self.stack;
            proof {
                deep_pop(before, popped);
            }
            let t = attach_label(top, &self.words);
            self.stack.push(t);
            proof {
                deep_push(popped, t, self.stack);
            }
            self.words = Vec::new();
            assert(self.words@ =~= Seq::<char>::empty());
        }
        let ghost base = self.stack;
        let empty = String::new();
        assert(empty@ =~= Seq::<char>::empty());
        let node = leaf_node(with_number("ncx-", self.stack.len() as u64), empty, 0, None);
        self.stack.push(node);
        proof {
            deep_push(base, node, self.stack);
        }
    }

    fn point_to(&mut self, tag: &String, dir: &[char], keys: &Vec<Vec<char>>)
        requires
            tag_name(tag@) == "content"@,
            tag_name(tag@) != "navPoint"@,
            tag_name(tag@) != "navLabel"@,
        ensures
            final(self).state() == ncx_tag(old(self).state(), tag@, dir@, texts(keys@)),
    {
        let attrs = attrs_of(tag.as_str());
        let src = chars_of(or_empty(find_attr(&attrs, "src")).as_str());
        let ghost before = self.stack;
        if let Some(top) = self.stack.pop() {
            let ghost popped = self.stack;
            proof {
                deep_pop(before, popped);
                toc_children_view(top);
            }
            let (path, frag) = split_fragment(&src);
            let norm = resolve(dir, &path);
            let chapter_index: u32 = match find_chapter(keys, &norm) {
                Some(i) => i as u32,
                None => 0,
            };
            let t = TocItem {
                id: top.id,
                label: top.label,
                chapter_index,
                anchor: frag,
                children: top.children,
            };
            self.stack.push(t);
            proof {
                toc_children_view(t);
                deep_push(popped, t, self.stack);
            }
        }
    }

    fn read_tag(&mut self, tag: &String, dir: &[char], keys: &Vec<Vec<char>>)
        ensures
            final(self).state() == ncx_tag(old(self).state(), tag@, dir@, texts(keys@)),
    {
        proof {
            reveal_strlit("navPoint");
            reveal_strlit("navLabel");
            reveal_strlit("content");
            assert("navPoint"@[3] == 'P' && "navLabel"@[3] == 'L' && "content"@.len() == 7);
        }
        let name = name_of_tag(&chars_of(tag.as_str()));
        if is_word(&name, "navPoint") {
            self.open_point();
            assert(self.state() == ncx_tag(old(self).state(), tag@, dir@, texts(keys@)));
        } else if is_word(&name, "navLabel") {
            self.in_label = true;
        } else if is_word(&name, "content") {
            self.point_to(tag, dir, keys);
        }
    }

    fn read_close(&mut self, name: &String)
        ensures
            final(self).state() == ncx_close(old(self).state(), name@),
    {
        let n = chars_of(name.as_str());
        if is_word(&n, "navLabel") {
            self.in_label = false;
        } else if is_word(&n, "navPoint") {
            let ghost before = self.stack;
            if let Some(last) = self.stack.pop() {
                let ghost popped = self.stack;
                proof {
                    deep_pop(before, popped);
                }
                let node = attach_label(last, &self.words);
                self.words = Vec::new();
                assert(self.words@ =~= Seq::<char>::empty());
                match self.stack.pop() {
                    Some(up) => {
                        let ghost rest = self.stack;
                        proof {
                            deep_pop(popped, rest);
                            toc_children_view(up);
                        }
                        let mut children = up.children;
                        let ghost old_children = children;
                        children.push(node);
                        let t = TocItem {
                            id: up.id,
                            label: up.label,
                            chapter_index: up.chapter_index,
                            anchor: up.anchor,
                            children,
                        };
                        self.stack.push(t);
                        proof {
                            deep_push(old_children, node, children);
                            toc_children_view(t);
                            deep_push(rest, t, self.stack);
                        }
                    },
                    None => {
                        let ghost done = self.roots;
                        self.roots.push(node);
                        proof {
                            deep_push(done, node, self.roots);
                        }
                    },
                }
            }
        }
    }
}

/// The table that the events of an NCX make.
pub fn read_ncx(events: &Vec<XmlEvent>, dir: &[char], keys: &Vec<Vec<char>>) -> (r: AppResult<
    Vec<TocItem>,
>)
    ensures
        match r {
            Ok(t) => ncx_from(events.deep_view(), dir@, texts(keys@), 0, ncx_start()) == Ok::<
                Seq<Toc>,
                Failure,
            >(t.deep_view()),
            Err(e) => ncx_from(events.deep_view(), dir@, texts(keys@), 0, ncx_start()) == Err::<
                Seq<Toc>,
                Failure,
            >(e@),
        },
{
    let ghost ev = events.deep_view();
    let ghost ks = texts(keys@);
    let mut s = NcxReading {
        stack: Vec::new(),
        roots: Vec::new(),
        in_label: false,
        words: Vec::new(),
    };
    proof {
        deep_empty(s.stack);
        deep_empty(s.roots);
        assert(s.words@ =~= Seq::<char>::empty());
    }
    assert(s.state() =~= ncx_start());
    let mut i: usize = 0;
    while i < events.len()
        invariant
            i <= events@.len(),
            ev == events.deep_view(),
            ks == texts(keys@),
            ncx_from(ev, dir@, ks, 0, ncx_start()) == ncx_from(ev, dir@, ks, i as int, s.state()),
        decreases events@.len() - i,
    {
        assert(ev[i as int] == events@[i as int].deep_view());
        match &events[i] {
            XmlEvent::Open(tag) | XmlEvent::Single(tag) => {
                s.read_tag(tag, dir, keys);
            },
            XmlEvent::Words(w) => {
                if s.in_label {
                    let plain = resolve_entities(&chars_of(w.as_str()));
                    push_all(&mut s.words, &plain);
                }
            },
            XmlEvent::Close(name) => {
                s.read_close(name);
            },
            XmlEvent::Failed(m) => {
                return Err(AppError::Xml(joined("NCX: ", m.as_str())));
            },
            _ => {},
        }
        i = i + 1;
    }
    Ok(s.roots)
}

/// The table of the NCX at a place.
pub fn parse_ncx_toc(
    archive: &Archive,
    ncx_href: &str,
    opf_dir: &[char],
    keys: &Vec<Vec<char>>,
) -> (r: AppResult<Vec<TocItem>>)
    ensures
        match r {
            Ok(t) => ncx_toc(archive.deep_view(), ncx_href@, opf_dir@, texts(keys@)) == Ok::<
                Seq<Toc>,
                Failure,
            >(t.deep_view()),
            Err(e) => ncx_toc(archive.deep_view(), ncx_href@, opf_dir@, texts(keys@)) == Err::<
                Seq<Toc>,
                Failure,
            >(e@),
        },
{
    let path = place(opf_dir, &chars_of(ncx_href));
    match archive.read_entry_string(string_of(&path).as_str()) {
        Ok(xml) => {
            let dir = parent_of(&path);
            let events = read_events(xml.as_str());
            read_ncx(&events, &dir, keys)
        },
        Err(e) => Err(e),
    }
}

} // verus!
