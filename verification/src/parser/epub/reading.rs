//! What the package file and the tables of contents of an EPUB book are read as.
use vstd::prelude::*;
use crate::error::Failure;
use crate::model::Toc;
use crate::numbers::decimal;
use crate::parser::epub::book::{chapter_paths, cover_path, spine_paths, spine_toc};
use crate::parser::epub::hrefs::{fragment_split, placed, plain_text, resolved};
use crate::parser::epub::opf::{
    has_property, item_by_id, item_with_property, opf_step, Item, OpfState, Pkg, Section,
};
use crate::parser::epub::package::attr_or_empty;
use crate::parser::epub::toc::{
    anchor_href, anchor_label, chapter_at, chapter_at_is_last, labelled, nav_entries, ncx_from, ncx_start,
    ncx_step, with_last, NcxState,
};
use crate::regexes::Groups;
use crate::text::trimmed;
use crate::xml::{tag_name, Xml};

verus! {

// ---------------------------------------------------------------------------
// The order of the chapters
// ---------------------------------------------------------------------------

/// No two files are listed under one identifier.
pub open spec fn ids_differ(m: Seq<Item>) -> bool {
    forall|i: int, j: int|
        #![trigger m[i], m[j]]
        0 <= i < j < m.len() ==> m[i].id != m[j].id
}

proof fn item_is_found(m: Seq<Item>, i: int, k: int)
    requires
        ids_differ(m),
        0 <= i < k <= m.len(),
    ensures
        item_by_id(m, m[i].id, k) == Some(i),
    decreases k,
{
    if i < k - 1 {
        assert(m[i].id != m[k - 1].id);
        item_is_found(m, i, k - 1);
    }
}

proof fn chapters_so_far(pkg: Pkg, dir: Seq<char>, of: Seq<int>, k: int)
    requires
        ids_differ(pkg.manifest),
        of.len() == pkg.spine.len(),
        forall|j: int|
            0 <= j < of.len() ==> 0 <= #[trigger] of[j] < pkg.manifest.len() && pkg.spine[j]
                == pkg.manifest[of[j]].id,
        0 <= k <= of.len(),
    ensures
        spine_paths(pkg, dir, k).len() == k,
        forall|j: int|
            0 <= j < k ==> #[trigger] spine_paths(pkg, dir, k)[j] == placed(dir, pkg.manifest[of[j]].href),
    decreases k,
{
    if k > 0 {
        chapters_so_far(pkg, dir, of, k - 1);
        assert(0 <= of[k - 1]);
        item_is_found(pkg.manifest, of[k - 1], pkg.manifest.len() as int);
    }
}

/// The chapters come in the order in which the spine refers to them, each at the place that the manifest
/// gives for it, whatever the order of the manifest.
pub proof fn chapters_come_as_the_spine_says(pkg: Pkg, dir: Seq<char>, of: Seq<int>)
    requires
        ids_differ(pkg.manifest),
        of.len() == pkg.spine.len(),
        forall|j: int|
            0 <= j < of.len() ==> 0 <= #[trigger] of[j] < pkg.manifest.len() && pkg.spine[j]
                == pkg.manifest[of[j]].id,
    ensures
        chapter_paths(pkg, dir).len() == of.len(),
        forall|j: int|
            0 <= j < of.len() ==> #[trigger] chapter_paths(pkg, dir)[j] == placed(
                dir,
                pkg.manifest[of[j]].href,
            ),
{
    chapters_so_far(pkg, dir, of, of.len() as int);
}

/// Without a table of its own a book has an entry for each chapter, in order.
pub proof fn a_book_without_a_table_has_its_chapters(paths: Seq<Seq<char>>, i: int)
    requires
        0 <= i < paths.len() <= u32::MAX,
    ensures
        spine_toc(paths).len() == paths.len(),
        spine_toc(paths)[i].chapter_index == i,
        spine_toc(paths)[i].anchor is None,
        spine_toc(paths)[i].children.len() == 0,
{
}

proof fn property_is_found(m: Seq<Item>, word: Seq<char>, i: int, from: int)
    requires
        0 <= from <= i < m.len(),
        has_property(m[i], word),
        forall|k: int| from <= k < i ==> !has_property(#[trigger] m[k], word),
    ensures
        item_with_property(m, word, from) == Some(i),
    decreases i - from,
{
    if from < i {
        property_is_found(m, word, i, from + 1);
    }
}

proof fn property_is_missing(m: Seq<Item>, word: Seq<char>, from: int)
    requires
        0 <= from <= m.len(),
        forall|k: int| from <= k < m.len() ==> !has_property(#[trigger] m[k], word),
    ensures
        item_with_property(m, word, from) is None,
    decreases m.len() - from,
{
    if from < m.len() {
        property_is_missing(m, word, from + 1);
    }
}

/// The cover is the file that has the property, whatever else the metadata names; without such a file it is
/// the one that the metadata names.
pub proof fn the_cover_is_the_one_that_is_marked(pkg: Pkg, dir: Seq<char>, i: int)
    requires
        ids_differ(pkg.manifest),
        0 <= i < pkg.manifest.len(),
        forall|k: int|
            0 <= k < i ==> !has_property(#[trigger] pkg.manifest[k], "cover-image"@),
        has_property(pkg.manifest[i], "cover-image"@) || (pkg.cover_id == Some(pkg.manifest[i].id) && forall|
            k: int,
        |
            0 <= k < pkg.manifest.len() ==> !has_property(#[trigger] pkg.manifest[k], "cover-image"@)),
    ensures
        cover_path(pkg, dir) == Some(placed(dir, pkg.manifest[i].href)),
{
    if has_property(pkg.manifest[i], "cover-image"@) {
        property_is_found(pkg.manifest, "cover-image"@, i, 0);
    } else {
        property_is_missing(pkg.manifest, "cover-image"@, 0);
        item_is_found(pkg.manifest, i, pkg.manifest.len() as int);
    }
}

// ---------------------------------------------------------------------------
// The package file
// ---------------------------------------------------------------------------

/// A file that the manifest lists is put behind those before it, under its identifier, at its place, with its
/// media type; nothing else changes. Outside the manifest it is not listed.
pub proof fn a_listed_file_is_taken(s: OpfState, tag: Seq<char>)
    requires
        tag_name(tag) == "item"@,
        attr_or_empty(tag, "id"@).len() > 0,
        attr_or_empty(tag, "href"@).len() > 0,
    ensures
        s.section == Section::Manifest ==> ({
            let after = opf_step(s, Xml::Single(tag));
            &&& after == opf_step(s, Xml::Open(tag))
            &&& after.section == s.section && after.field == s.field
            &&& after.pkg == (Pkg { manifest: after.pkg.manifest, ..s.pkg })
            &&& after.pkg.manifest.len() == s.pkg.manifest.len() + 1
            &&& after.pkg.manifest.drop_last() == s.pkg.manifest
            &&& after.pkg.manifest.last().id == attr_or_empty(tag, "id"@)
            &&& after.pkg.manifest.last().href == resolved(Seq::empty(), attr_or_empty(tag, "href"@))
            &&& after.pkg.manifest.last().media_type == attr_or_empty(tag, "media-type"@)
        }),
        s.section != Section::Manifest ==> opf_step(s, Xml::Single(tag)) == s,
{
    reveal_strlit("item");
    reveal_strlit("manifest");
    reveal_strlit("spine");
    reveal_strlit("itemref");
    reveal_strlit("meta");
    reveal_strlit("dc:title");
    reveal_strlit("dc:creator");
    reveal_strlit("dc:publisher");
    reveal_strlit("dc:language");
    assert("item"@.len() == 4 && "manifest"@.len() == 8 && "spine"@.len() == 5 && "itemref"@.len() == 7
        && "dc:title"@.len() == 8 && "dc:creator"@.len() == 10 && "dc:publisher"@.len() == 12
        && "dc:language"@.len() == 11);
    assert("item"@[0] == 'i' && "meta"@[0] == 'm');
    let item = crate::parser::epub::opf::listed_item(tag).unwrap();
    assert(s.pkg.manifest.push(item).drop_last() =~= s.pkg.manifest);
}

/// Words in the element of a title are the title, and so with the one who made the book, the one who brought
/// it out and its language; words elsewhere change nothing.
pub proof fn words_are_taken_for_what_they_stand_in(s: OpfState, words: Seq<char>)
    requires
        trimmed(plain_text(words)).len() > 0,
    ensures
        ({
            let after = opf_step(s, Xml::Words(words)).pkg;
            let text = trimmed(plain_text(words));
            &&& s.field == "dc:title"@ ==> after == (Pkg { title: Some(text), ..s.pkg })
            &&& s.field == "dc:creator"@ ==> after == (Pkg { author: Some(text), ..s.pkg })
            &&& s.field == "dc:publisher"@ ==> after == (Pkg { publisher: Some(text), ..s.pkg })
            &&& s.field == "dc:language"@ ==> after == (Pkg { language: Some(text), ..s.pkg })
            &&& s.field.len() == 0 ==> after == s.pkg
        }),
{
    reveal_strlit("dc:title");
    reveal_strlit("dc:creator");
    reveal_strlit("dc:publisher");
    reveal_strlit("dc:language");
    assert("dc:title"@.len() == 8 && "dc:creator"@.len() == 10 && "dc:publisher"@.len() == 12
        && "dc:language"@.len() == 11);
}

// ---------------------------------------------------------------------------
// The older table of contents
// ---------------------------------------------------------------------------

/// A point of an NCX: the tags that it opens with, the words of its label, where it leads, and the points
/// that stand in it.
pub struct Point {
    pub tag: Seq<char>,
    pub label_tag: Seq<char>,
    pub words: Seq<char>,
    pub content: Seq<char>,
    pub points: Seq<Point>,
}

/// The events that points make.
pub open spec fn point_events(ps: Seq<Point>) -> Seq<Xml>
    decreases ps,
{
    if ps.len() == 0 {
        Seq::empty()
    } else {
        point_events(ps.drop_last()) + (seq![
            Xml::Open(ps.last().tag),
            Xml::Open(ps.last().label_tag),
            Xml::Words(ps.last().words),
            Xml::Close("navLabel"@),
            Xml::Single(ps.last().content),
        ] + point_events(ps.last().points) + seq![Xml::Close("navPoint"@)])
    }
}

/// Points are as they should be: their tags have their names, and their labels have words.
pub open spec fn points_ok(ps: Seq<Point>) -> bool
    decreases ps,
{
    ps.len() > 0 ==> {
        &&& tag_name(ps.last().tag) == "navPoint"@
        &&& tag_name(ps.last().label_tag) == "navLabel"@
        &&& tag_name(ps.last().content) == "content"@
        &&& trimmed(plain_text(ps.last().words)).len() > 0
        &&& plain_text(trimmed(plain_text(ps.last().words))).len() > 0
        &&& points_ok(ps.drop_last())
        &&& points_ok(ps.last().points)
    }
}

/// The chapter that a reference leads to; the first where there is none.
pub open spec fn chapter_of(content: Seq<char>, dir: Seq<char>, keys: Seq<Seq<char>>) -> u32 {
    match chapter_at(
        keys,
        resolved(dir, fragment_split(attr_or_empty(content, "src"@)).0),
        keys.len() as int,
    ) {
        Some(i) => i as u32,
        None => 0,
    }
}

/// The entries that points stand for: each with its label and where it leads, and within it those of the
/// points that stand in it.
pub open spec fn point_entries(ps: Seq<Point>, depth: int, dir: Seq<char>, keys: Seq<Seq<char>>) -> Seq<Toc>
    decreases ps,
{
    if ps.len() == 0 {
        Seq::empty()
    } else {
        point_entries(ps.drop_last(), depth, dir, keys).push(
            Toc {
                id: "ncx-"@ + decimal(depth),
                label: plain_text(trimmed(plain_text(ps.last().words))),
                chapter_index: chapter_of(ps.last().content, dir, keys),
                anchor: fragment_split(attr_or_empty(ps.last().content, "src"@)).1,
                children: point_entries(ps.last().points, depth + 1, dir, keys),
            },
        )
    }
}

spec fn run(events: Seq<Xml>, dir: Seq<char>, keys: Seq<Seq<char>>, s: NcxState) -> NcxState
    decreases events.len(),
{
    if events.len() == 0 {
        s
    } else {
        ncx_step(run(events.drop_last(), dir, keys, s), events.last(), dir, keys)
    }
}

proof fn run_joint(a: Seq<Xml>, b: Seq<Xml>, dir: Seq<char>, keys: Seq<Seq<char>>, s: NcxState)
    ensures
        run(a + b, dir, keys, s) == run(b, dir, keys, run(a, dir, keys, s)),
    decreases b.len(),
{
    if b.len() == 0 {
        assert(a + b =~= a);
    } else {
        run_joint(a, b.drop_last(), dir, keys, s);
        assert((a + b).drop_last() =~= a + b.drop_last());
    }
}

proof fn reading_is_running(events: Seq<Xml>, dir: Seq<char>, keys: Seq<Seq<char>>, i: int, s: NcxState)
    requires
        0 <= i <= events.len(),
        forall|k: int| 0 <= k < events.len() ==> !((#[trigger] events[k]) is Failed),
    ensures
        ncx_from(events, dir, keys, i, run(events.take(i), dir, keys, s)) == Ok::<Seq<Toc>, Failure>(
            run(events, dir, keys, s).roots,
        ),
    decreases events.len() - i,
{
    if i < events.len() {
        reading_is_running(events, dir, keys, i + 1, s);
        assert(events.take(i + 1).drop_last() =~= events.take(i));
        assert(!(events[i] is Failed));
    } else {
        assert(events.take(i) =~= events);
    }
}

proof fn nothing_fails(ps: Seq<Point>)
    ensures
        forall|k: int| 0 <= k < point_events(ps).len() ==> !((#[trigger] point_events(ps)[k]) is Failed),
    decreases ps,
{
    if ps.len() > 0 {
        nothing_fails(ps.drop_last());
        nothing_fails(ps.last().points);
    }
}

spec fn opened(s: NcxState, p: Point, dir: Seq<char>, keys: Seq<Seq<char>>) -> NcxState {
    let base = if s.stack.len() > 0 {
        with_last(s.stack, labelled(s.stack.last(), s.words))
    } else {
        s.stack
    };
    NcxState {
        stack: base.push(
            Toc {
                id: "ncx-"@ + decimal(s.stack.len() as int),
                label: Seq::empty(),
                chapter_index: chapter_of(p.content, dir, keys),
                anchor: fragment_split(attr_or_empty(p.content, "src"@)).1,
                children: Seq::empty(),
            },
        ),
        roots: s.roots,
        in_label: false,
        words: plain_text(p.words),
    }
}

proof fn names_differ()
    ensures
        "navPoint"@ != "navLabel"@,
        "navPoint"@ != "content"@,
        "navLabel"@ != "content"@,
{
    reveal_strlit("navPoint");
    reveal_strlit("navLabel");
    reveal_strlit("content");
    assert("navPoint"@[3] == 'P' && "navLabel"@[3] == 'L' && "content"@.len() == 7 && "navLabel"@.len() == 8
        && "navPoint"@.len() == 8);
}

#[verifier::rlimit(40)]
proof fn a_point_opens(s: NcxState, p: Point, dir: Seq<char>, keys: Seq<Seq<char>>)
    requires
        tag_name(p.tag) == "navPoint"@,
        tag_name(p.label_tag) == "navLabel"@,
        tag_name(p.content) == "content"@,
        !s.in_label,
        s.stack.len() == 0 ==> s.words.len() == 0,
    ensures
        run(
            seq![
                Xml::Open(p.tag),
                Xml::Open(p.label_tag),
                Xml::Words(p.words),
                Xml::Close("navLabel"@),
                Xml::Single(p.content),
            ],
            dir,
            keys,
            s,
        ) == opened(s, p, dir, keys),
{
    names_differ();
    let e = seq![
        Xml::Open(p.tag),
        Xml::Open(p.label_tag),
        Xml::Words(p.words),
        Xml::Close("navLabel"@),
        Xml::Single(p.content),
    ];
    let s1 = ncx_step(s, Xml::Open(p.tag), dir, keys);
    let s2 = ncx_step(s1, Xml::Open(p.label_tag), dir, keys);
    let s3 = ncx_step(s2, Xml::Words(p.words), dir, keys);
    let s4 = ncx_step(s3, Xml::Close("navLabel"@), dir, keys);
    let s5 = ncx_step(s4, Xml::Single(p.content), dir, keys);
    assert(s1.words =~= Seq::empty());
    assert(Seq::<char>::empty() + plain_text(p.words) =~= plain_text(p.words));
    assert(s3.words =~= plain_text(p.words));
    assert(s5.stack =~= opened(s, p, dir, keys).stack);
    assert(s5 =~= opened(s, p, dir, keys));
    assert(e.drop_last() =~= e.take(4));
    assert(e.take(4).drop_last() =~= e.take(3));
    assert(e.take(3).drop_last() =~= e.take(2));
    assert(e.take(2).drop_last() =~= e.take(1));
    assert(e.take(1).drop_last() =~= e.take(0));
    assert(run(e.take(0), dir, keys, s) == s);
    assert(run(e.take(1), dir, keys, s) == s1);
    assert(run(e.take(2), dir, keys, s) == s2);
    assert(run(e.take(3), dir, keys, s) == s3);
    assert(run(e.take(4), dir, keys, s) == s4);
}

spec fn after_points(s: NcxState, more: Seq<Toc>) -> NcxState {
    if more.len() == 0 {
        s
    } else if s.stack.len() == 0 {
        NcxState { roots: s.roots + more, words: Seq::empty(), ..s }
    } else {
        let up = labelled(s.stack.last(), s.words);
        NcxState {
            stack: with_last(s.stack, Toc { children: up.children + more, ..up }),
            words: Seq::empty(),
            ..s
        }
    }
}

spec fn point_entry(p: Point, d: int, dir: Seq<char>, keys: Seq<Seq<char>>) -> Toc {
    Toc {
        id: "ncx-"@ + decimal(d),
        label: plain_text(trimmed(plain_text(p.words))),
        chapter_index: chapter_of(p.content, dir, keys),
        anchor: fragment_split(attr_or_empty(p.content, "src"@)).1,
        children: point_entries(p.points, d + 1, dir, keys),
    }
}

spec fn may_go_on(s: NcxState) -> bool {
    &&& !s.in_label
    &&& s.stack.len() == 0 ==> s.words.len() == 0
    &&& s.stack.len() > 0 ==> labelled(s.stack.last(), s.words).label.len() > 0
}

proof fn nothing_to_add(t: Toc)
    requires
        t.label.len() > 0,
    ensures
        labelled(t, Seq::empty()) == t,
{
    assert(trimmed(Seq::<char>::empty()).len() == 0);
}

#[verifier::rlimit(40)]
proof fn a_point_closes(s: NcxState, p: Point, dir: Seq<char>, keys: Seq<Seq<char>>)
    requires
        may_go_on(s),
        trimmed(plain_text(p.words)).len() > 0,
        plain_text(trimmed(plain_text(p.words))).len() > 0,
    ensures
        ncx_step(
            after_points(opened(s, p, dir, keys), point_entries(p.points, s.stack.len() as int + 1, dir, keys)),
            Xml::Close("navPoint"@),
            dir,
            keys,
        ) == after_points(s, seq![point_entry(p, s.stack.len() as int, dir, keys)]),
{
    names_differ();
    let d = s.stack.len() as int;
    let s1 = opened(s, p, dir, keys);
    let top = s1.stack.last();
    let below = point_entries(p.points, d + 1, dir, keys);
    let s2 = after_points(s1, below);
    let entry = point_entry(p, d, dir, keys);
    let named = labelled(top, s1.words);
    assert(top.children + below =~= below);
    if below.len() == 0 {
        assert(below =~= Seq::empty());
        assert(labelled(s2.stack.last(), s2.words) =~= entry);
    } else {
        assert(s2.stack.last() =~= entry);
        nothing_to_add(entry);
    }
    assert(s2.stack.drop_last() =~= s1.stack.drop_last());
    let base = s1.stack.drop_last();
    let s3 = ncx_step(s2, Xml::Close("navPoint"@), dir, keys);
    let want = after_points(s, seq![entry]);
    if d == 0 {
        assert(base =~= s.stack);
        assert(s.roots.push(entry) =~= s.roots + seq![entry]);
        assert(s3 =~= want);
    } else {
        let up = labelled(s.stack.last(), s.words);
        assert(base =~= with_last(s.stack, up));
        assert(base.last() == up);
        assert(up.children.push(entry) =~= up.children + seq![entry]);
        assert(base.drop_last() =~= s.stack.drop_last());
        assert(s3.stack =~= want.stack);
        assert(s3 =~= want);
    }
}

#[verifier::rlimit(40)]
proof fn points_add_up(s: NcxState, before: Seq<Toc>, entry: Toc)
    requires
        may_go_on(s),
    ensures
        may_go_on(after_points(s, before)),
        after_points(after_points(s, before), seq![entry]) == after_points(s, before.push(entry)),
{
    let s0 = after_points(s, before);
    let want = after_points(s, before.push(entry));
    let got = after_points(s0, seq![entry]);
    if before.len() == 0 {
        assert(before.push(entry) =~= seq![entry]);
    } else if s.stack.len() == 0 {
        assert(s.roots + before + seq![entry] =~= s.roots + before.push(entry));
        assert(got =~= want);
    } else {
        let up = labelled(s.stack.last(), s.words);
        let grown = Toc { children: up.children + before, ..up };
        assert(s0.stack.last() == grown);
        nothing_to_add(grown);
        assert(grown.children + seq![entry] =~= up.children + before.push(entry));
        assert(s0.stack.drop_last() =~= s.stack.drop_last());
        assert(got.stack =~= want.stack);
        assert(got =~= want);
    }
}

#[verifier::rlimit(40)]
proof fn points_are_read(ps: Seq<Point>, dir: Seq<char>, keys: Seq<Seq<char>>, s: NcxState)
    requires
        points_ok(ps),
        may_go_on(s),
    ensures
        run(point_events(ps), dir, keys, s) == after_points(
            s,
            point_entries(ps, s.stack.len() as int, dir, keys),
        ),
    decreases ps,
{
    if ps.len() > 0 {
        let p = ps.last();
        let front = ps.drop_last();
        let d = s.stack.len() as int;
        let before = point_entries(front, d, dir, keys);
        points_are_read(front, dir, keys, s);
        let s0 = after_points(s, before);
        let head = seq![
            Xml::Open(p.tag),
            Xml::Open(p.label_tag),
            Xml::Words(p.words),
            Xml::Close("navLabel"@),
            Xml::Single(p.content),
        ];
        let inner = point_events(p.points);
        let close = seq![Xml::Close("navPoint"@)];
        let entry = point_entry(p, d, dir, keys);
        points_add_up(s, before, entry);
        assert(s0.stack.len() == d);
        a_point_opens(s0, p, dir, keys);
        let s1 = opened(s0, p, dir, keys);
        assert(may_go_on(s1));
        points_are_read(p.points, dir, keys, s1);
        a_point_closes(s0, p, dir, keys);
        let s2 = run(inner, dir, keys, s1);
        run_joint(point_events(front), head + inner + close, dir, keys, s);
        run_joint(head + inner, close, dir, keys, s0);
        run_joint(head, inner, dir, keys, s0);
        assert(close.drop_last() =~= Seq::empty());
        assert(run(close.drop_last(), dir, keys, s2) == s2);
        assert(run(close, dir, keys, s2) == ncx_step(s2, Xml::Close("navPoint"@), dir, keys));
        assert(point_entries(ps, d, dir, keys) == before.push(entry));
    }
}

/// The older table of contents is read as it stands: each point is an entry with its own label, leads where
/// its content says, and holds the points that stand in it.
pub proof fn points_become_entries(ps: Seq<Point>, dir: Seq<char>, keys: Seq<Seq<char>>)
    requires
        points_ok(ps),
    ensures
        ncx_from(point_events(ps), dir, keys, 0, ncx_start()) == Ok::<Seq<Toc>, Failure>(
            point_entries(ps, 0, dir, keys),
        ),
{
    let s = ncx_start();
    nothing_fails(ps);
    points_are_read(ps, dir, keys, s);
    reading_is_running(point_events(ps), dir, keys, 0, s);
    assert(point_events(ps).take(0) =~= Seq::empty());
    let all = point_entries(ps, 0, dir, keys);
    assert(after_points(s, all).roots =~= all);
}


// ---------------------------------------------------------------------------
// The navigation document
// ---------------------------------------------------------------------------

/// An anchor makes an entry: it has a reference and words, and leads to a chapter.
pub open spec fn makes_an_entry(block: Seq<char>, m: Groups, dir: Seq<char>, keys: Seq<Seq<char>>) -> bool {
    &&& anchor_href(block, m).len() > 0
    &&& anchor_label(block, m).len() > 0
    &&& exists|k: int|
        0 <= k < keys.len() && #[trigger] keys[k] == resolved(
            dir,
            fragment_split(anchor_href(block, m)).0,
        )
}

/// The anchors of a navigation document become entries, in their order, each with its words, its chapter and
/// its place in it; those that lead to no chapter are passed over, and no others. The result gives the anchors
/// that the entries were made of.
#[verifier::rlimit(40)]
pub proof fn anchors_become_entries(
    block: Seq<char>,
    found: Seq<Groups>,
    dir: Seq<char>,
    keys: Seq<Seq<char>>,
    i: int,
    done: Seq<Toc>,
) -> (of: Seq<int>)
    requires
        0 <= i <= found.len(),
        keys.len() <= u32::MAX,
    ensures
        ({
            let all = nav_entries(block, found, dir, keys, i, done);
            &&& all.len() == done.len() + of.len()
            &&& all.take(done.len() as int) == done
            &&& forall|j: int|
                0 <= j < of.len() ==> {
                    let m = found[#[trigger] of[j]];
                    let e = all[done.len() + j];
                    &&& i <= of[j] < found.len()
                    &&& makes_an_entry(block, m, dir, keys)
                    &&& e.label == plain_text(anchor_label(block, m))
                    &&& e.anchor == fragment_split(anchor_href(block, m)).1
                    &&& e.chapter_index < keys.len()
                    &&& keys[e.chapter_index as int] == resolved(
                        dir,
                        fragment_split(anchor_href(block, m)).0,
                    )
                    &&& e.children.len() == 0
                }
            &&& forall|j: int, l: int|
                #![trigger of[j], of[l]]
                0 <= j < l < of.len() ==> of[j] < of[l]
            &&& forall|k: int|
                i <= k < found.len() && makes_an_entry(block, #[trigger] found[k], dir, keys) ==> of.contains(
                    k,
                )
        }),
    decreases found.len() - i,
{
    if i >= found.len() {
        assert(done.take(done.len() as int) =~= done);
        Seq::empty()
    } else {
        let m = found[i];
        let path = resolved(dir, fragment_split(anchor_href(block, m)).0);
        let at = chapter_at(keys, path, keys.len() as int);
        chapter_at_is_last(keys, path, keys.len() as int);
        if anchor_href(block, m).len() == 0 || anchor_label(block, m).len() == 0 || at is None {
            assert(!makes_an_entry(block, m, dir, keys));
            anchors_become_entries(block, found, dir, keys, i + 1, done)
        } else {
            assert(keys[at.unwrap()] == path);
            assert(makes_an_entry(block, m, dir, keys));
            let e = Toc {
                id: "nav-"@ + decimal(done.len() as int),
                label: plain_text(anchor_label(block, m)),
                chapter_index: at.unwrap() as u32,
                anchor: fragment_split(anchor_href(block, m)).1,
                children: Seq::empty(),
            };
            let more = anchors_become_entries(block, found, dir, keys, i + 1, done.push(e));
            let all = nav_entries(block, found, dir, keys, i, done);
            let of = seq![i] + more;
            assert(all.take(done.len() as int) =~= done) by {
                assert forall|k: int| 0 <= k < done.len() implies all[k] == done[k] by {
                    assert(all.take(done.push(e).len() as int)[k] == done.push(e)[k]);
                }
            }
            assert(all[done.len() as int] == e) by {
                assert(all.take(done.push(e).len() as int)[done.len() as int] == e);
            }
            assert forall|j: int| 0 <= j < of.len() implies {
                let m = found[#[trigger] of[j]];
                let e = all[done.len() + j];
                &&& i <= of[j] < found.len()
                &&& makes_an_entry(block, m, dir, keys)
                &&& e.label == plain_text(anchor_label(block, m))
                &&& e.anchor == fragment_split(anchor_href(block, m)).1
                &&& e.chapter_index < keys.len()
                &&& keys[e.chapter_index as int] == resolved(dir, fragment_split(anchor_href(block, m)).0)
                &&& e.children.len() == 0
            } by {
                if j > 0 {
                    assert(of[j] == more[j - 1]);
                    assert(done.push(e).len() + (j - 1) == done.len() + j);
                }
            }
            assert forall|j: int, l: int|
                #![trigger of[j], of[l]]
                0 <= j < l < of.len() implies of[j] < of[l] by {
                assert(of[l] == more[l - 1]);
                if j > 0 {
                    assert(of[j] == more[j - 1]);
                }
            }
            assert forall|k: int|
                i <= k < found.len() && makes_an_entry(
                    block,
                    #[trigger] found[k],
                    dir,
                    keys,
                ) implies of.contains(k) by {
                if k > i {
                    assert(more.contains(k));
                    let j = choose|j: int| 0 <= j < more.len() && more[j] == k;
                    assert(of[j + 1] == k);
                } else {
                    assert(of[0] == k);
                }
            }
            of
        }
    }
}

} // verus!
