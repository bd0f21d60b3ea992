//! How words with entities among them are shown, and what a chapter is shown as.
use vstd::prelude::*;
use crate::archive::entry_bytes;
use crate::cleaning::book_html;
use crate::decoding::utf8_lossy;
use crate::error::Failure;
use crate::parser::epub::book::Epub;
use crate::parser::epub::content::{
    epub_chapter, image_inlined, image_src, images_inlined, requested_path, resource_ref,
    url_rewritten,
};
use crate::parser::epub::hrefs::{parent, plain_text};
use crate::regexes::{group_text, Groups};
use crate::text::{replaced, replaced_from, stands_at, starts, trimmed};

verus! {

// ---------------------------------------------------------------------------
// Entities
// ---------------------------------------------------------------------------

/// A way to write a character in a few others: an ampersand, letters, and a semicolon.
pub open spec fn is_entity(t: Seq<char>) -> bool {
    &&& t.len() >= 2
    &&& t[0] == '&'
    &&& t.last() == ';'
    &&& forall|i: int| 0 < i < t.len() - 1 ==> #[trigger] t[i] != '&' && t[i] != ';'
}

/// A piece of a text: one character other than the ampersand, or an entity.
pub open spec fn is_piece(t: Seq<char>) -> bool {
    t.len() == 1 && t[0] != '&' || is_entity(t)
}

/// Pieces one after another.
pub open spec fn joined(ts: Seq<Seq<char>>) -> Seq<char>
    decreases ts.len(),
{
    if ts.len() == 0 {
        Seq::empty()
    } else {
        ts[0] + joined(ts.skip(1))
    }
}

/// What a piece shows: the character that an entity is known to stand for, and any other piece itself.
pub open spec fn piece_shows(t: Seq<char>) -> Seq<char> {
    if t == "&lt;"@ {
        seq!['<']
    } else if t == "&gt;"@ {
        seq!['>']
    } else if t == "&quot;"@ {
        seq!['"']
    } else if t == "&apos;"@ {
        seq!['\'']
    } else if t == "&#39;"@ {
        seq!['\'']
    } else if t == "&#x27;"@ {
        seq!['\'']
    } else if t == "&nbsp;"@ {
        seq!['\u{a0}']
    } else if t == "&amp;"@ {
        seq!['&']
    } else {
        t
    }
}

spec fn exchanged(ts: Seq<Seq<char>>, needle: Seq<char>, with: Seq<char>) -> Seq<Seq<char>> {
    Seq::new(
        ts.len(),
        |i: int|
            if ts[i] == needle {
                with
            } else {
                ts[i]
            },
    )
}

proof fn rest_of_an_entity(
    front: Seq<char>,
    t: Seq<char>,
    rest: Seq<char>,
    needle: Seq<char>,
    with: Seq<char>,
    k: int,
)
    requires
        is_entity(t),
        is_entity(needle),
        1 <= k <= t.len(),
    ensures
        replaced_from(front + t + rest, needle, with, front.len() + k) == t.skip(k) + replaced_from(
            front + t + rest,
            needle,
            with,
            (front.len() + t.len()) as int,
        ),
    decreases t.len() - k,
{
    let s = front + t + rest;
    let at = front.len() + k;
    let end = replaced_from(s, needle, with, (front.len() + t.len()) as int);
    if k < t.len() {
        rest_of_an_entity(front, t, rest, needle, with, k + 1);
        assert(s[at] == t[k]);
        assert(t[k] != '&');
        if stands_at(s, at, needle) {
            assert(s.subrange(at, at + needle.len())[0] == needle[0]);
        }
        assert(seq![t[k]] + (t.skip(k + 1) + end) =~= t.skip(k) + end);
    } else {
        assert(t.skip(k) + end =~= end);
    }
}

proof fn another_entity_stays(front: Seq<char>, t: Seq<char>, rest: Seq<char>, needle: Seq<char>)
    requires
        is_entity(t),
        is_entity(needle),
        t != needle,
    ensures
        !stands_at(front + t + rest, front.len() as int, needle),
{
    let s = front + t + rest;
    let at = front.len() as int;
    if stands_at(s, at, needle) {
        let sub = s.subrange(at, at + needle.len());
        if needle.len() == t.len() {
            assert(sub =~= t);
        } else if needle.len() < t.len() {
            let k = needle.len() - 1;
            assert(sub[k] == t[k]);
            assert(needle[k] == ';');
        } else {
            let k = t.len() - 1;
            assert(sub[k] == t[k]);
            assert(needle[k] == ';');
        }
    }
}

#[verifier::rlimit(40)]
proof fn pieces_are_exchanged(front: Seq<char>, ts: Seq<Seq<char>>, needle: Seq<char>, with: Seq<char>)
    requires
        forall|i: int| 0 <= i < ts.len() ==> is_piece(#[trigger] ts[i]),
        is_entity(needle),
    ensures
        replaced_from(front + joined(ts), needle, with, front.len() as int) == joined(
            exchanged(ts, needle, with),
        ),
    decreases ts.len(),
{
    if ts.len() > 0 {
        let t = ts[0];
        let more = ts.skip(1);
        let rest = joined(more);
        let s = front + t + rest;
        let at = front.len() as int;
        assert(front + joined(ts) =~= s);
        assert((front + t) + rest =~= s);
        assert forall|i: int| 0 <= i < more.len() implies is_piece(#[trigger] more[i]) by {
            assert(more[i] == ts[i + 1]);
        }
        pieces_are_exchanged(front + t, more, needle, with);
        let now = exchanged(ts, needle, with);
        assert(now.skip(1) =~= exchanged(more, needle, with));
        let tail = replaced_from(s, needle, with, at + t.len());
        assert(tail == joined(now.skip(1)));
        assert(is_piece(t));
        if t == needle {
            assert(s.subrange(at, at + needle.len()) =~= needle);
        } else if is_entity(t) {
            another_entity_stays(front, t, rest, needle);
            rest_of_an_entity(front, t, rest, needle, with, 1);
            assert(s[at] == t[0]);
            assert(seq![t[0]] + (t.skip(1) + tail) =~= t + tail);
        } else {
            assert(s[at] == t[0]);
            if stands_at(s, at, needle) {
                assert(s.subrange(at, at + needle.len())[0] == needle[0]);
            }
            assert(seq![t[0]] =~= t);
        }
        assert(now[0] + joined(now.skip(1)) == joined(now));
    } else {
        assert(exchanged(ts, needle, with) =~= ts);
    }
}

proof fn one_entity_is_shown(ts: Seq<Seq<char>>, needle: Seq<char>, with: Seq<char>)
    requires
        forall|i: int| 0 <= i < ts.len() ==> is_piece(#[trigger] ts[i]),
        is_entity(needle),
    ensures
        replaced(joined(ts), needle, with) == joined(exchanged(ts, needle, with)),
        exchanged(ts, needle, with).len() == ts.len(),
        is_piece(with) ==> forall|i: int|
            0 <= i < ts.len() ==> is_piece(#[trigger] exchanged(ts, needle, with)[i]),
{
    pieces_are_exchanged(Seq::empty(), ts, needle, with);
    assert(Seq::<char>::empty() + joined(ts) =~= joined(ts));
}

proof fn entities_known()
    ensures
        is_entity("&lt;"@),
        is_entity("&gt;"@),
        is_entity("&quot;"@),
        is_entity("&apos;"@),
        is_entity("&#39;"@),
        is_entity("&#x27;"@),
        is_entity("&nbsp;"@),
        is_entity("&amp;"@),
        "<"@ == seq!['<'],
        ">"@ == seq!['>'],
        "\""@ == seq!['"'],
        "'"@ == seq!['\''],
        "\u{a0}"@ == seq!['\u{a0}'],
        "&"@ == seq!['&'],
{
    reveal_strlit("&lt;");
    reveal_strlit("&gt;");
    reveal_strlit("&quot;");
    reveal_strlit("&apos;");
    reveal_strlit("&#39;");
    reveal_strlit("&#x27;");
    reveal_strlit("&nbsp;");
    reveal_strlit("&amp;");
    reveal_strlit("<");
    reveal_strlit(">");
    reveal_strlit("\"");
    reveal_strlit("'");
    reveal_strlit("\u{a0}");
    reveal_strlit("&");
    assert("<"@ =~= seq!['<']);
    assert(">"@ =~= seq!['>']);
    assert("\""@ =~= seq!['"']);
    assert("'"@ =~= seq!['\'']);
    assert("\u{a0}"@ =~= seq!['\u{a0}']);
    assert("&"@ =~= seq!['&']);
}

/// Entities are shown as what they stand for, each once: what an ampersand that was itself written as an
/// entity makes with what follows it is no entity.
#[verifier::rlimit(40)]
pub proof fn entities_are_shown_once(ts: Seq<Seq<char>>)
    requires
        forall|i: int| 0 <= i < ts.len() ==> is_piece(#[trigger] ts[i]),
    ensures
        plain_text(joined(ts)) == joined(Seq::new(ts.len(), |i: int| piece_shows(ts[i]))),
{
    entities_known();
    one_entity_is_shown(ts, "&lt;"@, "<"@);
    let a = exchanged(ts, "&lt;"@, "<"@);
    one_entity_is_shown(a, "&gt;"@, ">"@);
    let b = exchanged(a, "&gt;"@, ">"@);
    one_entity_is_shown(b, "&quot;"@, "\""@);
    let c = exchanged(b, "&quot;"@, "\""@);
    one_entity_is_shown(c, "&apos;"@, "'"@);
    let d = exchanged(c, "&apos;"@, "'"@);
    one_entity_is_shown(d, "&#39;"@, "'"@);
    let e = exchanged(d, "&#39;"@, "'"@);
    one_entity_is_shown(e, "&#x27;"@, "'"@);
    let f = exchanged(e, "&#x27;"@, "'"@);
    one_entity_is_shown(f, "&nbsp;"@, "\u{a0}"@);
    let g = exchanged(f, "&nbsp;"@, "\u{a0}"@);
    one_entity_is_shown(g, "&amp;"@, "&"@);
    let h = exchanged(g, "&amp;"@, "&"@);
    assert(h =~= Seq::new(ts.len(), |i: int| piece_shows(ts[i])));
}

// ---------------------------------------------------------------------------
// What is shown
// ---------------------------------------------------------------------------

/// An image is shown with the address of its picture in place of its reference, and with everything else as
/// it was; where there is no such address it stays as it is.
pub proof fn an_image_keeps_all_but_its_reference(
    b: Epub,
    dir: Seq<char>,
    html: Seq<char>,
    m: Groups,
    start: int,
    i: int,
    j: int,
    end: int,
)
    requires
        m.len() > 0,
        m[0] == Some((start, end)),
        image_src(m) == Some((i, j)),
        0 <= start <= i <= j <= end <= html.len(),
    ensures
        resource_ref(b, dir, html.subrange(i, j)) matches Some(uri) ==> {
            let shown = image_inlined(b, dir, html, m);
            &&& shown.take(i - start) == html.subrange(start, i)
            &&& shown.skip(i - start).take(uri.len() as int) == uri
            &&& shown.skip(i - start + uri.len()) == html.subrange(j, end)
        },
        resource_ref(b, dir, html.subrange(i, j)) is None ==> image_inlined(b, dir, html, m)
            == html.subrange(start, end),
{
    if let Some(uri) = resource_ref(b, dir, html.subrange(i, j)) {
        let shown = image_inlined(b, dir, html, m);
        assert(shown.take(i - start) =~= html.subrange(start, i));
        assert(shown.skip(i - start).take(uri.len() as int) =~= uri);
        assert(shown.skip(i - start + uri.len()) =~= html.subrange(j, end));
    }
}

/// A style sheet reaches nothing outside the book: a reference to the network is taken away, and one within
/// the book becomes the address of what it leads to.
pub proof fn a_style_stays_within_the_book(
    b: Epub,
    dir: Seq<char>,
    css: Seq<char>,
    m: Groups,
    whole: Seq<char>,
    target: Seq<char>,
)
    requires
        group_text(css, m, 0) == Some(whole),
        group_text(css, m, 1) == Some(target),
        trimmed(target) == target,
        crate::text::lower_ascii(target) == target,
        target.len() > 0,
    ensures
        starts(target, "http://"@) || starts(target, "https://"@) ==> url_rewritten(b, dir, css, m) == "none"@,
        !starts(target, "http://"@) && !starts(target, "https://"@) && (starts(target, "data:"@) || starts(
            target,
            "#"@,
        )) ==> url_rewritten(b, dir, css, m) == whole,
        !starts(target, "http://"@) && !starts(target, "https://"@) && !starts(target, "data:"@) && !starts(
            target,
            "reader-res:"@,
        ) && !starts(target, "#"@) ==> match resource_ref(b, dir, target) {
            Some(uri) => url_rewritten(b, dir, css, m) == "url(\""@ + uri + "\")"@,
            None => url_rewritten(b, dir, css, m) == whole,
        },
{
}

/// A chapter is what stands at its place in the spine, under the name of its file; without the style of the
/// book nothing of that style is shown.
pub proof fn a_chapter_is_shown_from_its_place(
    b: Epub,
    index: int,
    bytes: Seq<u8>,
    front: Seq<char>,
    name: Seq<char>,
    ending: Seq<char>,
)
    requires
        0 <= index < b.spine.len() <= u32::MAX,
        b.spine[index] == front + seq!['/'] + (name + seq!['.'] + ending),
        !(name + seq!['.'] + ending).contains('/'),
        !ending.contains('.'),
        entry_bytes(b.zip, b.spine[index]) == Ok::<Seq<u8>, Failure>(bytes),
    ensures
        epub_chapter(b, index, false) matches Ok(c) && c.title == name && c.chapter_index == index && c.book_id
            == b.book_id && c.html == Some(
            images_inlined(b, parent(b.spine[index]), book_html(utf8_lossy(bytes), false)),
        ),
{
    let n = name + seq!['.'] + ending;
    crate::parser::naming::leaf_of(front, n);
    let k = name.len() as int;
    assert(n[k] == '.');
    assert forall|j: int| k < j < n.len() implies n[j] != '.' by {
        assert(n[j] == ending[j - k - 1]);
        assert(ending.contains(ending[j - k - 1]));
    }
    crate::parser::naming::last_is_there(n, '.', k, n.len() as int);
    assert(n.take(k) =~= name);
}

/// The cover of a book can be asked for by that word; it is what its package file names.
pub proof fn the_cover_can_be_asked_for(b: Epub, c: Seq<char>)
    requires
        b.cover == Some(c),
    ensures
        requested_path(b, "cover"@) == Ok::<Seq<char>, Failure>(c),
{
}

} // verus!
