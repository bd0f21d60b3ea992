//! Notes: their texts are put into the references that lead to them.
use vstd::prelude::*;
use crate::parser::epub::toc::without_tags;
use crate::parser::fb2::document::{find_section_end, given, section_end, MAX_NOTE_TEXT};
use crate::parser::{escape_attr, escaped, unescape, unescaped};
use crate::regexes::{
    group, group_text, in_order, ints, regex_spans, remove, row_of, spans, splice, spliced, Groups,
    ANCHOR_TAG, ANY_TAG, FB2_HREF, FB2_SECTION_ID,
};
use crate::text::{
    chars_of, join, join_all, lines, lines_of, part, push_str, replace, replace_once, replaced,
    replaced_once, same_str, string_of, texts, texts_push, trim, trimmed,
};
use crate::views::{deep_empty, deep_push};

verus! {

/// The lines of a note that are not blank, among the first `k`.
pub open spec fn note_lines(rows: Seq<Seq<char>>, k: int) -> Seq<Seq<char>>
    decreases k,
{
    if k <= 0 || k > rows.len() {
        Seq::empty()
    } else {
        let t = unescaped(trimmed(rows[k - 1]));
        if t.len() > 0 {
            note_lines(rows, k - 1).push(t)
        } else {
            note_lines(rows, k - 1)
        }
    }
}

/// The text of a note: a line for each paragraph, and no more than a note may hold.
pub open spec fn note_text(inner: Seq<char>) -> Seq<char> {
    let raw = replaced(replaced(inner, "</p>"@, "\n"@), "<empty-line/>"@, "\n"@);
    let rows = lines(without_tags(raw));
    let all = join(note_lines(rows, rows.len() as int), "\n"@);
    if all.len() > MAX_NOTE_TEXT {
        all.take(MAX_NOTE_TEXT as int)
    } else {
        all
    }
}

/// The place of a note among the first `k`.
pub open spec fn note_at(notes: Seq<(Seq<char>, Seq<char>)>, id: Seq<char>, k: int) -> Option<int>
    decreases k,
{
    if k <= 0 || k > notes.len() {
        None
    } else {
        match note_at(notes, id, k - 1) {
            Some(i) => Some(i),
            None => if notes[k - 1].0 == id {
                Some(k - 1)
            } else {
                None
            },
        }
    }
}

/// The text of the note with an identifier.
pub open spec fn note_of(notes: Seq<(Seq<char>, Seq<char>)>, id: Seq<char>) -> Option<Seq<char>> {
    match note_at(notes, id, notes.len() as int) {
        Some(i) => Some(notes[i].1),
        None => None,
    }
}

/// What the section at a match adds: a note, where it has a text and its identifier is new.
pub open spec fn with_note(
    xml: Seq<char>,
    m: Groups,
    notes: Seq<(Seq<char>, Seq<char>)>,
) -> Seq<(Seq<char>, Seq<char>)> {
    let id = unescaped(given(group_text(xml, m, 1)));
    let (start, tag_end) = m[0].unwrap();
    let end = section_end(xml, start);
    if note_of(notes, id) is Some || end <= tag_end {
        notes
    } else {
        let t = note_text(xml.subrange(tag_end, end));
        if t.len() > 0 {
            notes.push((id, t))
        } else {
            notes
        }
    }
}

/// The notes that the first `k` sections with identifiers hold.
pub open spec fn notes_of(xml: Seq<char>, found: Seq<Groups>, k: int) -> Seq<
    (Seq<char>, Seq<char>),
>
    decreases k,
{
    if k <= 0 || k > found.len() {
        Seq::empty()
    } else {
        with_note(xml, found[k - 1], notes_of(xml, found, k - 1))
    }
}

/// The notes of a document.
pub open spec fn fb2_notes(xml: Seq<char>) -> Seq<(Seq<char>, Seq<char>)> {
    let found = regex_spans(FB2_SECTION_ID@, xml);
    notes_of(xml, found, found.len() as int)
}

/// A note is found where it stands first, and only where it stands.
pub proof fn note_at_is_first(notes: Seq<(Seq<char>, Seq<char>)>, id: Seq<char>, k: int)
    requires
        0 <= k <= notes.len(),
    ensures
        match note_at(notes, id, k) {
            Some(i) => 0 <= i < k && notes[i].0 == id && forall|j: int|
                0 <= j < i ==> notes[j].0 != id,
            None => forall|j: int| 0 <= j < k ==> notes[j].0 != id,
        },
    decreases k,
{
    if k > 0 {
        note_at_is_first(notes, id, k - 1);
    }
}

/// No two notes have the same identifier, and none is empty or longer than a note may be.
pub open spec fn notes_distinct(notes: Seq<(Seq<char>, Seq<char>)>) -> bool {
    &&& forall|i: int, j: int|
        #![trigger notes[i], notes[j]]
        0 <= i < j < notes.len() ==> notes[i].0 != notes[j].0
    &&& forall|i: int| 0 <= i < notes.len() ==> 0 < (#[trigger] notes[i]).1.len() <= MAX_NOTE_TEXT
}

/// The notes of a document have identifiers of their own and texts of a bounded length.
pub proof fn notes_are_distinct(xml: Seq<char>, found: Seq<Groups>, k: int)
    requires
        0 <= k <= found.len(),
    ensures
        notes_distinct(notes_of(xml, found, k)),
    decreases k,
{
    if k > 0 {
        notes_are_distinct(xml, found, k - 1);
        let before = notes_of(xml, found, k - 1);
        let id = unescaped(given(group_text(xml, found[k - 1], 1)));
        note_at_is_first(before, id, before.len() as int);
    }
}

fn read_note(inner: &[char]) -> (r: Vec<char>)
    ensures
        r@ == note_text(inner@),
{
    proof {
        reveal_strlit("</p>");
        reveal_strlit("<empty-line/>");
    }
    let feed = chars_of("\n");
    let a = replace(inner, &chars_of("</p>"), &feed);
    let raw = replace(&a, &chars_of("<empty-line/>"), &feed);
    let plain = remove(ANY_TAG, &raw);
    let rows = lines_of(&plain);
    let ghost all = texts(rows@);
    let mut out: Vec<Vec<char>> = Vec::new();
    assert(texts(out@) =~= Seq::empty());
    let mut i: usize = 0;
    while i < rows.len()
        invariant
            i <= rows@.len(),
            all == texts(rows@),
            texts(out@) == note_lines(all, i as int),
        decreases rows@.len() - i,
    {
        assert(all[i as int] == rows@[i as int]@);
        let t = unescape(trim(&rows[i]));
        if t.len() > 0 {
            let ghost before = out@;
            out.push(t);
            proof {
                texts_push(before, t);
            }
        }
        i = i + 1;
    }
    let whole = join_all(&out, &feed);
    if whole.len() > MAX_NOTE_TEXT {
        let r = part(&whole, 0, MAX_NOTE_TEXT);
        assert(r@ =~= whole@.take(MAX_NOTE_TEXT as int));
        r
    } else {
        whole
    }
}

/// The place of the note with an identifier.
pub fn find_note(notes: &Vec<(String, String)>, id: &str) -> (r: Option<usize>)
    ensures
        match r {
            Some(i) => i < notes@.len() && note_at(notes.deep_view(), id@, notes@.len() as int)
                == Some(i as int),
            None => note_at(notes.deep_view(), id@, notes@.len() as int) is None,
        },
{
    let ghost nv = notes.deep_view();
    let mut i: usize = 0;
    while i < notes.len()
        invariant
            i <= notes@.len(),
            nv == notes.deep_view(),
            note_at(nv, id@, i as int) is None,
        decreases notes@.len() - i,
    {
        assert(nv[i as int] == notes@[i as int].deep_view());
        if same_str(notes[i].0.as_str(), id) {
            proof {
                note_at_stays(nv, id@, i as int, notes@.len() as int);
            }
            return Some(i);
        }
        i = i + 1;
    }
    None
}

proof fn note_at_stays(notes: Seq<(Seq<char>, Seq<char>)>, id: Seq<char>, i: int, k: int)
    requires
        0 <= i < k <= notes.len(),
        note_at(notes, id, i) is None,
        notes[i].0 == id,
    ensures
        note_at(notes, id, k) == Some(i),
    decreases k,
{
    if k > i + 1 {
        note_at_stays(notes, id, i, k - 1);
    }
}

/// Collects the notes of a document.
pub fn collect_note_targets(xml: &[char]) -> (r: Vec<(String, String)>)
    ensures
        r.deep_view() == fb2_notes(xml@),
{
    let rows = spans(FB2_SECTION_ID, xml);
    let ghost found = ints(rows@);
    let mut out: Vec<(String, String)> = Vec::new();
    proof {
        deep_empty(out);
    }
    let mut i: usize = 0;
    while i < rows.len()
        invariant
            i <= rows@.len(),
            found == ints(rows@),
            in_order(found, xml@.len() as int),
            out.deep_view() == notes_of(xml@, found, i as int),
        decreases rows@.len() - i,
    {
        proof {
            row_of(rows@, i as int, xml@.len() as int);
        }
        let raw_id = match group(xml, &rows[i], 1) {
            Some(t) => t,
            None => {
                let none: Vec<char> = Vec::new();
                assert(none@ =~= Seq::empty());
                none
            },
        };
        let id = string_of(&unescape(&raw_id));
        assert(rows@[i as int]@[0] is Some);
        let (start, tag_end) = match rows[i][0] {
            Some(p) => p,
            None => (0, 0),
        };
        assert(found[i as int][0].unwrap() == (start as int, tag_end as int));
        let end = find_section_end(xml, start);
        if find_note(&out, id.as_str()).is_none() && end > tag_end {
            let inner = part(xml, tag_end, end);
            let t = read_note(&inner);
            if t.len() > 0 {
                let note = (id, string_of(&t));
                let ghost before = out;
                out.push(note);
                proof {
                    deep_push(before, note, out);
                }
            }
        }
        i = i + 1;
    }
    out
}

// ---------------------------------------------------------------------------
// References
// ---------------------------------------------------------------------------

/// An anchor with its reference under the name that HTML has for it and, where it leads to a
/// note, with the text of the note.
pub open spec fn linked_tag(tag: Seq<char>, notes: Seq<(Seq<char>, Seq<char>)>) -> Seq<char> {
    let found = regex_spans(FB2_HREF@, tag);
    if found.len() == 0 {
        tag
    } else {
        let value = unescaped(
            match group_text(tag, found[0], 2) {
                Some(t) => t,
                None => given(group_text(tag, found[0], 3)),
            },
        );
        let out = replaced_once(tag, "l:href"@, "href"@);
        if value.len() > 0 && value[0] == '#' {
            match note_of(notes, value.skip(1)) {
                Some(t) => replaced_once(
                    out,
                    "<a"@,
                    "<a data-fn-text=\""@ + escaped(t) + "\""@,
                ),
                None => out,
            }
        } else {
            out
        }
    }
}

/// The anchors with their references under the name that HTML has for them.
pub open spec fn linked_tags(
    slice: Seq<char>,
    found: Seq<Groups>,
    notes: Seq<(Seq<char>, Seq<char>)>,
) -> Seq<Seq<char>> {
    Seq::new(found.len(), |i: int| linked_tag(group_text(slice, found[i], 0).unwrap(), notes))
}

/// A text with its anchors leading to notes.
pub open spec fn notes_linked(slice: Seq<char>, notes: Seq<(Seq<char>, Seq<char>)>) -> Seq<char> {
    let found = regex_spans(ANCHOR_TAG@, slice);
    spliced(slice, found, linked_tags(slice, found, notes))
}

fn link_tag(tag: &[char], notes: &Vec<(String, String)>) -> (r: Vec<char>)
    ensures
        r@ == linked_tag(tag@, notes.deep_view()),
{
    let rows = spans(FB2_HREF, tag);
    if rows.len() == 0 {
        let r = part(tag, 0, tag.len());
        assert(r@ =~= tag@);
        return r;
    }
    proof {
        row_of(rows@, 0, tag@.len() as int);
    }
    let raw = match group(tag, &rows[0], 2) {
        Some(t) => t,
        None => match group(tag, &rows[0], 3) {
            Some(t) => t,
            None => {
                let none: Vec<char> = Vec::new();
                assert(none@ =~= Seq::empty());
                none
            },
        },
    };
    let value = unescape(&raw);
    let out = replace_once(tag, &chars_of("l:href"), &chars_of("href"));
    if value.len() > 0 && value[0] == '#' {
        let n = value.len();
        let id = part(&value, 1, n);
        assert(id@ =~= value@.skip(1));
        if let Some(k) = find_note(notes, string_of(&id).as_str()) {
            assert(notes.deep_view()[k as int] == notes@[k as int].deep_view());
            let mut with = chars_of("<a data-fn-text=\"");
            push_str(&mut with, escape_attr(notes[k].1.as_str()).as_str());
            push_str(&mut with, "\"");
            return replace_once(&out, &chars_of("<a"), &with);
        }
    }
    out
}

/// Leads the anchors of a text to notes.
pub fn rewrite_note_refs(slice: &[char], notes: &Vec<(String, String)>) -> (r: Vec<char>)
    ensures
        r@ == notes_linked(slice@, notes.deep_view()),
{
    let rows = spans(ANCHOR_TAG, slice);
    let ghost found = ints(rows@);
    let ghost nv = notes.deep_view();
    let mut with: Vec<Vec<char>> = Vec::new();
    let mut i: usize = 0;
    while i < rows.len()
        invariant
            i <= rows@.len(),
            found == ints(rows@),
            nv == notes.deep_view(),
            in_order(found, slice@.len() as int),
            with@.len() == i,
            forall|j: int|
                0 <= j < i ==> (#[trigger] with@[j])@ == linked_tag(
                    group_text(slice@, found[j], 0).unwrap(),
                    nv,
                ),
        decreases rows@.len() - i,
    {
        proof {
            row_of(rows@, i as int, slice@.len() as int);
        }
        let tag = match group(slice, &rows[i], 0) {
            Some(t) => t,
            None => Vec::new(),
        };
        with.push(link_tag(&tag, notes));
        i = i + 1;
    }
    assert(texts(with@) =~= linked_tags(slice@, found, nv));
    splice(slice, &rows, &with)
}

} // verus!
