//! A section ends at the tag that closes it.
use vstd::prelude::*;
use crate::parser::fb2::document::{
    end_from, fb2_sections, section_end, sections_from, title_of_section, Piece,
};
use crate::text::{char_from, find_from, find_from_is_first, stands_at};

verus! {

/// How often a word stands in a text at a place from `a` up to `b`.
pub open spec fn standing(xml: Seq<char>, word: Seq<char>, a: int, b: int) -> int
    decreases b - a,
{
    if b <= a {
        0
    } else {
        standing(xml, word, a, b - 1) + if stands_at(xml, b - 1, word) {
            1int
        } else {
            0
        }
    }
}

/// How many sections are open at `p` of those that opened from `start` on.
pub open spec fn open_at(xml: Seq<char>, start: int, p: int) -> int {
    standing(xml, "<section"@, start, p) - standing(xml, "</section>"@, start, p)
}

proof fn no_tag_is_both(xml: Seq<char>, i: int)
    ensures
        !(stands_at(xml, i, "<section"@) && stands_at(xml, i, "</section>"@)),
{
    reveal_strlit("<section");
    reveal_strlit("</section>");
    if stands_at(xml, i, "<section"@) && stands_at(xml, i, "</section>"@) {
        assert(xml.subrange(i, i + 8)[1] == "<section"@[1]);
        assert(xml.subrange(i, i + 10)[1] == "</section>"@[1]);
        assert(xml[i + 1] == 's');
        assert(xml[i + 1] == '/');
    }
}

/// The place `e` is behind the tag that closes the section that opens at `start`: the tag stands
/// before it, one section is open up to that tag, and at every place before one is open at least.
pub open spec fn closes_at(xml: Seq<char>, start: int, e: int) -> bool {
    &&& stands_at(xml, e - 10, "</section>"@)
    &&& start < e - 10
    &&& open_at(xml, start, e - 10) == 1
    &&& forall|p: int| start < p <= e - 10 ==> #[trigger] open_at(xml, start, p) >= 1
}

proof fn end_is_where_it_closes(xml: Seq<char>, start: int, i: int, depth: int)
    requires
        0 <= start < i <= xml.len(),
        depth == open_at(xml, start, i),
        depth >= 1,
        forall|p: int| start < p <= i ==> #[trigger] open_at(xml, start, p) >= 1,
    ensures
        ({
            let e = end_from(xml, i, depth);
            ||| closes_at(xml, start, e)
            ||| e == xml.len() && forall|p: int|
                start < p <= xml.len() ==> #[trigger] open_at(xml, start, p) >= 1
        }),
    decreases xml.len() - i,
{
    if i < xml.len() {
        no_tag_is_both(xml, i);
        let next = open_at(xml, start, i + 1);
        if stands_at(xml, i, "<section"@) {
            assert(next == depth + 1);
            end_is_where_it_closes(xml, start, i + 1, depth + 1);
        } else if stands_at(xml, i, "</section>"@) {
            assert(next == depth - 1);
            if depth > 1 {
                end_is_where_it_closes(xml, start, i + 1, depth - 1);
            }
        } else {
            assert(next == depth);
            end_is_where_it_closes(xml, start, i + 1, depth);
        }
    }
}

/// A section ends at the tag that closes it. Either the end is behind a closing tag up to which as
/// many sections that open from its start on are still open as this one alone, with one open at every
/// place between; or the section is never closed, and ends with the text.
pub proof fn a_section_ends_at_its_closing_tag(xml: Seq<char>, start: int)
    requires
        0 <= start,
        stands_at(xml, start, "<section"@),
    ensures
        ({
            let e = section_end(xml, start);
            ||| closes_at(xml, start, e)
            ||| e == xml.len() && forall|p: int|
                start < p <= xml.len() ==> #[trigger] open_at(xml, start, p) >= 1
        }),
        start < section_end(xml, start) <= xml.len(),
{
    reveal_strlit("<section");
    no_tag_is_both(xml, start);
    reveal_with_fuel(standing, 2);
    assert(open_at(xml, start, start + 1) == 1);
    assert forall|p: int| start < p <= start + 1 implies #[trigger] open_at(xml, start, p) >= 1 by {
        assert(p == start + 1);
    }
    end_is_where_it_closes(xml, start, start + 1, 1);
    crate::parser::fb2::document::section_end_within(xml, start, 0);
}

proof fn open_stays_or_closes(xml: Seq<char>, start: int, p: int)
    requires
        start <= p,
    ensures
        stands_at(xml, p, "</section>"@) ==> open_at(xml, start, p + 1) == open_at(xml, start, p) - 1,
{
    no_tag_is_both(xml, p);
}

/// There is one such end: wherever a section closes is where it is found to end, and what stands
/// between its start and its end holds as many opening as closing tags.
pub proof fn a_section_has_one_end(xml: Seq<char>, start: int, e: int)
    requires
        0 <= start,
        stands_at(xml, start, "<section"@),
        closes_at(xml, start, e),
    ensures
        section_end(xml, start) == e,
        standing(xml, "<section"@, start, e) == standing(xml, "</section>"@, start, e),
{
    a_section_ends_at_its_closing_tag(xml, start);
    reveal_strlit("</section>");
    let f = section_end(xml, start);
    open_stays_or_closes(xml, start, e - 10);
    assert(e <= xml.len());
    if closes_at(xml, start, f) {
        open_stays_or_closes(xml, start, f - 10);
        if f < e {
            assert(open_at(xml, start, f - 10 + 1) >= 1);
        }
        if e < f {
            assert(open_at(xml, start, e - 10 + 1) >= 1);
        }
    } else {
        assert(open_at(xml, start, e - 10 + 1) >= 1);
    }
    nothing_within_a_tag(xml, start, e, e - 9);
}

proof fn nothing_within_a_tag(xml: Seq<char>, start: int, e: int, p: int)
    requires
        0 <= start < e - 10,
        stands_at(xml, e - 10, "</section>"@),
        e - 9 <= p <= e,
        open_at(xml, start, e - 9) == 0,
        open_at(xml, start, p) == 0,
    ensures
        open_at(xml, start, e) == 0,
    decreases e - p,
{
    if p < e {
        reveal_strlit("<section");
        reveal_strlit("</section>");
        let i = e - 10;
        assert(xml.subrange(i, i + 10)[p - i] == "</section>"@[p - i]);
        assert(xml[p] != '<');
        if stands_at(xml, p, "<section"@) {
            assert(xml.subrange(p, p + 8)[0] == "<section"@[0]);
        }
        if stands_at(xml, p, "</section>"@) {
            assert(xml.subrange(p, p + 10)[0] == "</section>"@[0]);
        }
        nothing_within_a_tag(xml, start, e, p + 1);
    }
}

// ---------------------------------------------------------------------------
// Chapters
// ---------------------------------------------------------------------------

/// The outermost sections of a body from a place on: the first that opens there, whole, and those
/// behind its end.
pub open spec fn outermost(body: Seq<char>, from: int) -> Seq<(int, int)>
    decreases body.len() - from,
{
    if from < 0 {
        Seq::empty()
    } else {
        match find_from(body, "<section"@, from) {
            Some(o) => {
                let e = section_end(body, o);
                if from <= o < e <= body.len() {
                    seq![(o, e)] + outermost(body, e)
                } else {
                    Seq::empty()
                }
            },
            None => Seq::empty(),
        }
    }
}

/// The chapter of a section of a body that starts at `base` of a document: what stands behind its
/// opening tag, up to its end. A tag that does not end is part of it.
pub open spec fn chapter_of_section(body: Seq<char>, base: int, s: (int, int)) -> Piece {
    let from = match char_from(body, '>', s.0) {
        Some(tag) => tag + 1,
        None => s.0,
    };
    Piece { title: title_of_section(body.subrange(from, s.1)), start: base + from, end: base + s.1 }
}

proof fn sections_are_outermost(body: Seq<char>, base: int, i: int, done: Seq<Piece>)
    requires
        0 <= i,
    ensures
        sections_from(body, base, i, done) == done + Seq::new(
            outermost(body, i).len(),
            |k: int| chapter_of_section(body, base, outermost(body, i)[k]),
        ),
    decreases body.len() - i,
{
    reveal_strlit("<section");
    find_from_is_first(body, "<section"@, i);
    let all = outermost(body, i);
    let mapped = Seq::new(all.len(), |k: int| chapter_of_section(body, base, all[k]));
    if i >= body.len() {
        if let Some(o) = find_from(body, "<section"@, i) {
            assert(stands_at(body, o, "<section"@));
        }
        assert(all =~= Seq::empty());
        assert(done + mapped =~= done);
    } else if stands_at(body, i, "<section"@) {
        assert(find_from(body, "<section"@, i) == Some(i));
        crate::parser::fb2::document::section_end_within(body, i, 0);
        let e = section_end(body, i);
        let piece = chapter_of_section(body, base, (i, e));
        sections_are_outermost(body, base, e, done.push(piece));
        let rest = outermost(body, e);
        assert(all == seq![(i, e)] + rest);
        assert(done + mapped =~= done.push(piece) + Seq::new(
            rest.len(),
            |k: int| chapter_of_section(body, base, rest[k]),
        )) by {
            assert forall|k: int| 0 <= k < rest.len() implies #[trigger] rest[k] == all[k + 1] by {}
        }
    } else {
        sections_are_outermost(body, base, i + 1, done);
        find_from_is_first(body, "<section"@, i + 1);
        same_first(body, i);
        assert(outermost(body, i) == outermost(body, i + 1)) by {
            find_within(body, i);
        }
    }
}

proof fn same_first(body: Seq<char>, i: int)
    requires
        0 <= i < body.len(),
        !stands_at(body, i, "<section"@),
    ensures
        find_from(body, "<section"@, i) == find_from(body, "<section"@, i + 1),
{
    find_from_is_first(body, "<section"@, i);
    find_from_is_first(body, "<section"@, i + 1);
    match find_from(body, "<section"@, i) {
        Some(o) => {
            assert(stands_at(body, o, "<section"@));
        },
        None => {},
    }
    match find_from(body, "<section"@, i + 1) {
        Some(o) => {
            assert(stands_at(body, o, "<section"@));
        },
        None => {},
    }
}

proof fn find_within(body: Seq<char>, i: int)
    requires
        0 <= i < body.len(),
        !stands_at(body, i, "<section"@),
    ensures
        match find_from(body, "<section"@, i) {
            Some(o) => i < o,
            None => true,
        },
{
    find_from_is_first(body, "<section"@, i);
}

/// The chapters of a document are the outermost sections of its first body, in their order: each holds
/// what stands between its opening tag and its end, the sections within it with it. Notes, which stand
/// in bodies of their own, are no chapters.
pub proof fn the_chapters_are_the_outermost_sections(xml: Seq<char>, a: int, e: int)
    requires
        0 <= a < e <= xml.len(),
        find_from(xml, "<body"@, 0) == Some(a),
        find_from(xml, "</body>"@, a) == Some(e),
        outermost(xml.subrange(a, e), 0).len() > 0,
    ensures
        ({
            let body = xml.subrange(a, e);
            let all = outermost(body, 0);
            &&& fb2_sections(xml).len() == all.len()
            &&& forall|k: int|
                0 <= k < all.len() ==> #[trigger] fb2_sections(xml)[k] == chapter_of_section(
                    body,
                    a,
                    all[k],
                )
        }),
{
    let body = xml.subrange(a, e);
    sections_are_outermost(body, a, 0, Seq::empty());
    let all = outermost(body, 0);
    assert(Seq::<Piece>::empty() + Seq::new(all.len(), |k: int| chapter_of_section(body, a, all[k]))
        =~= Seq::new(all.len(), |k: int| chapter_of_section(body, a, all[k])));
}

} // verus!
