//! What the hits of a search show: what stands around them, and where they were found.
use vstd::prelude::*;
use crate::commands::search::{
    asked, book_hits, chapter_hits, described, folded, hits, searched_text,
};
use crate::model::{Chapter, ChapterKind};
use crate::parser::session::BookSession;
use crate::text::{collapsed, trimmed};

verus! {

/// The smaller of two numbers.
pub open spec fn least(a: int, b: int) -> int {
    if a < b {
        a
    } else {
        b
    }
}

/// A hit shows what stands around it: with the twelve characters before and behind that tell it from
/// others it is a part of the text, and so it is with the forty that are shown, where dots stand for
/// what is left out.
pub proof fn a_hit_shows_what_stands_around_it(
    hay: Seq<char>,
    a: int,
    b: int,
    title: Seq<char>,
    index: int,
)
    requires
        0 <= a <= b <= hay.len(),
        0 <= index <= u32::MAX,
    ensures
        ({
            let h = described(hay, (a, b), title, index);
            let n = hay.len() as int;
            &&& h.quote == hay.subrange(a, b)
            &&& h.prefix + h.quote + h.suffix == hay.subrange(
                a - least(a, 12),
                b + least(n - b, 12),
            )
            &&& h.prefix.len() == least(a, 12)
            &&& h.suffix.len() == least(n - b, 12)
            &&& a <= 40 ==> h.pre == hay.subrange(0, a)
            &&& a > 40 ==> h.pre == seq!['…'] + hay.subrange(a - 40, a)
            &&& n - b <= 40 ==> h.post == hay.subrange(b, n)
            &&& n - b > 40 ==> h.post == hay.subrange(b, b + 40) + seq!['…']
            &&& h.chapter_index == index
            &&& h.chapter_title == title
        }),
{
    reveal_strlit("…");
    let h = described(hay, (a, b), title, index);
    let n = hay.len() as int;
    assert("…"@ =~= seq!['…']);
    assert(h.prefix =~= hay.subrange(a - least(a, 12), a));
    assert(h.suffix =~= hay.subrange(b, b + least(n - b, 12)));
    assert(h.prefix + h.quote + h.suffix =~= hay.subrange(a - least(a, 12), b + least(n - b, 12)));
    if a <= 40 {
        assert(h.pre =~= hay.subrange(0, a));
    } else {
        assert(hay.take(a).skip(a - 40) =~= hay.subrange(a - 40, a));
    }
    if n - b <= 40 {
        assert(h.post =~= hay.subrange(b, n));
    } else {
        assert(hay.skip(b).take(40) =~= hay.subrange(b, b + 40));
    }
}

/// The hits of a chapter are those in its text, each under the number of the chapter and its title,
/// or, where that is blank, under its number in words.
pub proof fn hits_belong_to_their_chapter(c: Chapter, index: int, query: Seq<char>, i: int)
    requires
        0 <= index <= u32::MAX,
        0 <= i < hits(searched_text(c), query).len(),
    ensures
        chapter_hits(Ok(c), index, query).len() == hits(searched_text(c), query).len(),
        chapter_hits(Ok(c), index, query)[i].chapter_index == index,
        trimmed(c.title).len() > 0 ==> chapter_hits(Ok(c), index, query)[i].chapter_title
            == c.title,
        chapter_hits(Ok(c), index, query)[i].quote == searched_text(c).subrange(
            hits(searched_text(c), query)[i].0,
            hits(searched_text(c), query)[i].1,
        ),
{
}

/// A plain text is looked through as it is, its white space folded; pictures have no text.
pub proof fn a_text_is_looked_through(c: Chapter, t: Seq<char>)
    ensures
        c.kind == ChapterKind::Text && c.text == Some(t) ==> searched_text(c) == collapsed(t),
        c.kind == ChapterKind::Images ==> searched_text(c) == Seq::<char>::empty(),
{
}

/// No chapter is passed over: every hit of a chapter is among those of the book.
pub proof fn no_chapter_is_passed_over<S: BookSession>(
    book: S,
    n: int,
    query: Seq<char>,
    k: int,
    i: int,
)
    requires
        0 <= k < n,
        0 <= i < chapter_hits(book.chapter_at(k, false), k, query).len(),
    ensures
        book_hits(book, n, query).contains(chapter_hits(book.chapter_at(k, false), k, query)[i]),
    decreases n,
{
    let h = chapter_hits(book.chapter_at(k, false), k, query)[i];
    let before = book_hits(book, n - 1, query);
    let all = book_hits(book, n, query);
    if k == n - 1 {
        assert(all[before.len() + i] == h);
    } else {
        no_chapter_is_passed_over(book, n - 1, query, k, i);
        let j = choose|j: int| 0 <= j < before.len() && before[j] == h;
        assert(all[j] == h);
    }
}

/// A query is looked for without regard to white space around and within it.
pub proof fn white_space_in_a_query_has_no_say(a: Seq<char>, b: Seq<char>)
    requires
        collapsed(a) == collapsed(b),
    ensures
        asked(a) == asked(b),
{
}

/// A query of no more than a hundred characters is looked for as a whole.
pub proof fn a_short_query_is_whole(raw: Seq<char>)
    requires
        collapsed(raw).len() <= 100,
    ensures
        asked(raw) == folded(collapsed(raw), collapsed(raw).len() as int),
{
}

} // verus!
