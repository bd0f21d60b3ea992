//! How many characters a book has.
use vstd::prelude::*;
use crate::commands::shelf::{on_shelf, shelved};
use crate::commands::summary::find_book;
use crate::error::Failure;
use crate::model::{Chapter, ChapterContent, ChapterKind, ShelfData};
use crate::parser::session::BookSession;
use crate::text::{char_from, char_from_is_first, chars_of, find_char, is_space, space};

verus! {

/// How many characters a page shows from position `i` on: tags do not count, and a run of white
/// space counts as one character. `blank` says that such a run is not over.
pub open spec fn shown_from(s: Seq<char>, i: int, blank: bool) -> int
    decreases s.len() - i,
{
    if i < 0 || i >= s.len() {
        0
    } else if s[i] == '<' {
        match char_from(s, '>', i) {
            Some(e) => if i < e < s.len() {
                shown_from(s, e + 1, blank)
            } else {
                0
            },
            None => 0,
        }
    } else if is_space(s[i]) {
        if blank {
            shown_from(s, i + 1, true)
        } else {
            1 + shown_from(s, i + 1, true)
        }
    } else {
        1 + shown_from(s, i + 1, false)
    }
}

/// How many characters a page shows.
pub open spec fn shown(html: Seq<char>) -> int {
    shown_from(html, 0, false)
}

/// A page shows no more characters than it has.
pub proof fn shown_within(s: Seq<char>, i: int, blank: bool)
    requires
        0 <= i <= s.len(),
    ensures
        0 <= shown_from(s, i, blank) <= s.len() - i,
    decreases s.len() - i,
{
    if i < s.len() {
        if s[i] == '<' {
            if let Some(e) = char_from(s, '>', i) {
                if i < e < s.len() {
                    shown_within(s, e + 1, blank);
                }
            }
        } else if is_space(s[i]) {
            shown_within(s, i + 1, true);
        } else {
            shown_within(s, i + 1, false);
        }
    }
}

/// Counts the characters that a page shows.
pub fn strip_html_count(html: &str) -> (r: u64)
    ensures
        r == shown(html@),
{
    let s = chars_of(html);
    let n = s.len();
    let mut count: u64 = 0;
    let mut blank = false;
    let mut i: usize = 0;
    proof {
        shown_within(s@, 0, false);
    }
    loop
        invariant
            n == s@.len(),
            i <= n,
            count <= i,
            count + shown_from(s@, i as int, blank) == shown(s@),
        ensures
            count == shown(s@),
        decreases n - i,
    {
        if i >= n {
            break;
        }
        if s[i] == '<' {
            match find_char(&s, '>', i) {
                Some(e) => {
                    proof {
                        char_from_is_first(s@, '>', i as int);
                    }
                    i = e + 1;
                },
                None => {
                    break;
                },
            }
        } else if space(s[i]) {
            if !blank {
                count = count + 1;
            }
            blank = true;
            i = i + 1;
        } else {
            count = count + 1;
            blank = false;
            i = i + 1;
        }
    }
    count
}

/// How many characters a chapter has; pictures have none.
pub open spec fn letters(c: Result<Chapter, Failure>) -> int {
    match c {
        Ok(c) => match c.kind {
            ChapterKind::Text => match c.text {
                Some(t) => t.len() as int,
                None => 0,
            },
            ChapterKind::Html => match c.html {
                Some(h) => shown(h),
                None => 0,
            },
            ChapterKind::Images => 0,
        },
        Err(_) => 0,
    }
}

/// How many characters the first `n` chapters have; one that cannot be read has none.
pub open spec fn letters_of<S: BookSession>(book: S, n: int) -> int
    decreases n,
{
    if n <= 0 {
        0
    } else {
        letters_of(book, n - 1) + letters(book.chapter_at(n - 1, false))
    }
}

/// A number no larger than sixty-four bits hold.
pub open spec fn capped(n: int) -> int {
    if n > u64::MAX {
        u64::MAX as int
    } else {
        n
    }
}

fn count_letters(c: &ChapterContent) -> (r: u64)
    ensures
        r == letters(Ok::<Chapter, Failure>(c.deep_view())),
{
    match c.kind {
        ChapterKind::Text => match &c.text {
            Some(t) => chars_of(t).len() as u64,
            None => 0,
        },
        ChapterKind::Html => match &c.html {
            Some(h) => strip_html_count(h),
            None => 0,
        },
        ChapterKind::Images => 0,
    }
}

/// Counts the characters of a book.
pub fn book_char_count<S: BookSession>(book: &S) -> (r: u64)
    requires
        book.ready(),
    ensures
        r == capped(letters_of(*book, book.chapters())),
{
    let n = book.chapter_count();
    let mut total: u64 = 0;
    let mut i: usize = 0;
    while i < n
        invariant
            book.ready(),
            n == book.chapters(),
            i <= n,
            total == capped(letters_of(*book, i as int)),
        decreases n - i,
    {
        match book.load_chapter(i) {
            Ok(c) => {
                let more = count_letters(&c);
                total = if more > u64::MAX - total {
                    u64::MAX
                } else {
                    total + more
                };
            },
            Err(_) => {},
        }
        i = i + 1;
    }
    total
}

/// What is known of how many characters a book has.
#[derive(Debug)]
pub enum CharCount {
    /// The book is not on the shelf.
    Absent,
    /// They were counted.
    Known(u64),
    /// They are to be counted in the file.
    Uncounted(String),
}

/// What is known of how many characters a book has: they are counted once.
pub fn known_char_count(shelf: &ShelfData, book_id: &str) -> (r: CharCount)
    ensures
        match r {
            CharCount::Absent => !on_shelf(shelf.deep_view(), book_id@),
            CharCount::Known(n) => on_shelf(shelf.deep_view(), book_id@) && shelved(
                shelf.deep_view(),
                book_id@,
            ).char_count == Some(n),
            CharCount::Uncounted(path) => on_shelf(shelf.deep_view(), book_id@) && shelved(
                shelf.deep_view(),
                book_id@,
            ).char_count is None && path@ == shelved(shelf.deep_view(), book_id@).file_path,
        },
{
    match find_book(&shelf.books, book_id) {
        Some(i) => {
            assert(shelf.books.deep_view()[i as int] == shelf.books@[i as int].deep_view());
            match shelf.books[i].char_count {
                Some(n) => CharCount::Known(n),
                None => CharCount::Uncounted(shelf.books[i].file_path.clone()),
            }
        },
        None => CharCount::Absent,
    }
}

// ---------------------------------------------------------------------------
// What counts
// ---------------------------------------------------------------------------

proof fn char_further(s: Seq<char>, c: char, i: int, k: int)
    requires
        0 <= i,
        0 <= k,
        i + k <= s.len(),
    ensures
        char_from(s, c, i + k) == match char_from(s.skip(i), c, k) {
            Some(e) => Some(e + i),
            None => None,
        },
    decreases s.len() - i - k,
{
    if i + k < s.len() {
        assert(s.skip(i)[k] == s[i + k]);
        char_further(s, c, i, k + 1);
    }
}

proof fn shown_further(s: Seq<char>, i: int, k: int, blank: bool)
    requires
        0 <= i,
        0 <= k,
        i + k <= s.len(),
    ensures
        shown_from(s, i + k, blank) == shown_from(s.skip(i), k, blank),
    decreases s.len() - i - k,
{
    let t = s.skip(i);
    if i + k < s.len() {
        assert(t[k] == s[i + k]);
        shown_further(s, i, k + 1, true);
        shown_further(s, i, k + 1, false);
        char_further(s, '>', i, k);
        if let Some(e) = char_from(t, '>', k) {
            if k < e < t.len() {
                shown_further(s, i, e + 1, blank);
            }
        }
    }
}

/// A tag counts for nothing, wherever it stands.
pub proof fn a_tag_counts_for_nothing(before: Seq<char>, inner: Seq<char>, rest: Seq<char>, blank: bool)
    requires
        !before.contains('<'),
        !inner.contains('>'),
    ensures
        shown_from(before + (seq!['<'] + inner + seq!['>'] + rest), 0, blank) == shown_from(
            before + rest,
            0,
            blank,
        ),
    decreases before.len(),
{
    let tag = seq!['<'] + inner + seq!['>'] + rest;
    if before.len() == 0 {
        assert(before + tag =~= tag);
        assert(before + rest =~= rest);
        let e = inner.len() as int + 1;
        assert(tag[0] == '<' && tag[e] == '>');
        char_from_is_first(tag, '>', 0);
        if let Some(k) = char_from(tag, '>', 0) {
            if 0 < k < e {
                assert(tag[k] == inner[k - 1]);
                assert(inner.contains(inner[k - 1]));
            }
        }
        assert(char_from(tag, '>', 0) == Some(e));
        shown_further(tag, e + 1, 0, blank);
        assert(tag.skip(e + 1) =~= rest);
    } else {
        let less = before.skip(1);
        assert(before.contains(before[0]));
        assert(!less.contains('<')) by {
            if less.contains('<') {
                let k = choose|k: int| 0 <= k < less.len() && less[k] == '<';
                assert(before[k + 1] == '<');
            }
        }
        a_tag_counts_for_nothing(less, inner, rest, true);
        a_tag_counts_for_nothing(less, inner, rest, false);
        let a = before + tag;
        let b = before + rest;
        assert(a[0] == before[0] && b[0] == before[0]);
        assert(a.skip(1) =~= less + tag);
        assert(b.skip(1) =~= less + rest);
        shown_further(a, 1, 0, true);
        shown_further(a, 1, 0, false);
        shown_further(b, 1, 0, true);
        shown_further(b, 1, 0, false);
    }
}

/// A character counts unless it is white space behind white space.
pub open spec fn counts(s: Seq<char>, i: int) -> bool {
    !is_space(s[i]) || i == 0 || !is_space(s[i - 1])
}

/// How many of the first `n` characters count.
pub open spec fn counting_to(s: Seq<char>, n: int) -> int
    decreases n,
{
    if n <= 0 {
        0
    } else {
        counting_to(s, n - 1) + if counts(s, n - 1) {
            1int
        } else {
            0
        }
    }
}

proof fn shown_so_far(s: Seq<char>, i: int)
    requires
        0 <= i <= s.len(),
        !s.contains('<'),
    ensures
        shown(s) == counting_to(s, i) + shown_from(s, i, i > 0 && is_space(s[i - 1])),
    decreases i,
{
    if i > 0 {
        shown_so_far(s, i - 1);
        assert(s.contains(s[i - 1]));
    }
}

/// In a text without tags every character counts, but of a run of white space only the first.
pub proof fn a_run_of_white_space_counts_once(s: Seq<char>)
    requires
        !s.contains('<'),
    ensures
        shown(s) == counting_to(s, s.len() as int),
{
    shown_so_far(s, s.len() as int);
}

/// The characters of a book are those of all its chapters: of a plain text all, of a page those that it
/// shows, of pictures none.
pub proof fn every_chapter_counts<S: BookSession>(book: S, n: int, c: Chapter, t: Seq<char>)
    requires
        n > 0,
        book.chapter_at(n - 1, false) == Ok::<Chapter, Failure>(c),
    ensures
        c.kind == ChapterKind::Text && c.text == Some(t) ==> letters_of(book, n) == letters_of(
            book,
            n - 1,
        ) + t.len(),
        c.kind == ChapterKind::Html && c.html == Some(t) ==> letters_of(book, n) == letters_of(
            book,
            n - 1,
        ) + shown(t),
        c.kind == ChapterKind::Images ==> letters_of(book, n) == letters_of(book, n - 1),
{
}

} // verus!
