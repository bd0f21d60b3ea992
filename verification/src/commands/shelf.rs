//! The shelf: its books, their settings, and its categories.
use vstd::prelude::*;
use crate::commands::summary::{book_place, find_book};
use crate::error::{AppError, AppResult, Failure};
use crate::keyed::deep_update;
use crate::model::{
    copy_text, newly_shelved, BookFormat, BookMeta, Category, Shelf, ShelfBook, ShelfCategory,
    ShelfData, Shelved, UNCATEGORIZED_ID,
};
use crate::numbers::{padded, write_number, written};
use crate::text::{chars_of, push_all, same, string_of, trim, trimmed};
use crate::views::{deep_empty, deep_push, deep_seq, deep_seq_of, deep_seq_step};

verus! {

/// The shelf with a book exchanged.
pub open spec fn with_book(s: Shelf, i: int, b: Shelved) -> Shelf {
    Shelf { books: s.books.update(i, b), ..s }
}

/// What an optional text is worth: nothing where it is blank.
pub open spec fn unless_blank(t: Option<Seq<char>>) -> Option<Seq<char>> {
    match t {
        Some(s) => if trimmed(s).len() > 0 {
            Some(s)
        } else {
            None
        },
        None => None,
    }
}

fn is_blank(s: &str) -> (r: bool)
    ensures
        r == (trimmed(s@).len() == 0),
{
    let cs = chars_of(s);
    trim(&cs).len() == 0
}

fn trimmed_text(s: &str) -> (r: String)
    ensures
        r@ == trimmed(s@),
{
    let cs = chars_of(s);
    string_of(trim(&cs))
}

// ---------------------------------------------------------------------------
// Genres
// ---------------------------------------------------------------------------

/// The genres that are kept of a list, from the `i`-th on, behind those that are: trimmed, not
/// empty, at most thirty characters each, none twice, twenty-four in all.
pub open spec fn kept_genres(list: Seq<Seq<char>>, i: int, acc: Seq<Seq<char>>) -> Seq<Seq<char>>
    decreases list.len() - i,
{
    if i < 0 || i >= list.len() || acc.len() >= 24 {
        acc
    } else {
        let g = trimmed(list[i]);
        if g.len() == 0 || g.len() > 30 || acc.contains(g) {
            kept_genres(list, i + 1, acc)
        } else {
            kept_genres(list, i + 1, acc.push(g))
        }
    }
}

/// A list of genres is in order: at most twenty-four, each not empty, trimmed and at most thirty
/// characters, none twice.
pub open spec fn genres_in_order(list: Seq<Seq<char>>) -> bool {
    &&& list.len() <= 24
    &&& forall|i: int| 0 <= i < list.len() ==> 0 < (#[trigger] list[i]).len() <= 30
    &&& forall|i: int, j: int| 0 <= i < j < list.len() ==> list[i] != list[j]
}

/// Whatever genres are given, those that are kept are in order.
pub proof fn kept_genres_in_order(list: Seq<Seq<char>>, i: int, acc: Seq<Seq<char>>)
    requires
        genres_in_order(acc),
    ensures
        genres_in_order(kept_genres(list, i, acc)),
    decreases list.len() - i,
{
    if 0 <= i < list.len() && acc.len() < 24 {
        let g = trimmed(list[i]);
        if g.len() == 0 || g.len() > 30 || acc.contains(g) {
            kept_genres_in_order(list, i + 1, acc);
        } else {
            let next = acc.push(g);
            assert forall|a: int, b: int| 0 <= a < b < next.len() implies next[a] != next[b] by {
                if b == acc.len() {
                    assert(acc.contains(acc[a]));
                }
            }
            kept_genres_in_order(list, i + 1, next);
        }
    }
}

fn holds(list: &Vec<String>, t: &[char]) -> (r: bool)
    ensures
        r == list.deep_view().contains(t@),
{
    let mut i: usize = 0;
    while i < list.len()
        invariant
            i <= list@.len(),
            forall|k: int| 0 <= k < i ==> #[trigger] list.deep_view()[k] != t@,
        decreases list@.len() - i,
    {
        let c = chars_of(list[i].as_str());
        assert(list.deep_view()[i as int] == c@);
        if same(&c, t) {
            return true;
        }
        i = i + 1;
    }
    false
}

/// The genres that are kept of a list.
pub fn clean_genres(list: &Vec<String>) -> (r: Vec<String>)
    ensures
        r.deep_view() == kept_genres(list.deep_view(), 0, Seq::empty()),
        genres_in_order(r.deep_view()),
{
    let ghost l = list.deep_view();
    let mut out: Vec<String> = Vec::new();
    proof {
        deep_empty(out);
        kept_genres_in_order(l, 0, Seq::empty());
    }
    let mut i: usize = 0;
    while i < list.len() && out.len() < 24
        invariant
            i <= list@.len(),
            l == list.deep_view(),
            kept_genres(l, 0, Seq::empty()) == kept_genres(l, i as int, out.deep_view()),
        decreases list@.len() - i,
    {
        let c = chars_of(list[i].as_str());
        assert(l[i as int] == c@);
        let g = trim(&c);
        if g.len() > 0 && g.len() <= 30 && !holds(&out, g) {
            let s = string_of(g);
            let ghost before = out;
            out.push(s);
            proof {
                deep_push(before, s, out);
            }
        }
        i = i + 1;
    }
    out
}

// ---------------------------------------------------------------------------
// Books
// ---------------------------------------------------------------------------

/// A change of one book, given by what it makes of it.
pub open spec fn changed(s: Shelf, id: Seq<char>, b: Shelved) -> Shelf {
    match book_place(s.books, id, 0) {
        Some(i) => with_book(s, i, b),
        None => s,
    }
}

/// The book with an identifier is on the shelf.
pub open spec fn on_shelf(s: Shelf, id: Seq<char>) -> bool {
    book_place(s.books, id, 0) is Some
}

/// The first book with an identifier, where there is one.
pub open spec fn shelved(s: Shelf, id: Seq<char>) -> Shelved {
    s.books[book_place(s.books, id, 0).unwrap()]
}

/// The books without those of an identifier.
pub open spec fn books_without(books: Seq<Shelved>, id: Seq<char>) -> Seq<Shelved>
    decreases books.len(),
{
    if books.len() == 0 {
        books
    } else if books.last().id == id {
        books_without(books.drop_last(), id)
    } else {
        books_without(books.drop_last(), id).push(books.last())
    }
}

/// A book that is taken off the shelf is no longer there.
pub proof fn removed_book_is_gone(books: Seq<Shelved>, id: Seq<char>)
    ensures
        book_place(books_without(books, id), id, 0) is None,
        forall|k: int|
            0 <= k < books_without(books, id).len() ==> (#[trigger] books_without(books, id)[k]).id
                != id,
    decreases books.len(),
{
    if books.len() > 0 {
        removed_book_is_gone(books.drop_last(), id);
    }
    place_is_first(books_without(books, id), id, 0);
}

/// `book_place` gives a place that holds the book, the first one there is.
pub proof fn place_is_first(books: Seq<Shelved>, id: Seq<char>, i: int)
    requires
        0 <= i,
    ensures
        match book_place(books, id, i) {
            Some(k) => i <= k < books.len() && books[k].id == id && forall|j: int|
                i <= j < k ==> (#[trigger] books[j]).id != id,
            None => forall|j: int| i <= j < books.len() ==> (#[trigger] books[j]).id != id,
        },
    decreases books.len() - i,
{
    if i < books.len() && books[i].id != id {
        place_is_first(books, id, i + 1);
    }
}

/// Each identifier is on the shelf once at most.
pub open spec fn books_distinct(books: Seq<Shelved>) -> bool {
    forall|i: int, j: int| 0 <= i < j < books.len() ==> books[i].id != books[j].id
}

/// A book that comes to the shelf: it is put behind the others unless it is there.
pub open spec fn with_opened(s: Shelf, b: Shelved) -> Shelf {
    if on_shelf(s, b.id) {
        s
    } else {
        Shelf { books: s.books.push(b), ..s }
    }
}

/// Putting a book on the shelf keeps every identifier there once.
pub proof fn opening_keeps_books_distinct(s: Shelf, b: Shelved)
    requires
        books_distinct(s.books),
    ensures
        books_distinct(with_opened(s, b).books),
        on_shelf(with_opened(s, b), b.id),
{
    place_is_first(s.books, b.id, 0);
    place_is_first(with_opened(s, b).books, b.id, 0);
    if !on_shelf(s, b.id) {
        let n = s.books.len() as int;
        assert(with_opened(s, b).books[n].id == b.id);
    }
}

/// Opening a book a second time changes nothing.
pub proof fn opening_twice_is_opening_once(s: Shelf, b: Shelved)
    ensures
        with_opened(with_opened(s, b), b) == with_opened(s, b),
{
    place_is_first(with_opened(s, b).books, b.id, 0);
    if !on_shelf(s, b.id) {
        let n = s.books.len() as int;
        assert(with_opened(s, b).books[n].id == b.id);
    }
}

/// A book that was opened is on the shelf.
pub proof fn opening_puts_on_the_shelf(s: Shelf, b: Shelved)
    ensures
        on_shelf(with_opened(s, b), b.id),
{
    let after = with_opened(s, b);
    place_is_first(after.books, b.id, 0);
    if !on_shelf(s, b.id) {
        assert(after.books[s.books.len() as int].id == b.id);
    }
}

impl ShelfData {
    /// Whether a book is on the shelf.
    pub fn has_book(&self, book_id: &str) -> (r: bool)
        ensures
            r == on_shelf(self.deep_view(), book_id@),
    {
        find_book(&self.books, book_id).is_some()
    }

    /// Exchanges a book.
    fn set_book(&mut self, i: usize, book: ShelfBook)
        requires
            i < old(self).books@.len(),
        ensures
            final(self).deep_view() == with_book(old(self).deep_view(), i as int, book.deep_view()),
    {
        let ghost before = self.books;
        self.books.set(i, book);
        proof {
            deep_update(before, i as int, book, self.books);
        }
    }

    /// Puts an opened book on the shelf, unless it is there. Says whether it was put there.
    pub fn auto_add_opened_book(&mut self, meta: &BookMeta, now: i64) -> (r: bool)
        ensures
            r == !on_shelf(old(self).deep_view(), meta.id@),
            final(self).deep_view() == with_opened(
                old(self).deep_view(),
                newly_shelved(
                    meta.id@,
                    meta.title@,
                    meta.author.deep_view(),
                    meta.format,
                    meta.file_size,
                    meta.file_path@,
                    now,
                ),
            ),
    {
        if self.has_book(meta.id.as_str()) {
            return false;
        }
        let book = ShelfBook::new_opened(
            meta.id.clone(),
            meta.title.clone(),
            copy_text(&meta.author),
            meta.format,
            meta.file_size,
            meta.file_path.clone(),
            now,
        );
        let ghost before = self.books;
        self.books.push(book);
        proof {
            deep_push(before, book, self.books);
        }
        true
    }

    /// Takes a book off the shelf. Says whether it was there.
    pub fn remove_book_from_shelf(&mut self, book_id: &str) -> (r: bool)
        ensures
            r == on_shelf(old(self).deep_view(), book_id@),
            final(self).deep_view() == (Shelf {
                books: books_without(old(self).deep_view().books, book_id@),
                ..old(self).deep_view()
            }),
            !on_shelf(final(self).deep_view(), book_id@),
    {
        let ghost before = self.deep_view();
        let had = self.has_book(book_id);
        let k = chars_of(book_id);
        let mut books: Vec<ShelfBook> = Vec::new();
        std::mem::swap(&mut books, &mut self.books);
        let ghost all = books@;
        let mut out: Vec<ShelfBook> = Vec::new();
        proof {
            deep_empty(out);
            deep_seq_of(books);
        }
        for b in it: books
            invariant
                k@ == book_id@,
                it.seq() == all,
                deep_seq(all) == before.books,
                out.deep_view() == books_without(
                    deep_seq(all.take(it.index() as int)),
                    book_id@,
                ),
        {
            proof {
                deep_seq_step(all, it.index() as int);
            }
            let c = chars_of(b.id.as_str());
            if !same(&c, &k) {
                let ghost had_out = out;
                out.push(b);
                proof {
                    deep_push(had_out, b, out);
                }
            }
        }
        self.books = out;
        proof {
            removed_book_is_gone(before.books, book_id@);
        }
        had
    }

    /// Moves a book to a category, or out of all of them. A category that does not exist is an
    /// error. Says whether the book is on the shelf.
    pub fn set_book_category(&mut self, book_id: &str, category_id: Option<String>) -> (r:
        AppResult<bool>)
        ensures
            match r {
                Ok(found) => {
                    &&& category_id.deep_view() matches Some(c) ==> has_category(
                        old(self).deep_view(),
                        c,
                    )
                    &&& found == on_shelf(old(self).deep_view(), book_id@)
                    &&& final(self).deep_view() == changed(
                        old(self).deep_view(),
                        book_id@,
                        (Shelved {
                            category_id: category_id.deep_view(),
                            ..shelved(old(self).deep_view(), book_id@)
                        }),
                    )
                },
                Err(e) => {
                    &&& category_id.deep_view() matches Some(c) && !has_category(
                        old(self).deep_view(),
                        c,
                    )
                    &&& e@ == Failure::Other("分类不存在"@)
                    &&& final(self).deep_view() == old(self).deep_view()
                },
            },
    {
        if let Some(c) = &category_id {
            if self.find_category(c.as_str()).is_none() {
                return Err(AppError::other("分类不存在"));
            }
        }
        match find_book(&self.books, book_id) {
            Some(i) => {
                let mut b = self.books[i].clone();
                b.category_id = category_id;
                self.set_book(i, b);
                Ok(true)
            },
            None => Ok(false),
        }
    }

    /// Sets the font of a book; a blank name clears it. Says whether the book is on the shelf.
    pub fn set_book_font(&mut self, book_id: &str, font_family: Option<String>) -> (r: bool)
        ensures
            r == on_shelf(old(self).deep_view(), book_id@),
            final(self).deep_view() == changed(
                old(self).deep_view(),
                book_id@,
                (Shelved {
                    font_family: unless_blank(font_family.deep_view()),
                    ..shelved(old(self).deep_view(), book_id@)
                }),
            ),
    {
        let font: Option<String> = match font_family {
            Some(f) => if is_blank(f.as_str()) {
                None
            } else {
                Some(f)
            },
            None => None,
        };
        match find_book(&self.books, book_id) {
            Some(i) => {
                let mut b = self.books[i].clone();
                b.font_family = font;
                self.set_book(i, b);
                true
            },
            None => false,
        }
    }

    /// Renames a book on the shelf; an empty name is an error.
    pub fn rename_book(&mut self, book_id: &str, title: &str) -> (r: AppResult<bool>)
        ensures
            match r {
                Ok(found) => {
                    &&& trimmed(title@).len() > 0
                    &&& found == on_shelf(old(self).deep_view(), book_id@)
                    &&& final(self).deep_view() == changed(
                        old(self).deep_view(),
                        book_id@,
                        (Shelved {
                            title: trimmed(title@),
                            ..shelved(old(self).deep_view(), book_id@)
                        }),
                    )
                },
                Err(e) => trimmed(title@).len() == 0 && e@ == Failure::Other("书名不能为空"@)
                    && final(self).deep_view() == old(self).deep_view(),
            },
    {
        if is_blank(title) {
            return Err(AppError::other("书名不能为空"));
        }
        match find_book(&self.books, book_id) {
            Some(i) => {
                let mut b = self.books[i].clone();
                b.title = trimmed_text(title);
                self.set_book(i, b);
                Ok(true)
            },
            None => Ok(false),
        }
    }

    /// Sets whether a book is kept out of the statistics. Says whether it is on the shelf.
    pub fn set_book_stats_excluded(&mut self, book_id: &str, excluded: bool) -> (r: bool)
        ensures
            r == on_shelf(old(self).deep_view(), book_id@),
            final(self).deep_view() == changed(
                old(self).deep_view(),
                book_id@,
                (Shelved {
                    stats_excluded: Some(excluded),
                    ..shelved(old(self).deep_view(), book_id@)
                }),
            ),
    {
        match find_book(&self.books, book_id) {
            Some(i) => {
                let mut b = self.books[i].clone();
                b.stats_excluded = Some(excluded);
                self.set_book(i, b);
                true
            },
            None => false,
        }
    }

    /// Sets the number of characters of a book. Says whether it is on the shelf.
    pub fn set_book_char_count(&mut self, book_id: &str, count: u64) -> (r: bool)
        ensures
            r == on_shelf(old(self).deep_view(), book_id@),
            final(self).deep_view() == changed(
                old(self).deep_view(),
                book_id@,
                (Shelved {
                    char_count: Some(count),
                    ..shelved(old(self).deep_view(), book_id@)
                }),
            ),
    {
        match find_book(&self.books, book_id) {
            Some(i) => {
                let mut b = self.books[i].clone();
                b.char_count = Some(count);
                self.set_book(i, b);
                true
            },
            None => false,
        }
    }

    /// Sets the number of pages of a book. Says whether it is on the shelf.
    pub fn set_book_page_count(&mut self, book_id: &str, count: u32) -> (r: bool)
        ensures
            r == on_shelf(old(self).deep_view(), book_id@),
            final(self).deep_view() == changed(
                old(self).deep_view(),
                book_id@,
                (Shelved {
                    page_count: Some(count),
                    ..shelved(old(self).deep_view(), book_id@)
                }),
            ),
    {
        match find_book(&self.books, book_id) {
            Some(i) => {
                let mut b = self.books[i].clone();
                b.page_count = Some(count);
                self.set_book(i, b);
                true
            },
            None => false,
        }
    }

    /// Sets or clears the rating of a book, a tenth of a star a step. Only a book that was read
    /// to the end can be rated, unless it has a rating already.
    pub fn set_book_rating(&mut self, book_id: &str, rating: Option<u8>, now: i64) -> (r: AppResult<
        bool,
    >)
        ensures
            rating_outcome(old(self).deep_view(), book_id@, rating, now) == match r {
                Ok(b) => Ok::<(bool, Shelf), Failure>((b, final(self).deep_view())),
                Err(e) => Err::<(bool, Shelf), Failure>(e@),
            },
            r is Err ==> final(self).deep_view() == old(self).deep_view(),
    {
        if let Some(n) = rating {
            if n > 100 {
                return Err(AppError::other("评分取值 0~100（十星制，0.1 星步进）"));
            }
        }
        match find_book(&self.books, book_id) {
            Some(i) => {
                assert(self.books.deep_view()[i as int] == self.books@[i as int].deep_view());
                if rating.is_some() && !self.books[i].finished && self.books[i].rating.is_none() {
                    return Err(AppError::other("读完一本书后才能评分"));
                }
                let mut b = self.books[i].clone();
                b.rating = rating;
                b.rated_at = match rating {
                    Some(_) => Some(now),
                    None => None,
                };
                self.set_book(i, b);
                Ok(true)
            },
            None => Ok(false),
        }
    }

    /// Sets the genres of a book, as far as they are kept. Says whether it is on the shelf.
    pub fn set_book_genres(&mut self, book_id: &str, genres: &Vec<String>) -> (r: bool)
        ensures
            r == on_shelf(old(self).deep_view(), book_id@),
            final(self).deep_view() == changed(
                old(self).deep_view(),
                book_id@,
                (Shelved {
                    genres: kept_genres(genres.deep_view(), 0, Seq::empty()),
                    ..shelved(old(self).deep_view(), book_id@)
                }),
            ),
    {
        let cleaned = clean_genres(genres);
        match find_book(&self.books, book_id) {
            Some(i) => {
                let mut b = self.books[i].clone();
                b.genres = cleaned;
                self.set_book(i, b);
                true
            },
            None => false,
        }
    }

    /// Takes over the progress of a book: its share read, whether that reaches the end, and
    /// when. Coming to the end, from before it, is noted and counted.
    pub fn save_progress(&mut self, book_id: &str, percent_bits: u32, at_end: bool, now: i64) -> (r:
        bool)
        ensures
            r == on_shelf(old(self).deep_view(), book_id@),
            final(self).deep_view() == changed(
                old(self).deep_view(),
                book_id@,
                progressed(shelved(old(self).deep_view(), book_id@), percent_bits, at_end, now),
            ),
    {
        match find_book(&self.books, book_id) {
            Some(i) => {
                assert(self.books.deep_view()[i as int] == self.books@[i as int].deep_view());
                let mut b = self.books[i].clone();
                let before = b.finished;
                b.percent_bits = percent_bits;
                b.finished = at_end;
                if at_end && !before {
                    b.finished_at = Some(now);
                    b.finished_times = b.finished_times.saturating_add(1);
                }
                b.last_read_at = now;
                self.set_book(i, b);
                true
            },
            None => false,
        }
    }

    /// Takes over the genre of an older form of the shelf into books that have none.
    pub fn migrate_genres(&mut self)
        ensures
            final(self).deep_view() == (Shelf {
                books: old(self).deep_view().books.map_values(|b: Shelved| genre_migrated(b)),
                ..old(self).deep_view()
            }),
    {
        let ghost before = self.deep_view();
        let ghost want = before.books.map_values(|b: Shelved| genre_migrated(b));
        let mut i: usize = 0;
        assert(before.books.skip(0) =~= before.books);
        while i < self.books.len()
            invariant
                i <= self.books@.len(),
                self.books@.len() == before.books.len(),
                want == before.books.map_values(|b: Shelved| genre_migrated(b)),
                self.categories.deep_view() == before.categories,
                self.uncategorized_order == before.uncategorized_order,
                forall|k: int|
                    #![trigger self.books.deep_view()[k]]
                    0 <= k < before.books.len() ==> self.books.deep_view()[k] == if k < i {
                        want[k]
                    } else {
                        before.books[k]
                    },
            decreases self.books@.len() - i,
        {
            assert(self.books.deep_view()[i as int] == before.books[i as int]);
            let mut b = self.books[i].clone();
            if b.genres.len() == 0 {
                if let Some(g) = b.legacy_genre.take() {
                    let mut list: Vec<String> = Vec::new();
                    let ghost none = list;
                    list.push(g);
                    proof {
                        deep_empty(none);
                        deep_push(none, g, list);
                        assert(list.deep_view() =~= seq![g@]);
                    }
                    b.genres = list;
                }
            }
            assert(b.deep_view() =~= want[i as int]);
            let ghost held = self.books.deep_view();
            self.set_book(i, b);
            assert(self.books.deep_view() == held.update(i as int, b.deep_view()));
            i = i + 1;
        }
        assert(self.books.deep_view() =~= want);
    }
}

/// A book after its progress was saved.
pub open spec fn progressed(b: Shelved, percent_bits: u32, at_end: bool, now: i64) -> Shelved {
    let done = at_end && !b.finished;
    Shelved {
        percent_bits,
        finished: at_end,
        finished_at: if done {
            Some(now)
        } else {
            b.finished_at
        },
        finished_times: if done && b.finished_times < u32::MAX {
            (b.finished_times + 1) as u32
        } else {
            b.finished_times
        },
        last_read_at: now,
        ..b
    }
}

/// Saving the same end twice counts it once.
pub proof fn the_end_counts_once(b: Shelved, p: u32, q: u32, t: i64, u: i64)
    ensures
        progressed(progressed(b, p, true, t), q, true, u).finished_times == progressed(
            b,
            p,
            true,
            t,
        ).finished_times,
        progressed(progressed(b, p, true, t), q, true, u).finished_at == progressed(
            b,
            p,
            true,
            t,
        ).finished_at,
{
}

/// A book after its progress was saved time and again.
pub open spec fn progressed_by(b: Shelved, saves: Seq<(u32, bool, i64)>) -> Shelved
    decreases saves.len(),
{
    if saves.len() == 0 {
        b
    } else {
        let (percent_bits, at_end, now) = saves.last();
        progressed(progressed_by(b, saves.drop_last()), percent_bits, at_end, now)
    }
}

/// How often saving comes to the end from before it, where the book starts at the end or not.
pub open spec fn arrivals(finished: bool, saves: Seq<(u32, bool, i64)>) -> int
    decreases saves.len(),
{
    if saves.len() == 0 {
        0
    } else {
        let front = saves.drop_last();
        let there = if front.len() == 0 {
            finished
        } else {
            front.last().1
        };
        arrivals(finished, front) + if saves.last().1 && !there {
            1int
        } else {
            0
        }
    }
}

/// Every time a book is read to the end counts, however often it was before: as many readings are
/// added as saving came to the end from before it, as far as they can be counted.
pub proof fn every_arrival_counts(b: Shelved, saves: Seq<(u32, bool, i64)>)
    ensures
        progressed_by(b, saves).finished == if saves.len() == 0 {
            b.finished
        } else {
            saves.last().1
        },
        0 <= arrivals(b.finished, saves),
        progressed_by(b, saves).finished_times == if b.finished_times + arrivals(b.finished, saves)
            <= u32::MAX {
            b.finished_times + arrivals(b.finished, saves)
        } else {
            u32::MAX as int
        },
    decreases saves.len(),
{
    if saves.len() > 0 {
        every_arrival_counts(b, saves.drop_last());
    }
}

/// The end, back, and the end again are two readings.
pub proof fn the_end_again_counts_again(b: Shelved, p: u32, q: u32, r: u32, t: i64, u: i64, v: i64)
    requires
        !b.finished,
        b.finished_times + 2 <= u32::MAX,
    ensures
        progressed(progressed(progressed(b, p, true, t), q, false, u), r, true, v).finished_times
            == b.finished_times + 2,
        progressed(progressed(progressed(b, p, true, t), q, false, u), r, true, v).finished_at
            == Some(v),
{
}

/// A book with the genre of an older form of the shelf taken over.
pub open spec fn genre_migrated(b: Shelved) -> Shelved {
    if b.genres.len() == 0 && b.legacy_genre is Some {
        Shelved { genres: seq![b.legacy_genre.unwrap()], legacy_genre: None, ..b }
    } else {
        b
    }
}

/// What rating a book gives.
pub open spec fn rating_outcome(s: Shelf, id: Seq<char>, rating: Option<u8>, now: i64) -> Result<
    (bool, Shelf),
    Failure,
> {
    if rating matches Some(n) && n > 100 {
        Err(Failure::Other("评分取值 0~100（十星制，0.1 星步进）"@))
    } else if !on_shelf(s, id) {
        Ok((false, s))
    } else if rating is Some && !shelved(s, id).finished && shelved(s, id).rating is None {
        Err(Failure::Other("读完一本书后才能评分"@))
    } else {
        Ok(
            (
                true,
                changed(
                    s,
                    id,
                    Shelved {
                        rating,
                        rated_at: if rating is Some {
                            Some(now)
                        } else {
                            None
                        },
                        ..shelved(s, id)
                    },
                ),
            ),
        )
    }
}

// ---------------------------------------------------------------------------
// Categories
// ---------------------------------------------------------------------------

/// The first category with an identifier, from the `i`-th on.
pub open spec fn category_place(cats: Seq<Category>, id: Seq<char>, i: int) -> Option<int>
    decreases cats.len() - i,
{
    if i < 0 || i >= cats.len() {
        None
    } else if cats[i].id == id {
        Some(i)
    } else {
        category_place(cats, id, i + 1)
    }
}

/// The shelf has a category with an identifier.
pub open spec fn has_category(s: Shelf, id: Seq<char>) -> bool {
    category_place(s.categories, id, 0) is Some
}

/// A category has a name.
pub open spec fn is_named(cats: Seq<Category>, name: Seq<char>) -> bool {
    exists|i: int| 0 <= i < cats.len() && (#[trigger] cats[i]).name == name
}

/// The highest place in the order of categories.
pub open spec fn highest(cats: Seq<Category>, at_least: u32) -> u32
    decreases cats.len(),
{
    if cats.len() == 0 {
        at_least
    } else {
        let h = highest(cats.drop_last(), at_least);
        if cats.last().order > h {
            cats.last().order
        } else {
            h
        }
    }
}

/// The category that a new one becomes: behind all others, and behind the books without one.
pub open spec fn new_category(s: Shelf, id: Seq<char>, name: Seq<char>) -> Category {
    Category {
        id,
        name,
        order: (highest(s.categories, s.uncategorized_order) + 1) as u32,
    }
}

/// What adding a category gives.
pub open spec fn category_outcome(s: Shelf, id: Seq<char>, name: Seq<char>) -> Result<
    Category,
    Failure,
> {
    let n = trimmed(name);
    if n.len() == 0 {
        Err(Failure::Other("分类名不能为空"@))
    } else if is_named(s.categories, n) {
        Err(Failure::Other("分类已存在"@))
    } else {
        Ok(new_category(s, id, n))
    }
}

/// The identifier of a category made at a time, in nanoseconds.
pub open spec fn category_id(nanos: u64) -> Seq<char> {
    "cat"@ + padded(written((nanos ^ (nanos >> 24)) as int, 16), '0', 16)
}

/// Writes the identifier of a category made at a time, in nanoseconds.
pub fn make_category_id(nanos: u64) -> (r: String)
    ensures
        r@ == category_id(nanos),
{
    let digits = write_number(nanos ^ (nanos >> 24), 16);
    let full = crate::numbers::pad(&digits, '0', 16);
    let mut out = chars_of("cat");
    push_all(&mut out, &full);
    string_of(&out)
}

/// The categories without those of an identifier.
pub open spec fn categories_without(cats: Seq<Category>, id: Seq<char>) -> Seq<Category>
    decreases cats.len(),
{
    if cats.len() == 0 {
        cats
    } else if cats.last().id == id {
        categories_without(cats.drop_last(), id)
    } else {
        categories_without(cats.drop_last(), id).push(cats.last())
    }
}

/// A book that is in a category no longer is in it.
pub open spec fn out_of(b: Shelved, id: Seq<char>) -> Shelved {
    if b.category_id == Some(id) {
        Shelved { category_id: None, ..b }
    } else {
        b
    }
}

/// The shelf without a category: its books stay, in no category.
pub open spec fn without_category(s: Shelf, id: Seq<char>) -> Shelf {
    if has_category(s, id) {
        Shelf {
            categories: categories_without(s.categories, id),
            books: s.books.map_values(|b: Shelved| out_of(b, id)),
            ..s
        }
    } else {
        s
    }
}

/// Removing a category removes no book, and no book is in it any more.
pub proof fn removing_a_category_keeps_books(s: Shelf, id: Seq<char>)
    ensures
        without_category(s, id).books.len() == s.books.len(),
        forall|i: int|
            0 <= i < s.books.len() ==> (#[trigger] without_category(s, id).books[i]).id
                == s.books[i].id,
        has_category(s, id) ==> forall|i: int|
            0 <= i < s.books.len() ==> (#[trigger] without_category(s, id).books[i]).category_id
                != Some(id),
{
}

impl ShelfData {
    /// The first category with an identifier.
    fn find_category(&self, id: &str) -> (r: Option<usize>)
        ensures
            match r {
                Some(i) => category_place(self.deep_view().categories, id@, 0) == Some(i as int)
                    && i < self.categories@.len(),
                None => category_place(self.deep_view().categories, id@, 0) is None,
            },
    {
        let k = chars_of(id);
        let mut i: usize = 0;
        while i < self.categories.len()
            invariant
                i <= self.categories@.len(),
                k@ == id@,
                category_place(self.deep_view().categories, id@, 0) == category_place(
                    self.deep_view().categories,
                    id@,
                    i as int,
                ),
            decreases self.categories@.len() - i,
        {
            let c = chars_of(self.categories[i].id.as_str());
            assert(self.categories.deep_view()[i as int]
                == self.categories@[i as int].deep_view());
            if same(&c, &k) {
                return Some(i);
            }
            i = i + 1;
        }
        None
    }

    fn has_named(&self, name: &[char]) -> (r: bool)
        ensures
            r == is_named(self.deep_view().categories, name@),
    {
        let ghost cv = self.categories.deep_view();
        let mut i: usize = 0;
        while i < self.categories.len()
            invariant
                i <= self.categories@.len(),
                cv == self.categories.deep_view(),
                forall|k: int| 0 <= k < i ==> (#[trigger] cv[k]).name != name@,
            decreases self.categories@.len() - i,
        {
            let c = chars_of(self.categories[i].name.as_str());
            assert(cv[i as int] == self.categories@[i as int].deep_view());
            if same(&c, name) {
                return true;
            }
            i = i + 1;
        }
        false
    }

    fn highest_order(&self) -> (r: u32)
        ensures
            r == highest(self.deep_view().categories, self.uncategorized_order),
    {
        let ghost cv = self.categories.deep_view();
        let mut h: u32 = self.uncategorized_order;
        let mut i: usize = 0;
        assert(cv.take(0) =~= Seq::empty());
        while i < self.categories.len()
            invariant
                i <= self.categories@.len(),
                cv == self.categories.deep_view(),
                h == highest(cv.take(i as int), self.uncategorized_order),
            decreases self.categories@.len() - i,
        {
            assert(cv.take(i + 1).drop_last() =~= cv.take(i as int));
            assert(cv[i as int] == self.categories@[i as int].deep_view());
            if self.categories[i].order > h {
                h = self.categories[i].order;
            }
            i = i + 1;
        }
        assert(cv.take(i as int) =~= cv);
        h
    }

    /// Whether a new category can be put behind all others.
    pub fn can_add_category(&self) -> (r: bool)
        ensures
            r == (highest(self.deep_view().categories, self.uncategorized_order) < u32::MAX),
    {
        self.highest_order() < u32::MAX
    }

    /// Adds a category under an identifier. A name that is empty or taken is an error.
    pub fn add_category(&mut self, id: &str, name: &str) -> (r: AppResult<ShelfCategory>)
        requires
            highest(old(self).deep_view().categories, old(self).uncategorized_order) < u32::MAX
                || category_outcome(old(self).deep_view(), id@, name@) is Err,
        ensures
            match r {
                Ok(c) => category_outcome(old(self).deep_view(), id@, name@) == Ok::<
                    Category,
                    Failure,
                >(c.deep_view()) && final(self).deep_view() == (Shelf {
                    categories: old(self).deep_view().categories.push(c.deep_view()),
                    ..old(self).deep_view()
                }),
                Err(e) => category_outcome(old(self).deep_view(), id@, name@) == Err::<
                    Category,
                    Failure,
                >(e@) && final(self).deep_view() == old(self).deep_view(),
            },
    {
        let cs = chars_of(name);
        let n = trim(&cs);
        if n.len() == 0 {
            return Err(AppError::other("分类名不能为空"));
        }
        if self.has_named(n) {
            return Err(AppError::other("分类已存在"));
        }
        let order = self.highest_order() + 1;
        let cat = ShelfCategory { id: id.to_owned(), name: string_of(n), order };
        let copy = cat.clone();
        let ghost before = self.categories;
        self.categories.push(cat);
        proof {
            deep_push(before, cat, self.categories);
        }
        Ok(copy)
    }

    /// Renames a category; an empty name is an error. Says whether there is such a category.
    pub fn rename_category(&mut self, id: &str, name: &str) -> (r: AppResult<bool>)
        ensures
            match r {
                Ok(found) => trimmed(name@).len() > 0 && found == has_category(
                    old(self).deep_view(),
                    id@,
                ) && final(self).deep_view() == match category_place(
                    old(self).deep_view().categories,
                    id@,
                    0,
                ) {
                    Some(i) => Shelf {
                        categories: old(self).deep_view().categories.update(
                            i,
                            Category {
                                name: trimmed(name@),
                                ..old(self).deep_view().categories[i]
                            },
                        ),
                        ..old(self).deep_view()
                    },
                    None => old(self).deep_view(),
                },
                Err(e) => trimmed(name@).len() == 0 && e@ == Failure::Other("分类名不能为空"@)
                    && final(self).deep_view() == old(self).deep_view(),
            },
    {
        if is_blank(name) {
            return Err(AppError::other("分类名不能为空"));
        }
        match self.find_category(id) {
            Some(i) => {
                let mut c = self.categories[i].clone();
                c.name = trimmed_text(name);
                let ghost before = self.categories;
                self.categories.set(i, c);
                proof {
                    deep_update(before, i as int, c, self.categories);
                }
                Ok(true)
            },
            None => Ok(false),
        }
    }

    /// Removes a category; its books stay on the shelf, in no category. Says whether there was
    /// such a category.
    pub fn remove_category(&mut self, id: &str) -> (r: bool)
        ensures
            r == has_category(old(self).deep_view(), id@),
            final(self).deep_view() == without_category(old(self).deep_view(), id@),
    {
        if self.find_category(id).is_none() {
            return false;
        }
        let ghost before = self.deep_view();
        let k = chars_of(id);
        let mut cats: Vec<ShelfCategory> = Vec::new();
        std::mem::swap(&mut cats, &mut self.categories);
        let ghost all = cats@;
        let mut out: Vec<ShelfCategory> = Vec::new();
        proof {
            deep_empty(out);
            deep_seq_of(cats);
        }
        for c in it: cats
            invariant
                k@ == id@,
                it.seq() == all,
                deep_seq(all) == before.categories,
                out.deep_view() == categories_without(
                    deep_seq(all.take(it.index() as int)),
                    id@,
                ),
        {
            proof {
                deep_seq_step(all, it.index() as int);
            }
            let t = chars_of(c.id.as_str());
            if !same(&t, &k) {
                let ghost had = out;
                out.push(c);
                proof {
                    deep_push(had, c, out);
                }
            }
        }
        self.categories = out;
        let ghost want = before.books.map_values(|b: Shelved| out_of(b, id@));
        let mut i: usize = 0;
        while i < self.books.len()
            invariant
                i <= self.books@.len(),
                k@ == id@,
                self.books@.len() == before.books.len(),
                want == before.books.map_values(|b: Shelved| out_of(b, id@)),
                self.categories.deep_view() == categories_without(before.categories, id@),
                self.uncategorized_order == before.uncategorized_order,
                forall|m: int|
                    #![trigger self.books.deep_view()[m]]
                    0 <= m < before.books.len() ==> self.books.deep_view()[m] == if m < i {
                        want[m]
                    } else {
                        before.books[m]
                    },
            decreases self.books@.len() - i,
        {
            assert(self.books.deep_view()[i as int] == before.books[i as int]);
            let mut b = self.books[i].clone();
            let inside = match &b.category_id {
                Some(c) => {
                    let t = chars_of(c.as_str());
                    same(&t, &k)
                },
                None => false,
            };
            if inside {
                b.category_id = None;
            }
            assert(b.deep_view() =~= want[i as int]);
            let ghost held = self.books.deep_view();
            self.set_book(i, b);
            assert(self.books.deep_view() == held.update(i as int, b.deep_view()));
            i = i + 1;
        }
        assert(self.books.deep_view() =~= want);
        true
    }
}

// ---------------------------------------------------------------------------
// The order of categories
// ---------------------------------------------------------------------------

/// The first place of a text in a list, from the `i`-th on.
pub open spec fn text_place(list: Seq<Seq<char>>, t: Seq<char>, i: int) -> Option<int>
    decreases list.len() - i,
{
    if i < 0 || i >= list.len() {
        None
    } else if list[i] == t {
        Some(i)
    } else {
        text_place(list, t, i + 1)
    }
}

/// Category `j`, which is not listed, comes before category `i` in the order so far; those in
/// the same place in the order in which they are held.
pub open spec fn comes_before(cats: Seq<Category>, ids: Seq<Seq<char>>, j: int, i: int) -> bool {
    text_place(ids, cats[j].id, 0) is None && (cats[j].order < cats[i].order || (cats[j].order
        == cats[i].order && j < i))
}

/// How many of the first `n` categories that are not listed come before category `i`.
pub open spec fn rank_of(cats: Seq<Category>, ids: Seq<Seq<char>>, i: int, n: int) -> int
    decreases n,
{
    if n <= 0 {
        0
    } else {
        rank_of(cats, ids, i, n - 1) + if comes_before(cats, ids, n - 1, i) {
            1int
        } else {
            0
        }
    }
}

/// The new place of a category: that of the list, counted from one; behind the list, in the
/// order so far, for one that is not listed.
pub open spec fn new_order(cats: Seq<Category>, ids: Seq<Seq<char>>, i: int) -> int {
    match text_place(ids, cats[i].id, 0) {
        Some(p) => p + 1,
        None => ids.len() + rank_of(cats, ids, i, cats.len() as int) + 1,
    }
}

/// The shelf with its categories, and the books without one, in the order of a list.
pub open spec fn reordered(s: Shelf, ids: Seq<Seq<char>>) -> Shelf {
    Shelf {
        categories: Seq::new(
            s.categories.len(),
            |i: int|
                Category {
                    order: new_order(s.categories, ids, i) as u32,
                    ..s.categories[i]
                },
        ),
        uncategorized_order: match text_place(ids, UNCATEGORIZED_ID@, 0) {
            Some(p) => (p + 1) as u32,
            None => s.uncategorized_order,
        },
        ..s
    }
}

/// A text is found where it stands.
pub proof fn text_place_first(list: Seq<Seq<char>>, t: Seq<char>, i: int)
    requires
        0 <= i,
    ensures
        match text_place(list, t, i) {
            Some(k) => i <= k < list.len() && list[k] == t,
            None => true,
        },
    decreases list.len() - i,
{
    if i < list.len() && list[i] != t {
        text_place_first(list, t, i + 1);
    }
}

/// A rank is no more than what is ranked.
pub proof fn rank_bounds(cats: Seq<Category>, ids: Seq<Seq<char>>, i: int, n: int)
    requires
        0 <= n,
    ensures
        0 <= rank_of(cats, ids, i, n) <= n,
    decreases n,
{
    if n > 0 {
        rank_bounds(cats, ids, i, n - 1);
    }
}

/// What comes before has the lower rank.
pub proof fn rank_grows(cats: Seq<Category>, ids: Seq<Seq<char>>, i: int, j: int, n: int)
    requires
        0 <= i < cats.len(),
        0 <= j < cats.len(),
        0 <= n <= cats.len(),
        comes_before(cats, ids, i, j),
    ensures
        rank_of(cats, ids, i, n) + (if i < n {
            1int
        } else {
            0
        }) <= rank_of(cats, ids, j, n),
    decreases n,
{
    if n > 0 {
        rank_grows(cats, ids, i, j, n - 1);
        assert(comes_before(cats, ids, n - 1, i) ==> comes_before(cats, ids, n - 1, j));
        assert(!comes_before(cats, ids, i, i));
    }
}

/// After reordering no two categories have the same place.
pub proof fn reordered_places_are_distinct(s: Shelf, ids: Seq<Seq<char>>, i: int, j: int)
    requires
        0 <= i < j < s.categories.len(),
        s.categories[i].id != s.categories[j].id,
        ids.len() + s.categories.len() < u32::MAX,
    ensures
        reordered(s, ids).categories[i].order != reordered(s, ids).categories[j].order,
{
    let cats = s.categories;
    let n = cats.len() as int;
    text_place_first(ids, cats[i].id, 0);
    text_place_first(ids, cats[j].id, 0);
    rank_bounds(cats, ids, i, n);
    rank_bounds(cats, ids, j, n);
    if text_place(ids, cats[i].id, 0) is None && text_place(ids, cats[j].id, 0) is None {
        if comes_before(cats, ids, i, j) {
            rank_grows(cats, ids, i, j, n);
        } else {
            assert(comes_before(cats, ids, j, i));
            rank_grows(cats, ids, j, i, n);
        }
    }
}

fn find_text(list: &Vec<String>, t: &[char]) -> (r: Option<usize>)
    ensures
        match r {
            Some(i) => text_place(list.deep_view(), t@, 0) == Some(i as int) && i < list@.len(),
            None => text_place(list.deep_view(), t@, 0) is None,
        },
{
    let mut i: usize = 0;
    while i < list.len()
        invariant
            i <= list@.len(),
            text_place(list.deep_view(), t@, 0) == text_place(list.deep_view(), t@, i as int),
        decreases list@.len() - i,
    {
        let c = chars_of(list[i].as_str());
        assert(list.deep_view()[i as int] == c@);
        if same(&c, t) {
            return Some(i);
        }
        i = i + 1;
    }
    None
}

impl ShelfData {
    /// Where each category stands in a list.
    fn places_in(&self, ids: &Vec<String>) -> (r: Vec<Option<usize>>)
        ensures
            r@.len() == self.categories@.len(),
            forall|i: int|
                0 <= i < r@.len() ==> match #[trigger] r@[i] {
                    Some(p) => text_place(
                        ids.deep_view(),
                        self.deep_view().categories[i].id,
                        0,
                    ) == Some(p as int) && p < ids@.len(),
                    None => text_place(
                        ids.deep_view(),
                        self.deep_view().categories[i].id,
                        0,
                    ) is None,
                },
    {
        let mut out: Vec<Option<usize>> = Vec::new();
        let mut i: usize = 0;
        while i < self.categories.len()
            invariant
                i <= self.categories@.len(),
                out@.len() == i,
                forall|k: int|
                    0 <= k < i ==> match #[trigger] out@[k] {
                        Some(p) => text_place(
                            ids.deep_view(),
                            self.deep_view().categories[k].id,
                            0,
                        ) == Some(p as int) && p < ids@.len(),
                        None => text_place(
                            ids.deep_view(),
                            self.deep_view().categories[k].id,
                            0,
                        ) is None,
                    },
            decreases self.categories@.len() - i,
        {
            let c = chars_of(self.categories[i].id.as_str());
            assert(self.deep_view().categories[i as int].id == c@);
            out.push(find_text(ids, &c));
            i = i + 1;
        }
        out
    }

    /// The new place of a category, given where each stands in the list.
    fn place_for(&self, ids: &Vec<String>, places: &Vec<Option<usize>>, i: usize) -> (r: u32)
        requires
            i < self.categories@.len(),
            places@.len() == self.categories@.len(),
            ids@.len() + self.categories@.len() < u32::MAX,
            forall|k: int|
                0 <= k < places@.len() ==> match #[trigger] places@[k] {
                    Some(p) => text_place(
                        ids.deep_view(),
                        self.deep_view().categories[k].id,
                        0,
                    ) == Some(p as int) && p < ids@.len(),
                    None => text_place(
                        ids.deep_view(),
                        self.deep_view().categories[k].id,
                        0,
                    ) is None,
                },
        ensures
            r == new_order(self.deep_view().categories, ids.deep_view(), i as int),
    {
        let ghost cats = self.deep_view().categories;
        let ghost iv = ids.deep_view();
        assert(cats[i as int] == self.categories@[i as int].deep_view());
        match places[i] {
            Some(p) => p as u32 + 1,
            None => {
                let mine = self.categories[i].order;
                let mut rank: u32 = 0;
                let mut j: usize = 0;
                while j < self.categories.len()
                    invariant
                        j <= self.categories@.len(),
                        i < self.categories@.len(),
                        cats == self.deep_view().categories,
                        iv == ids.deep_view(),
                        mine == cats[i as int].order,
                        places@.len() == self.categories@.len(),
                        ids@.len() + self.categories@.len() < u32::MAX,
                        rank <= j,
                        rank == rank_of(cats, iv, i as int, j as int),
                        forall|k: int|
                            0 <= k < places@.len() ==> match #[trigger] places@[k] {
                                Some(p) => text_place(iv, cats[k].id, 0) == Some(p as int) && p
                                    < ids@.len(),
                                None => text_place(iv, cats[k].id, 0) is None,
                            },
                    decreases self.categories@.len() - j,
                {
                    assert(cats[j as int] == self.categories@[j as int].deep_view());
                    let theirs = self.categories[j].order;
                    if places[j].is_none() && (theirs < mine || (theirs == mine && j < i)) {
                        rank = rank + 1;
                    }
                    j = j + 1;
                }
                ids.len() as u32 + rank + 1
            },
        }
    }

    /// Puts the categories, and the books without one, in the order of a list. Says whether that
    /// changed anything.
    pub fn reorder_category(&mut self, ordered_ids: &Vec<String>) -> (r: bool)
        requires
            ordered_ids@.len() + old(self).categories@.len() < u32::MAX,
        ensures
            final(self).deep_view() == reordered(old(self).deep_view(), ordered_ids.deep_view()),
            r == (final(self).deep_view() != old(self).deep_view()),
    {
        let ghost before = self.deep_view();
        let ghost iv = ordered_ids.deep_view();
        let ghost want = reordered(before, iv);
        let places = self.places_in(ordered_ids);
        let mut orders: Vec<u32> = Vec::new();
        let mut changed = false;
        let mut i: usize = 0;
        while i < self.categories.len()
            invariant
                i <= self.categories@.len(),
                before == self.deep_view(),
                iv == ordered_ids.deep_view(),
                places@.len() == self.categories@.len(),
                ordered_ids@.len() + self.categories@.len() < u32::MAX,
                forall|k: int|
                    0 <= k < places@.len() ==> match #[trigger] places@[k] {
                        Some(p) => text_place(iv, before.categories[k].id, 0) == Some(p as int)
                            && p < ordered_ids@.len(),
                        None => text_place(iv, before.categories[k].id, 0) is None,
                    },
                orders@.len() == i,
                forall|k: int|
                    0 <= k < i ==> #[trigger] orders@[k] == new_order(before.categories, iv, k),
                changed == exists|k: int|
                    0 <= k < i && #[trigger] orders@[k] != before.categories[k].order,
            decreases self.categories@.len() - i,
        {
            let o = self.place_for(ordered_ids, &places, i);
            assert(before.categories[i as int] == self.categories@[i as int].deep_view());
            let ghost held = orders@;
            orders.push(o);
            proof {
                assert(orders@[i as int] == o);
                assert forall|k: int| 0 <= k < i implies #[trigger] orders@[k] == held[k] by {}
                if changed {
                    let k = choose|k: int|
                        0 <= k < i && #[trigger] held[k] != before.categories[k].order;
                    assert(orders@[k] != before.categories[k].order);
                }
            }
            if o != self.categories[i].order {
                changed = true;
            }
            i = i + 1;
        }
        let ghost cats_differ = changed;
        let mut i: usize = 0;
        while i < self.categories.len()
            invariant
                i <= self.categories@.len(),
                self.categories@.len() == before.categories.len(),
                orders@.len() == before.categories.len(),
                want == reordered(before, iv),
                self.books.deep_view() == before.books,
                self.uncategorized_order == before.uncategorized_order,
                forall|k: int|
                    0 <= k < orders@.len() ==> #[trigger] orders@[k] == new_order(
                        before.categories,
                        iv,
                        k,
                    ),
                forall|k: int|
                    #![trigger self.categories.deep_view()[k]]
                    0 <= k < before.categories.len() ==> self.categories.deep_view()[k] == if k
                        < i {
                        want.categories[k]
                    } else {
                        before.categories[k]
                    },
            decreases self.categories@.len() - i,
        {
            assert(self.categories.deep_view()[i as int] == before.categories[i as int]);
            let mut c = self.categories[i].clone();
            c.order = orders[i];
            assert(c.deep_view() =~= want.categories[i as int]);
            let ghost held = self.categories;
            self.categories.set(i, c);
            proof {
                deep_update(held, i as int, c, self.categories);
            }
            i = i + 1;
        }
        assert(self.categories.deep_view() =~= want.categories);
        let word = chars_of(UNCATEGORIZED_ID);
        if let Some(p) = find_text(ordered_ids, &word) {
            let o = p as u32 + 1;
            if self.uncategorized_order != o {
                self.uncategorized_order = o;
                changed = true;
            }
        }
        proof {
            assert(self.deep_view() =~= want);
            if cats_differ {
                let k = choose|k: int|
                    0 <= k < orders@.len() && #[trigger] orders@[k] != before.categories[k].order;
                assert(want.categories[k].order != before.categories[k].order);
            } else {
                assert forall|k: int| 0 <= k < before.categories.len() implies want.categories[k]
                    == before.categories[k] by {
                    assert(orders@[k] == before.categories[k].order);
                }
                assert(want.categories =~= before.categories);
                if !changed {
                    assert(want =~= before);
                }
            }
        }
        changed
    }
}

/// The name of a format as it is shown.
pub fn format_display_name(format: BookFormat) -> (r: &'static str)
    ensures
        r@ == match format {
            BookFormat::Epub => "EPUB"@,
            BookFormat::Mobi => "MOBI"@,
            BookFormat::Azw3 => "AZW3"@,
            BookFormat::Txt => "TXT"@,
            BookFormat::Markdown => "MD"@,
            BookFormat::Fb2 => "FB2"@,
            BookFormat::Cbz => "CBZ"@,
            BookFormat::Pdf => "PDF"@,
        },
{
    match format {
        BookFormat::Epub => "EPUB",
        BookFormat::Mobi => "MOBI",
        BookFormat::Azw3 => "AZW3",
        BookFormat::Txt => "TXT",
        BookFormat::Markdown => "MD",
        BookFormat::Fb2 => "FB2",
        BookFormat::Cbz => "CBZ",
        BookFormat::Pdf => "PDF",
    }
}

} // verus!
