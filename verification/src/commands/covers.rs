//! The cover of a book on the shelf: which one is shown, and which ones can be chosen.
use vstd::prelude::*;
use crate::commands::shelf::{on_shelf, shelved};
use crate::commands::summary::find_book;
use crate::error::{joined, with_number, AppError, AppResult, Failure};
use crate::model::{BookFormat, ShelfBook, ShelfData};
use crate::numbers::decimal;
use crate::parser::covers::{cover_position, same_bytes, step_index, stepped};
use crate::routes::{cover_like, is_cover_image};
use crate::text::same_str;


verus! {

/// How large the file of a cover may be.
pub const MAX_COVER_SIZE: usize = 20971520;

/// How many books the pictures are kept of.
pub const CANDIDATE_CACHE_CAP: usize = 32;

/// A cover that was gone to: its place, counted from one, and how many there are.
#[derive(Debug, Clone, Copy, PartialEq, Eq, Structural)]
pub struct CoverChoice {
    pub index: usize,
    pub total: usize,
}

/// Where to go from a cover.
#[derive(Debug, Clone, Copy, PartialEq, Eq, Structural)]
pub enum CycleDirection {
    Next,
    Prev,
}

impl Default for CycleDirection {
    fn default() -> (r: Self)
        ensures
            r == CycleDirection::Next,
    {
        CycleDirection::Next
    }
}

/// What can be chosen as the cover of a book, and what is.
#[derive(Debug, Clone)]
pub struct CoverOptions {
    pub book_id: String,
    pub title: String,
    pub format: BookFormat,
    pub has_default: bool,
    pub candidate_count: usize,
    pub selection: String,
    pub has_custom: bool,
    pub custom_is_builtin: bool,
}

/// `CoverOptions` over sequences.
#[verifier::ext_equal]
pub struct Options {
    pub book_id: Seq<char>,
    pub title: Seq<char>,
    pub format: BookFormat,
    pub has_default: bool,
    pub candidate_count: int,
    pub selection: Seq<char>,
    pub has_custom: bool,
    pub custom_is_builtin: bool,
}

impl DeepView for CoverOptions {
    type V = Options;

    open spec fn deep_view(&self) -> Options {
        Options {
            book_id: self.book_id@,
            title: self.title@,
            format: self.format,
            has_default: self.has_default,
            candidate_count: self.candidate_count as int,
            selection: self.selection@,
            has_custom: self.has_custom,
            custom_is_builtin: self.custom_is_builtin,
        }
    }
}

/// Bytes, where there are some.
pub open spec fn content(b: Option<Vec<u8>>) -> Option<Seq<u8>> {
    match b {
        Some(b) => Some(b@),
        None => None,
    }
}

/// The book on the shelf with an identifier.
pub fn book_on_shelf<'a>(shelf: &'a ShelfData, book_id: &str) -> (r: AppResult<&'a ShelfBook>)
    ensures
        match r {
            Ok(b) => on_shelf(shelf.deep_view(), book_id@) && b.deep_view() == shelved(
                shelf.deep_view(),
                book_id@,
            ),
            Err(e) => !on_shelf(shelf.deep_view(), book_id@) && e@ == Failure::Other(
                "书籍不在书架中"@,
            ),
        },
{
    match find_book(&shelf.books, book_id) {
        Some(i) => {
            assert(shelf.books.deep_view()[i as int] == shelf.books@[i as int].deep_view());
            Ok(&shelf.books[i])
        },
        None => Err(AppError::other("书籍不在书架中")),
    }
}

// ---------------------------------------------------------------------------
// The cover that is shown
// ---------------------------------------------------------------------------

/// The cover that is shown: none where that was chosen, else the chosen one, else the one found.
pub open spec fn shown_cover(
    none_on: bool,
    custom: Option<Seq<u8>>,
    default: Option<Seq<u8>>,
) -> Option<Seq<u8>> {
    if none_on {
        None
    } else if custom is Some {
        custom
    } else {
        default
    }
}

/// The cover that is shown.
pub fn load_cover(
    book_id: &str,
    none_on: bool,
    custom: Option<Vec<u8>>,
    default: Option<Vec<u8>>,
) -> (r: AppResult<Vec<u8>>)
    ensures
        match r {
            Ok(b) => shown_cover(none_on, content(custom), content(default)) == Some(b@),
            Err(e) => shown_cover(none_on, content(custom), content(default)) is None && e@
                == Failure::ResourceNotFound("封面: "@ + book_id@),
        },
{
    if none_on {
        return Err(AppError::ResourceNotFound(joined("封面: ", book_id)));
    }
    match custom {
        Some(b) => Ok(b),
        None => match default {
            Some(b) => Ok(b),
            None => Err(AppError::ResourceNotFound(joined("封面: ", book_id))),
        },
    }
}

/// Whether a cover that was found is to be written over the one that is kept.
pub fn cover_differs(kept: &Option<Vec<u8>>, found: &[u8]) -> (r: bool)
    ensures
        r == (content(*kept) != Some(found@)),
{
    match kept {
        Some(b) => !same_bytes(b.as_slice(), found),
        None => true,
    }
}

/// Whether the cover of a book is to be looked for again: once for each book of these formats.
pub fn cover_is_outdated(format: BookFormat, looked_again: bool) -> (r: bool)
    ensures
        r == ((format == BookFormat::Mobi || format == BookFormat::Azw3) && !looked_again),
{
    (format == BookFormat::Mobi || format == BookFormat::Azw3) && !looked_again
}

// ---------------------------------------------------------------------------
// Choosing
// ---------------------------------------------------------------------------

/// Whether the content of a file can be a cover.
pub fn check_cover_file(bytes: &[u8]) -> (r: AppResult<()>)
    ensures
        match r {
            Ok(_) => bytes@.len() <= MAX_COVER_SIZE && cover_like(bytes@),
            Err(e) => !(bytes@.len() <= MAX_COVER_SIZE && cover_like(bytes@)) && e@
                == Failure::Other("请选择 20 MB 以内的 JPG、PNG、GIF 或 WebP 图片"@),
        },
{
    if bytes.len() > MAX_COVER_SIZE || !is_cover_image(bytes) {
        return Err(
            AppError::other("请选择 20 MB 以内的 JPG、PNG、GIF 或 WebP 图片"),
        );
    }
    Ok(())
}

/// One of the pictures of a book.
pub fn cover_candidate<'a>(candidates: &'a Vec<Vec<u8>>, index: usize) -> (r: AppResult<
    &'a Vec<u8>,
>)
    ensures
        match r {
            Ok(b) => index < candidates@.len() && *b == candidates@[index as int],
            Err(e) => index >= candidates@.len() && e@ == Failure::Other("封面序号越界"@),
        },
{
    if index < candidates.len() {
        Ok(&candidates[index])
    } else {
        Err(AppError::other("封面序号越界"))
    }
}

/// The place of the picture that follows the one shown, or that comes before it. What is said of
/// it counts from one.
pub fn cycle_book_cover(
    candidates: &Vec<Vec<u8>>,
    current: Option<&[u8]>,
    direction: Option<CycleDirection>,
) -> (r: AppResult<(usize, CoverChoice)>)
    ensures
        match r {
            Ok((i, c)) => i < candidates@.len() && i == stepped(
                candidates.deep_view(),
                match current {
                    Some(b) => Some(b@),
                    None => None,
                },
                direction != Some(CycleDirection::Prev),
            ) && c == (CoverChoice { index: (i + 1) as usize, total: candidates.len() }),
            Err(e) => candidates@.len() == 0 && e@ == Failure::Other(
                "本书没有可切换的内置封面图片"@,
            ),
        },
{
    let forward = match direction {
        Some(CycleDirection::Prev) => false,
        _ => true,
    };
    let n = candidates.len();
    let list = candidates.as_slice();
    match step_index(list, current, forward) {
        Ok(i) => {
            assert(list.deep_view() =~= candidates.deep_view());
            Ok((i, CoverChoice { index: i + 1, total: n }))
        },
        Err(e) => Err(e),
    }
}

fn place_of_cover(candidates: &Vec<Vec<u8>>, bytes: &[u8]) -> (r: Option<usize>)
    ensures
        match r {
            Some(i) => i < candidates@.len() && cover_position(
                candidates.deep_view(),
                bytes@,
                0,
            ) == Some(i as int),
            None => cover_position(candidates.deep_view(), bytes@, 0) is None,
        },
{
    let mut i: usize = 0;
    while i < candidates.len()
        invariant
            i <= candidates@.len(),
            cover_position(candidates.deep_view(), bytes@, 0) == cover_position(
                candidates.deep_view(),
                bytes@,
                i as int,
            ),
        decreases candidates@.len() - i,
    {
        assert(candidates.deep_view()[i as int] =~= candidates@[i as int]@);
        if same_bytes(candidates[i].as_slice(), bytes) {
            return Some(i);
        }
        i = i + 1;
    }
    None
}

/// The name of what is chosen: no cover, the one found, a picture of the book, or another one.
pub open spec fn selected(
    candidates: Seq<Seq<u8>>,
    has_default: bool,
    none_on: bool,
    custom: Option<Seq<u8>>,
) -> Seq<char> {
    if none_on {
        "none"@
    } else {
        match custom {
            None => if has_default {
                "default"@
            } else {
                "none"@
            },
            Some(b) => match cover_position(candidates, b, 0) {
                Some(i) => "candidate:"@ + decimal(i),
                None => "custom"@,
            },
        }
    }
}

/// What can be chosen as the cover of a book, and what is.
pub fn get_book_cover_options(
    book: &ShelfBook,
    candidates: &Vec<Vec<u8>>,
    has_default: bool,
    none_on: bool,
    custom: &Option<Vec<u8>>,
) -> (r: CoverOptions)
    ensures
        r.deep_view() == (Options {
            book_id: book.id@,
            title: book.title@,
            format: book.format,
            has_default,
            candidate_count: candidates@.len() as int,
            selection: selected(
                candidates.deep_view(),
                has_default,
                none_on,
                content(*custom),
            ),
            has_custom: custom is Some,
            custom_is_builtin: match content(*custom) {
                Some(b) => cover_position(candidates.deep_view(), b, 0) is Some,
                None => false,
            },
        }),
{
    let place = match custom {
        Some(b) => place_of_cover(candidates, b.as_slice()),
        None => None,
    };
    let selection = if none_on {
        "none".to_owned()
    } else if custom.is_none() {
        if has_default {
            "default".to_owned()
        } else {
            "none".to_owned()
        }
    } else {
        match place {
            Some(i) => with_number("candidate:", i as u64),
            None => "custom".to_owned(),
        }
    };
    let r = CoverOptions {
        book_id: book.id.clone(),
        title: book.title.clone(),
        format: book.format,
        has_default,
        candidate_count: candidates.len(),
        selection,
        has_custom: custom.is_some(),
        custom_is_builtin: place.is_some(),
    };
    assert(r.deep_view().selection =~= selected(
        candidates.deep_view(),
        has_default,
        none_on,
        content(*custom),
    ));
    r
}

// ---------------------------------------------------------------------------
// Pictures that are kept
// ---------------------------------------------------------------------------

/// The pictures of books, each with the size and the age of the file they were read from.
pub struct CandidateCache {
    entries: Vec<(String, (u64, i64, Vec<Vec<u8>>))>,
}

/// What is kept: book, size, age, pictures.
pub type KeptPictures = Seq<(Seq<char>, (u64, i64, Seq<Seq<u8>>))>;

/// The place of a book, from the `i`-th on.
pub open spec fn pictures_at(list: KeptPictures, id: Seq<char>, i: int) -> Option<int>
    decreases list.len() - i,
{
    if i < 0 || i >= list.len() {
        None
    } else if list[i].0 == id {
        Some(i)
    } else {
        pictures_at(list, id, i + 1)
    }
}

/// The pictures that are kept of a book, where its file is still the same.
pub open spec fn kept_pictures(list: KeptPictures, id: Seq<char>, size: u64, mtime: i64) -> Option<
    Seq<Seq<u8>>,
> {
    match pictures_at(list, id, 0) {
        Some(i) => if list[i].1.0 == size && list[i].1.1 == mtime {
            Some(list[i].1.2)
        } else {
            None
        },
        None => None,
    }
}

/// The list with the pictures of a book put in. Where it is full, all others go.
pub open spec fn with_pictures(
    list: KeptPictures,
    id: Seq<char>,
    size: u64,
    mtime: i64,
    pictures: Seq<Seq<u8>>,
) -> KeptPictures {
    let room = if list.len() >= CANDIDATE_CACHE_CAP {
        Seq::empty()
    } else {
        list
    };
    match pictures_at(room, id, 0) {
        Some(i) => room.update(i, (id, (size, mtime, pictures))),
        None => room.push((id, (size, mtime, pictures))),
    }
}

proof fn pictures_at_is_first(list: KeptPictures, id: Seq<char>, i: int)
    requires
        0 <= i,
    ensures
        match pictures_at(list, id, i) {
            Some(k) => i <= k < list.len() && list[k].0 == id && forall|j: int|
                i <= j < k ==> (#[trigger] list[j]).0 != id,
            None => forall|j: int| i <= j < list.len() ==> (#[trigger] list[j]).0 != id,
        },
    decreases list.len() - i,
{
    if i < list.len() && list[i].0 != id {
        pictures_at_is_first(list, id, i + 1);
    }
}

/// What is kept of a book is what was put in last; where its file has changed since, nothing is.
pub proof fn pictures_are_kept_while_the_file_stays(
    list: KeptPictures,
    id: Seq<char>,
    size: u64,
    mtime: i64,
    pictures: Seq<Seq<u8>>,
    new_size: u64,
    new_mtime: i64,
)
    requires
        list.len() <= CANDIDATE_CACHE_CAP,
    ensures
        kept_pictures(with_pictures(list, id, size, mtime, pictures), id, new_size, new_mtime) == if (
        new_size == size && new_mtime == mtime) {
            Some(pictures)
        } else {
            None
        },
        with_pictures(list, id, size, mtime, pictures).len() <= CANDIDATE_CACHE_CAP,
{
    let out = with_pictures(list, id, size, mtime, pictures);
    let room: KeptPictures = if list.len() >= CANDIDATE_CACHE_CAP {
        Seq::empty()
    } else {
        list
    };
    pictures_at_is_first(room, id, 0);
    pictures_at_is_first(out, id, 0);
    let p = match pictures_at(room, id, 0) {
        Some(i) => i,
        None => room.len() as int,
    };
    assert(out[p] == (id, (size, mtime, pictures)));
    let k = pictures_at(out, id, 0).unwrap();
    if k != p {
        assert(k < p);
        assert(out[k] == room[k]);
    }
}

impl DeepView for CandidateCache {
    type V = KeptPictures;

    closed spec fn deep_view(&self) -> KeptPictures {
        Seq::new(
            self.entries@.len(),
            |i: int|
                (
                    self.entries@[i].0@,
                    (
                        self.entries@[i].1.0,
                        self.entries@[i].1.1,
                        self.entries@[i].1.2.deep_view(),
                    ),
                ),
        )
    }
}

impl CandidateCache {
    /// Nothing is kept.
    pub fn new() -> (r: Self)
        ensures
            r.deep_view() == Seq::<(Seq<char>, (u64, i64, Seq<Seq<u8>>))>::empty(),
    {
        let r = CandidateCache { entries: Vec::new() };
        assert(r.deep_view() =~= Seq::empty());
        r
    }

    fn find(&self, book_id: &str) -> (r: Option<usize>)
        ensures
            match r {
                Some(i) => i < self.entries@.len() && pictures_at(self.deep_view(), book_id@, 0)
                    == Some(i as int),
                None => pictures_at(self.deep_view(), book_id@, 0) is None,
            },
    {
        let mut i: usize = 0;
        while i < self.entries.len()
            invariant
                i <= self.entries@.len(),
                pictures_at(self.deep_view(), book_id@, 0) == pictures_at(
                    self.deep_view(),
                    book_id@,
                    i as int,
                ),
            decreases self.entries@.len() - i,
        {
            if same_str(self.entries[i].0.as_str(), book_id) {
                return Some(i);
            }
            i = i + 1;
        }
        None
    }

    /// The pictures that are kept of a book, where its file is still the same.
    pub fn get(&self, book_id: &str, size: u64, mtime: i64) -> (r: Option<&Vec<Vec<u8>>>)
        ensures
            match r {
                Some(v) => kept_pictures(self.deep_view(), book_id@, size, mtime) == Some(
                    v.deep_view(),
                ),
                None => kept_pictures(self.deep_view(), book_id@, size, mtime) is None,
            },
    {
        match self.find(book_id) {
            Some(i) => {
                let e = &self.entries[i].1;
                if e.0 == size && e.1 == mtime {
                    Some(&e.2)
                } else {
                    None
                }
            },
            None => None,
        }
    }

    /// Keeps the pictures of a book.
    pub fn put(&mut self, book_id: &str, size: u64, mtime: i64, pictures: Vec<Vec<u8>>)
        ensures
            final(self).deep_view() == with_pictures(
                old(self).deep_view(),
                book_id@,
                size,
                mtime,
                pictures.deep_view(),
            ),
    {
        if self.entries.len() >= CANDIDATE_CACHE_CAP {
            self.entries.clear();
            assert(self.deep_view() =~= Seq::empty());
        }
        let ghost room = self.deep_view();
        let item = (book_id.to_owned(), (size, mtime, pictures));
        let ghost seen = (book_id@, (size, mtime, pictures.deep_view()));
        match self.find(book_id) {
            Some(i) => {
                self.entries.set(i, item);
                assert(self.deep_view() =~= room.update(i as int, seen));
            },
            None => {
                self.entries.push(item);
                assert(self.deep_view() =~= room.push(seen));
            },
        }
    }
}

/// No cover is shown where that was chosen; else the one that was chosen, whatever was found; else the
/// one that was found.
pub proof fn what_was_chosen_is_shown(found: Option<Seq<u8>>, chosen: Seq<u8>, none_on: bool)
    ensures
        shown_cover(true, Some(chosen), found) is None,
        shown_cover(true, None, found) is None,
        shown_cover(false, Some(chosen), found) == Some(chosen),
        shown_cover(false, None, found) == found,
{
}

} // verus!
