//! The data that the reader hands to its views.
use vstd::prelude::*;
use crate::text::{chars_of, contains, occurs};
use crate::views::{deep_empty, deep_push};

pub use crate::commands::settings::ReaderSettings;

verus! {

/// The formats of books that are known.
#[derive(Debug, Clone, Copy, PartialEq, Eq, Structural)]
pub enum BookFormat {
    Epub,
    Mobi,
    Azw3,
    Txt,
    Markdown,
    Fb2,
    Cbz,
    Pdf,
}

/// What is known of a book once it is open.
#[derive(Debug, Clone)]
pub struct BookMeta {
    pub id: String,
    pub title: String,
    pub author: Option<String>,
    pub publisher: Option<String>,
    pub language: Option<String>,
    pub format: BookFormat,
    pub file_size: u64,
    pub file_path: String,
    pub total_chapters: u32,
    pub cover_resource: Option<String>,
}

/// `BookMeta` over character sequences.
#[verifier::ext_equal]
pub struct Meta {
    pub id: Seq<char>,
    pub title: Seq<char>,
    pub author: Option<Seq<char>>,
    pub publisher: Option<Seq<char>>,
    pub language: Option<Seq<char>>,
    pub format: BookFormat,
    pub file_size: u64,
    pub file_path: Seq<char>,
    pub total_chapters: u32,
    pub cover_resource: Option<Seq<char>>,
}

impl DeepView for BookMeta {
    type V = Meta;

    open spec fn deep_view(&self) -> Meta {
        Meta {
            id: self.id@,
            title: self.title@,
            author: self.author.deep_view(),
            publisher: self.publisher.deep_view(),
            language: self.language.deep_view(),
            format: self.format,
            file_size: self.file_size,
            file_path: self.file_path@,
            total_chapters: self.total_chapters,
            cover_resource: self.cover_resource.deep_view(),
        }
    }
}

/// One node of a table of contents.
#[derive(Debug)]
pub struct TocItem {
    pub id: String,
    pub label: String,
    pub chapter_index: u32,
    pub anchor: Option<String>,
    pub children: Vec<TocItem>,
}

/// `TocItem` over character sequences.
#[verifier::ext_equal]
pub struct Toc {
    pub id: Seq<char>,
    pub label: Seq<char>,
    pub chapter_index: u32,
    pub anchor: Option<Seq<char>>,
    pub children: Seq<Toc>,
}

impl DeepView for TocItem {
    type V = Toc;

    open spec fn deep_view(&self) -> Toc
        decreases self,
    {
        let kids = self.children@;
        Toc {
            id: self.id@,
            label: self.label@,
            chapter_index: self.chapter_index,
            anchor: self.anchor.deep_view(),
            children: Seq::new(
                kids.len(),
                |i: int|
                    if 0 <= i < kids.len() {
                        kids[i].deep_view()
                    } else {
                        arbitrary()
                    },
            ),
        }
    }
}

/// The children of a node's view are the views of its children.
pub proof fn toc_children_view(t: TocItem)
    ensures
        t.deep_view().children.len() == t.children@.len(),
        forall|i: int| #![trigger t.deep_view().children[i]] #![trigger t.children@[i]]
            0 <= i < t.children@.len() ==> t.deep_view().children[i]
                == t.children@[i].deep_view(),
        t.deep_view().children == t.children.deep_view(),
{
    reveal_with_fuel(<TocItem as DeepView>::deep_view, 2);
    assert forall|i: int| 0 <= i < t.children@.len() implies t.deep_view().children[i]
        == #[trigger] t.children@[i].deep_view() by {
    }
    assert(t.deep_view().children =~= t.children.deep_view());
}

impl Clone for TocItem {
    fn clone(&self) -> (r: Self)
        ensures
            r.deep_view() == self.deep_view(),
        decreases self,
    {
        let mut children: Vec<TocItem> = Vec::new();
        let mut i: usize = 0;
        while i < self.children.len()
            invariant
                i <= self.children.len(),
                children.len() == i,
                forall|k: int| #![trigger children@[k]]
                    0 <= k < i ==> children@[k].deep_view() == self.children@[k].deep_view(),
            decreases self.children.len() - i,
        {
            let c = self.children[i].clone();
            children.push(c);
            i = i + 1;
        }
        let anchor: Option<String> = match &self.anchor {
            Some(a) => Some(a.clone()),
            None => None,
        };
        let r = TocItem {
            id: self.id.clone(),
            label: self.label.clone(),
            chapter_index: self.chapter_index,
            anchor,
            children,
        };
        proof {
            toc_children_view(r);
            toc_children_view(*self);
        }
        assert(r.deep_view().children =~= self.deep_view().children);
        r
    }
}

/// How a chapter is shown.
#[derive(Debug, Clone, Copy, PartialEq, Eq, Structural)]
pub enum ChapterKind {
    Html,
    Text,
    Images,
}

/// One chapter.
#[derive(Debug, Clone)]
pub struct ChapterContent {
    pub book_id: String,
    pub chapter_index: u32,
    pub title: String,
    pub kind: ChapterKind,
    pub html: Option<String>,
    pub text: Option<String>,
    pub image_refs: Option<Vec<String>>,
}

/// `ChapterContent` over character sequences.
#[verifier::ext_equal]
pub struct Chapter {
    pub book_id: Seq<char>,
    pub chapter_index: u32,
    pub title: Seq<char>,
    pub kind: ChapterKind,
    pub html: Option<Seq<char>>,
    pub text: Option<Seq<char>>,
    pub image_refs: Option<Seq<Seq<char>>>,
}

impl DeepView for ChapterContent {
    type V = Chapter;

    open spec fn deep_view(&self) -> Chapter {
        Chapter {
            book_id: self.book_id@,
            chapter_index: self.chapter_index,
            title: self.title@,
            kind: self.kind,
            html: self.html.deep_view(),
            text: self.text.deep_view(),
            image_refs: self.image_refs.deep_view(),
        }
    }
}

// ---------------------------------------------------------------------------
// Settings
// ---------------------------------------------------------------------------

#[derive(Debug, Clone, Copy, PartialEq, Eq, Structural)]
pub enum PageTurnEffect {
    Natural,
    Standard,
}

/// How the shelf is sorted.
#[derive(Debug, Clone, Copy, PartialEq, Eq, Structural)]
pub enum ShelfSortMode {
    Recent,
    Added,
    Title,
    Progress,
}

#[derive(Debug, Clone, Copy, PartialEq, Eq, Structural)]
pub enum Theme {
    Light,
    Dark,
    Sepia,
    Green,
}

#[derive(Debug, Clone, Copy, PartialEq, Eq, Structural)]
pub enum ReadingMode {
    Paginated,
    Scroll,
}

/// What opening a book gives.
#[derive(Debug)]
pub struct OpenBookResult {
    pub book: BookMeta,
    pub toc: Vec<TocItem>,
}

// ---------------------------------------------------------------------------
// The shelf
// ---------------------------------------------------------------------------

/// A category of the shelf and its place in the order of categories.
#[derive(Debug)]
pub struct ShelfCategory {
    pub id: String,
    pub name: String,
    pub order: u32,
}

/// `ShelfCategory` over character sequences.
#[verifier::ext_equal]
pub struct Category {
    pub id: Seq<char>,
    pub name: Seq<char>,
    pub order: u32,
}

impl DeepView for ShelfCategory {
    type V = Category;

    open spec fn deep_view(&self) -> Category {
        Category { id: self.id@, name: self.name@, order: self.order }
    }
}

impl Clone for ShelfCategory {
    fn clone(&self) -> (r: Self)
        ensures
            r.deep_view() == self.deep_view(),
    {
        ShelfCategory { id: self.id.clone(), name: self.name.clone(), order: self.order }
    }
}

/// A book on the shelf. `percent_bits` are the bits of the progress, a number of single
/// precision from 0 to 100, which the library carries and does not compute with.
#[derive(Debug)]
pub struct ShelfBook {
    pub id: String,
    pub title: String,
    pub author: Option<String>,
    pub format: BookFormat,
    pub file_size: u64,
    pub file_path: String,
    pub category_id: Option<String>,
    pub added_at: i64,
    pub last_read_at: i64,
    pub percent_bits: u32,
    pub finished: bool,
    pub font_family: Option<String>,
    pub stats_excluded: Option<bool>,
    pub finished_at: Option<i64>,
    pub finished_times: u32,
    pub char_count: Option<u64>,
    pub page_count: Option<u32>,
    pub rating: Option<u8>,
    pub rated_at: Option<i64>,
    pub genres: Vec<String>,
    pub legacy_genre: Option<String>,
}

/// `ShelfBook` over character sequences.
#[verifier::ext_equal]
pub struct Shelved {
    pub id: Seq<char>,
    pub title: Seq<char>,
    pub author: Option<Seq<char>>,
    pub format: BookFormat,
    pub file_size: u64,
    pub file_path: Seq<char>,
    pub category_id: Option<Seq<char>>,
    pub added_at: i64,
    pub last_read_at: i64,
    pub percent_bits: u32,
    pub finished: bool,
    pub font_family: Option<Seq<char>>,
    pub stats_excluded: Option<bool>,
    pub finished_at: Option<i64>,
    pub finished_times: u32,
    pub char_count: Option<u64>,
    pub page_count: Option<u32>,
    pub rating: Option<u8>,
    pub rated_at: Option<i64>,
    pub genres: Seq<Seq<char>>,
    pub legacy_genre: Option<Seq<char>>,
}

impl DeepView for ShelfBook {
    type V = Shelved;

    open spec fn deep_view(&self) -> Shelved {
        Shelved {
            id: self.id@,
            title: self.title@,
            author: self.author.deep_view(),
            format: self.format,
            file_size: self.file_size,
            file_path: self.file_path@,
            category_id: self.category_id.deep_view(),
            added_at: self.added_at,
            last_read_at: self.last_read_at,
            percent_bits: self.percent_bits,
            finished: self.finished,
            font_family: self.font_family.deep_view(),
            stats_excluded: self.stats_excluded,
            finished_at: self.finished_at,
            finished_times: self.finished_times,
            char_count: self.char_count,
            page_count: self.page_count,
            rating: self.rating,
            rated_at: self.rated_at,
            genres: self.genres.deep_view(),
            legacy_genre: self.legacy_genre.deep_view(),
        }
    }
}

/// Words in a title that keep a book out of the statistics unless it is set otherwise.
pub open spec fn has_sensitive_word(title: Seq<char>) -> bool {
    occurs(title, "淫荡"@) || occurs(title, "少妇白洁"@) || occurs(title, "少年阿宾"@)
}

/// The book is kept out of the statistics: by its own setting, or else by its title.
pub open spec fn kept_out(b: Shelved) -> bool {
    match b.stats_excluded {
        Some(v) => v,
        None => has_sensitive_word(b.title),
    }
}

/// A book as it comes to the shelf.
pub open spec fn newly_shelved(
    id: Seq<char>,
    title: Seq<char>,
    author: Option<Seq<char>>,
    format: BookFormat,
    file_size: u64,
    file_path: Seq<char>,
    added_at: i64,
) -> Shelved {
    Shelved {
        id,
        title,
        author,
        format,
        file_size,
        file_path,
        category_id: None,
        added_at,
        last_read_at: 0,
        percent_bits: 0,
        finished: false,
        font_family: None,
        stats_excluded: None,
        finished_at: None,
        finished_times: 0,
        char_count: None,
        page_count: None,
        rating: None,
        rated_at: None,
        genres: Seq::empty(),
        legacy_genre: None,
    }
}

impl ShelfBook {
    /// A book as it comes to the shelf: in no category, unread, with nothing set.
    pub fn new_opened(
        id: String,
        title: String,
        author: Option<String>,
        format: BookFormat,
        file_size: u64,
        file_path: String,
        added_at: i64,
    ) -> (r: Self)
        ensures
            r.deep_view() == newly_shelved(
                id@,
                title@,
                author.deep_view(),
                format,
                file_size,
                file_path@,
                added_at,
            ),
    {
        let r = ShelfBook {
            id,
            title,
            author,
            format,
            file_size,
            file_path,
            category_id: None,
            added_at,
            last_read_at: 0,
            percent_bits: 0,
            finished: false,
            font_family: None,
            stats_excluded: None,
            finished_at: None,
            finished_times: 0,
            char_count: None,
            page_count: None,
            rating: None,
            rated_at: None,
            genres: Vec::new(),
            legacy_genre: None,
        };
        proof {
            deep_empty(r.genres);
        }
        r
    }

    /// Whether the book is kept out of the statistics.
    pub fn is_stats_excluded(&self) -> (r: bool)
        ensures
            r == kept_out(self.deep_view()),
    {
        match self.stats_excluded {
            Some(v) => v,
            None => {
                let t = chars_of(self.title.as_str());
                contains(&t, &chars_of("淫荡")) || contains(&t, &chars_of("少妇白洁")) || contains(
                    &t,
                    &chars_of("少年阿宾"),
                )
            },
        }
    }
}

/// A copy of an optional string.
pub fn copy_text(s: &Option<String>) -> (r: Option<String>)
    ensures
        r.deep_view() == s.deep_view(),
{
    match s {
        Some(t) => Some(t.clone()),
        None => None,
    }
}

/// A copy of a list of strings.
pub fn copy_texts(v: &Vec<String>) -> (r: Vec<String>)
    ensures
        r.deep_view() == v.deep_view(),
        r@.len() == v@.len(),
{
    let mut out: Vec<String> = Vec::new();
    proof {
        deep_empty(out);
        assert(v.deep_view().take(0) =~= Seq::empty());
    }
    let mut i: usize = 0;
    while i < v.len()
        invariant
            i <= v@.len(),
            out@.len() == i,
            out.deep_view() == v.deep_view().take(i as int),
        decreases v@.len() - i,
    {
        let s = v[i].clone();
        let ghost before = out;
        out.push(s);
        proof {
            deep_push(before, s, out);
            crate::views::take_push(v.deep_view(), i as int);
        }
        i = i + 1;
    }
    assert(v.deep_view().take(i as int) =~= v.deep_view());
    out
}

impl Clone for ShelfBook {
    fn clone(&self) -> (r: Self)
        ensures
            r.deep_view() == self.deep_view(),
    {
        ShelfBook {
            id: self.id.clone(),
            title: self.title.clone(),
            author: copy_text(&self.author),
            format: self.format,
            file_size: self.file_size,
            file_path: self.file_path.clone(),
            category_id: copy_text(&self.category_id),
            added_at: self.added_at,
            last_read_at: self.last_read_at,
            percent_bits: self.percent_bits,
            finished: self.finished,
            font_family: copy_text(&self.font_family),
            stats_excluded: self.stats_excluded,
            finished_at: self.finished_at,
            finished_times: self.finished_times,
            char_count: self.char_count,
            page_count: self.page_count,
            rating: self.rating,
            rated_at: self.rated_at,
            genres: copy_texts(&self.genres),
            legacy_genre: copy_text(&self.legacy_genre),
        }
    }
}

/// The shelf: categories, books, and the place of the books without a category in the order of
/// categories.
#[derive(Debug)]
pub struct ShelfData {
    pub categories: Vec<ShelfCategory>,
    pub books: Vec<ShelfBook>,
    pub uncategorized_order: u32,
}

/// `ShelfData` over sequences.
#[verifier::ext_equal]
pub struct Shelf {
    pub categories: Seq<Category>,
    pub books: Seq<Shelved>,
    pub uncategorized_order: u32,
}

impl DeepView for ShelfData {
    type V = Shelf;

    open spec fn deep_view(&self) -> Shelf {
        Shelf {
            categories: self.categories.deep_view(),
            books: self.books.deep_view(),
            uncategorized_order: self.uncategorized_order,
        }
    }
}

impl Default for ShelfData {
    fn default() -> (r: Self)
        ensures
            r.deep_view() == (Shelf {
                categories: Seq::empty(),
                books: Seq::empty(),
                uncategorized_order: 0,
            }),
    {
        let r = ShelfData { categories: Vec::new(), books: Vec::new(), uncategorized_order: 0 };
        proof {
            deep_empty(r.categories);
            deep_empty(r.books);
        }
        r
    }
}

/// The name under which the books without a category stand in a list of categories.
pub const UNCATEGORIZED_ID: &'static str = "__uncategorized__";

// ---------------------------------------------------------------------------
// Statistics
// ---------------------------------------------------------------------------

/// One stretch of reading. The progress at its start and end, where known, is carried as the
/// bits of numbers of single precision.
#[derive(Debug)]
pub struct SessionEntry {
    pub book_id: String,
    pub started_at: i64,
    pub seconds: u64,
    pub percent_start_bits: Option<u32>,
    pub percent_end_bits: Option<u32>,
}

/// `SessionEntry` over character sequences.
#[verifier::ext_equal]
pub struct Session {
    pub book_id: Seq<char>,
    pub started_at: i64,
    pub seconds: u64,
    pub percent_start_bits: Option<u32>,
    pub percent_end_bits: Option<u32>,
}

impl DeepView for SessionEntry {
    type V = Session;

    open spec fn deep_view(&self) -> Session {
        Session {
            book_id: self.book_id@,
            started_at: self.started_at,
            seconds: self.seconds,
            percent_start_bits: self.percent_start_bits,
            percent_end_bits: self.percent_end_bits,
        }
    }
}

/// One day of reading: the seconds in all and of each book, and the stretches.
#[derive(Debug)]
pub struct DayStat {
    pub date: String,
    pub total_seconds: u64,
    pub per_book: Vec<(String, u64)>,
    pub sessions: Vec<SessionEntry>,
}

/// `DayStat` over sequences.
#[verifier::ext_equal]
pub struct Day {
    pub date: Seq<char>,
    pub total_seconds: u64,
    pub per_book: Seq<(Seq<char>, u64)>,
    pub sessions: Seq<Session>,
}

impl DeepView for DayStat {
    type V = Day;

    open spec fn deep_view(&self) -> Day {
        Day {
            date: self.date@,
            total_seconds: self.total_seconds,
            per_book: self.per_book.deep_view(),
            sessions: self.sessions.deep_view(),
        }
    }
}

/// All reading, by days, and the last known title of each book.
#[derive(Debug)]
pub struct StatsFile {
    pub days: Vec<(String, DayStat)>,
    pub book_titles: Vec<(String, String)>,
}

/// `StatsFile` over sequences.
#[verifier::ext_equal]
pub struct Stats {
    pub days: Seq<(Seq<char>, Day)>,
    pub book_titles: Seq<(Seq<char>, Seq<char>)>,
}

impl DeepView for StatsFile {
    type V = Stats;

    open spec fn deep_view(&self) -> Stats {
        Stats { days: self.days.deep_view(), book_titles: self.book_titles.deep_view() }
    }
}

impl Default for StatsFile {
    fn default() -> (r: Self)
        ensures
            r.deep_view() == (Stats { days: Seq::empty(), book_titles: Seq::empty() }),
    {
        let r = StatsFile { days: Vec::new(), book_titles: Vec::new() };
        proof {
            deep_empty(r.days);
            deep_empty(r.book_titles);
        }
        r
    }
}

/// A name and a number.
#[derive(Debug)]
pub struct NameValue {
    pub name: String,
    pub value: u64,
}

impl DeepView for NameValue {
    type V = (Seq<char>, u64);

    open spec fn deep_view(&self) -> (Seq<char>, u64) {
        (self.name@, self.value)
    }
}

/// The seconds read on a date.
#[derive(Debug)]
pub struct DailyPoint {
    pub date: String,
    pub seconds: u64,
}

impl DeepView for DailyPoint {
    type V = (Seq<char>, u64);

    open spec fn deep_view(&self) -> (Seq<char>, u64) {
        (self.date@, self.seconds)
    }
}

/// The seconds read in a book.
#[derive(Debug)]
pub struct BookTimeStat {
    pub book_id: String,
    pub title: String,
    pub seconds: u64,
}

impl DeepView for BookTimeStat {
    type V = (Seq<char>, Seq<char>, u64);

    open spec fn deep_view(&self) -> (Seq<char>, Seq<char>, u64) {
        (self.book_id@, self.title@, self.seconds)
    }
}

// ---------------------------------------------------------------------------
// Notes and bookmarks
// ---------------------------------------------------------------------------

#[derive(Debug, Clone, Copy, PartialEq, Eq, Structural)]
pub enum NoteStyle {
    Highlight,
    Underline,
    Wavy,
}

#[derive(Debug, Clone, Copy, PartialEq, Eq, Structural)]
pub enum NoteColor {
    Yellow,
    Green,
    Blue,
    Pink,
    Purple,
}

/// A marked passage, found again by its words and those around it, and a thought on it.
#[derive(Debug)]
pub struct Note {
    pub id: String,
    pub book_id: String,
    pub chapter_index: u32,
    pub quote: String,
    pub prefix: String,
    pub suffix: String,
    pub color: NoteColor,
    pub style: NoteStyle,
    pub note: Option<String>,
    pub created_at: i64,
}

/// A bookmark.
#[derive(Debug)]
pub struct Bookmark {
    pub id: String,
    pub book_id: String,
    pub chapter_index: u32,
    pub anchor: Option<String>,
    pub page_in_chapter: Option<u32>,
    pub quote: Option<String>,
    pub prefix: Option<String>,
    pub suffix: Option<String>,
    pub excerpt: String,
    pub created_at: i64,
}

/// The notes and bookmarks of a book.
#[derive(Debug)]
pub struct AnnotationsFile {
    pub notes: Vec<Note>,
    pub bookmarks: Vec<Bookmark>,
}

} // verus!
