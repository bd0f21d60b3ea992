//! Plain text: chapters are found by their headings.
use vstd::prelude::*;
use crate::decoding::{decode_to_utf8, decoded_file};
use crate::error::{with_number, AppError, AppResult, Failure};
use crate::model::{
    toc_children_view, BookFormat, BookMeta, Chapter, ChapterContent, ChapterKind, Meta, Toc,
    TocItem,
};
use crate::numbers::{decimal, write_decimal};
use crate::parser::{
    file_id, make_book_id, oversized, oversized_error, path_title, title_from_path, BookFile,
    FileView,
};
use crate::regexes::{in_order, ints, regex_spans, row_of, spans, Groups, TXT_HEADING};
use crate::text::{
    char_from, char_from_is_first, chars_of, find_char, part, string_of, trim, trimmed,
};
use crate::views::{deep_empty, deep_push, take_push};

verus! {

/// The largest file, in bytes, that is opened.
pub const MAX_TXT_FILE_SIZE: u64 = 209715200;

/// A chapter: its title, and where its text starts and ends.
#[derive(Debug)]
pub struct TxtChapter {
    pub title: String,
    pub start: usize,
    pub end: usize,
}

/// `TxtChapter` over sequences.
#[verifier::ext_equal]
pub struct Slice {
    pub title: Seq<char>,
    pub start: int,
    pub end: int,
}

impl DeepView for TxtChapter {
    type V = Slice;

    open spec fn deep_view(&self) -> Slice {
        Slice { title: self.title@, start: self.start as int, end: self.end as int }
    }
}

/// The chapter that the `i`-th heading opens: its text starts with the line behind the heading
/// and goes up to the next heading.
pub open spec fn headed(text: Seq<char>, found: Seq<Groups>, i: int) -> Slice {
    let start = found[i][0].unwrap().0;
    let end = if i + 1 < found.len() {
        found[i + 1][0].unwrap().0
    } else {
        text.len() as int
    };
    let line = match char_from(text, '\n', start) {
        Some(nl) => nl + 1,
        None => text.len() as int,
    };
    Slice {
        title: trimmed(text.subrange(start, found[i][0].unwrap().1)),
        start: if line < end {
            line
        } else {
            end
        },
        end,
    }
}

/// The chapters that headings open; the whole text where there are none.
pub open spec fn sliced(text: Seq<char>, found: Seq<Groups>) -> Seq<Slice> {
    if found.len() == 0 {
        seq![Slice { title: "全文"@, start: 0, end: text.len() as int }]
    } else {
        Seq::new(found.len(), |i: int| headed(text, found, i))
    }
}

/// The chapters of a text.
pub open spec fn txt_chapters(text: Seq<char>) -> Seq<Slice> {
    sliced(text, regex_spans(TXT_HEADING@, text))
}

/// The chapters of a text are in its order and do not overlap, and each lies within it.
pub open spec fn one_after_another(slices: Seq<Slice>, len: int) -> bool {
    &&& forall|i: int|
        0 <= i < slices.len() ==> 0 <= (#[trigger] slices[i]).start <= slices[i].end <= len
    &&& forall|i: int, j: int|
        #![trigger slices[i], slices[j]]
        0 <= i < j < slices.len() ==> slices[i].end <= slices[j].start
}

/// The chapters come one after another, and the last goes to the end of the text.
pub proof fn chapters_come_in_order(text: Seq<char>, found: Seq<Groups>)
    requires
        in_order(found, text.len() as int),
    ensures
        sliced(text, found).len() > 0,
        one_after_another(sliced(text, found), text.len() as int),
        sliced(text, found).last().end == text.len(),
{
    if found.len() > 0 {
        let all = sliced(text, found);
        assert forall|i: int| 0 <= i < all.len() implies 0 <= (#[trigger] all[i]).start
            <= all[i].end <= text.len() && found[i][0].unwrap().0 <= all[i].start by {
            headed_within(text, found, i);
        }
        assert forall|i: int, j: int|
            #![trigger all[i], all[j]]
            0 <= i < j < all.len() implies all[i].end <= all[j].start by {
            headed_within(text, found, j);
            assert(found[i + 1][0] is Some && found[j][0] is Some);
            if i + 1 < j {
                assert(found[i + 1][0].unwrap().1 <= found[j][0].unwrap().0);
            }
        }
    }
}

proof fn headed_within(text: Seq<char>, found: Seq<Groups>, i: int)
    requires
        in_order(found, text.len() as int),
        0 <= i < found.len(),
    ensures
        found[i][0].unwrap().0 <= headed(text, found, i).start <= headed(text, found, i).end
            <= text.len(),
        0 <= found[i][0].unwrap().0 <= found[i][0].unwrap().1 <= text.len(),
        i + 1 < found.len() ==> found[i][0].unwrap().1 <= found[i + 1][0].unwrap().0,
{
    assert(found[i][0] is Some);
    if i + 1 < found.len() {
        assert(found[i + 1][0] is Some);
    }
    char_from_is_first(text, '\n', found[i][0].unwrap().0);
}

/// An open text.
pub struct TxtBook {
    pub book_id: String,
    pub text: Vec<char>,
    pub chapters: Vec<TxtChapter>,
}

/// `TxtBook` over sequences.
#[verifier::ext_equal]
pub struct Txt {
    pub book_id: Seq<char>,
    pub text: Seq<char>,
    pub chapters: Seq<Slice>,
}

impl DeepView for TxtBook {
    type V = Txt;

    open spec fn deep_view(&self) -> Txt {
        Txt {
            book_id: self.book_id@,
            text: self.text@,
            chapters: self.chapters.deep_view(),
        }
    }
}

/// The entry of a chapter; it leads to where the chapter's text starts, in characters.
pub open spec fn txt_entry(s: Slice, i: int) -> Toc {
    Toc {
        id: "txt-"@ + decimal(i),
        label: s.title,
        chapter_index: i as u32,
        anchor: Some(decimal(s.start)),
        children: Seq::empty(),
    }
}

/// The table of contents of a text.
pub open spec fn txt_toc(slices: Seq<Slice>) -> Seq<Toc> {
    Seq::new(slices.len(), |i: int| txt_entry(slices[i], i))
}

/// What is known of a text.
pub open spec fn txt_meta(file: FileView, chapters: int) -> Meta {
    Meta {
        id: file_id(file),
        title: path_title(file.windows, file.path),
        author: None,
        publisher: None,
        language: None,
        format: BookFormat::Txt,
        file_size: file.size,
        file_path: file.path,
        total_chapters: chapters as u32,
        cover_resource: None,
    }
}

/// What opening a text gives.
pub open spec fn txt_opened(file: FileView, data: Seq<u8>) -> Result<
    (Meta, Seq<Toc>, Txt),
    Failure,
> {
    if file.size > MAX_TXT_FILE_SIZE {
        Err(oversized("TXT"@, file.size, "200"@))
    } else {
        match decoded_file(data) {
            Err(e) => Err(e),
            Ok(text) => {
                let chapters = txt_chapters(text);
                Ok(
                    (
                        txt_meta(file, chapters.len() as int),
                        txt_toc(chapters),
                        Txt { book_id: file_id(file), text, chapters },
                    ),
                )
            },
        }
    }
}

/// A chapter as it is shown.
pub open spec fn txt_chapter(b: Txt, index: int) -> Result<Chapter, Failure> {
    if index >= b.chapters.len() {
        Err(Failure::ChapterOutOfRange(index as u32))
    } else {
        let s = b.chapters[index];
        Ok(
            Chapter {
                book_id: b.book_id,
                chapter_index: index as u32,
                title: s.title,
                kind: ChapterKind::Text,
                html: None,
                text: Some(b.text.subrange(s.start, s.end)),
                image_refs: None,
            },
        )
    }
}

/// Finds the chapters of a text by its headings.
pub fn build_virtual_toc(text: &[char]) -> (r: Vec<TxtChapter>)
    ensures
        r.deep_view() == txt_chapters(text@),
        one_after_another(r.deep_view(), text@.len() as int),
{
    let rows = spans(TXT_HEADING, text);
    let ghost found = ints(rows@);
    let ghost want = txt_chapters(text@);
    proof {
        chapters_come_in_order(text@, found);
    }
    let n = text.len();
    let mut out: Vec<TxtChapter> = Vec::new();
    proof {
        deep_empty(out);
    }
    if rows.len() == 0 {
        let c = TxtChapter { title: "全文".to_owned(), start: 0, end: n };
        let ghost before = out;
        out.push(c);
        proof {
            deep_push(before, c, out);
            assert(out.deep_view() =~= want);
        }
        return out;
    }
    assert(want.take(0) =~= Seq::empty());
    let mut i: usize = 0;
    while i < rows.len()
        invariant
            i <= rows@.len(),
            rows@.len() > 0,
            n == text@.len(),
            found == ints(rows@),
            in_order(found, n as int),
            want == sliced(text@, found),
            out.deep_view() == want.take(i as int),
        decreases rows@.len() - i,
    {
        proof {
            row_of(rows@, i as int, n as int);
            headed_within(text@, found, i as int);
            if i + 1 < rows@.len() {
                row_of(rows@, i as int + 1, n as int);
            }
        }
        assert(rows@[i as int]@[0] is Some);
        let (start, stop) = match rows[i][0] {
            Some(p) => p,
            None => (0, 0),
        };
        assert(found[i as int][0].unwrap() == (start as int, stop as int));
        let end: usize = if i + 1 < rows.len() {
            assert(rows@[i + 1]@[0] is Some);
            let e = match rows[i + 1][0] {
                Some(p) => p.0,
                None => 0,
            };
            assert(found[i + 1][0].unwrap().0 == e);
            e
        } else {
            n
        };
        let line: usize = match find_char(text, '\n', start) {
            Some(nl) => nl + 1,
            None => n,
        };
        let heading = part(text, start, stop);
        let c = TxtChapter {
            title: string_of(trim(&heading)),
            start: if line < end {
                line
            } else {
                end
            },
            end,
        };
        let ghost before = out;
        out.push(c);
        proof {
            deep_push(before, c, out);
            take_push(want, i as int);
            assert(c.deep_view() =~= want[i as int]);
        }
        i = i + 1;
    }
    assert(want.take(i as int) =~= want);
    out
}

impl TxtBook {
    /// The chapters lie within the text, one after another.
    pub open spec fn wf(&self) -> bool {
        one_after_another(self.deep_view().chapters, self.text@.len() as int)
    }

    /// Opens the text whose file holds the given bytes.
    pub fn open(file: &BookFile, data: &[u8]) -> (r: AppResult<(BookMeta, Vec<TocItem>, TxtBook)>)
        ensures
            match r {
                Ok((meta, toc, book)) => book.wf() && txt_opened(file.deep_view(), data@) == Ok::<
                    (Meta, Seq<Toc>, Txt),
                    Failure,
                >((meta.deep_view(), toc.deep_view(), book.deep_view())),
                Err(e) => txt_opened(file.deep_view(), data@) == Err::<
                    (Meta, Seq<Toc>, Txt),
                    Failure,
                >(e@),
            },
    {
        if file.size > MAX_TXT_FILE_SIZE {
            return Err(oversized_error("TXT", file.size, "200"));
        }
        let text = match decode_to_utf8(data) {
            Ok(s) => chars_of(s.as_str()),
            Err(e) => {
                return Err(e);
            },
        };
        let chapters = build_virtual_toc(&text);
        let toc = read_toc(&chapters);
        let book_id = make_book_id(file.canonical.as_str(), file.size);
        let meta = BookMeta {
            id: book_id.clone(),
            title: title_from_path(file.windows, file.path.as_str()),
            author: None,
            publisher: None,
            language: None,
            format: BookFormat::Txt,
            file_size: file.size,
            file_path: file.path.clone(),
            total_chapters: chapters.len() as u32,
            cover_resource: None,
        };
        assert(meta.deep_view() =~= txt_meta(file.deep_view(), chapters@.len() as int));
        let book = TxtBook { book_id, text, chapters };
        Ok((meta, toc, book))
    }

    /// How many chapters the text has.
    pub fn chapter_count(&self) -> (r: usize)
        ensures
            r == self.deep_view().chapters.len(),
    {
        self.chapters.len()
    }

    /// Loads a chapter.
    pub fn load_chapter(&self, index: usize) -> (r: AppResult<ChapterContent>)
        requires
            self.wf(),
        ensures
            match r {
                Ok(c) => txt_chapter(self.deep_view(), index as int) == Ok::<Chapter, Failure>(
                    c.deep_view(),
                ),
                Err(e) => txt_chapter(self.deep_view(), index as int) == Err::<Chapter, Failure>(
                    e@,
                ),
            },
    {
        if index >= self.chapters.len() {
            return Err(AppError::ChapterOutOfRange(index as u32));
        }
        let c = &self.chapters[index];
        assert(self.deep_view().chapters[index as int] == c.deep_view());
        let body = part(&self.text, c.start, c.end);
        let r = ChapterContent {
            book_id: self.book_id.clone(),
            chapter_index: index as u32,
            title: c.title.clone(),
            kind: ChapterKind::Text,
            html: None,
            text: Some(string_of(&body)),
            image_refs: None,
        };
        assert(r.deep_view() =~= txt_chapter(self.deep_view(), index as int)->Ok_0);
        Ok(r)
    }

    /// A text has no resources.
    pub fn load_resource_bytes(&self, path: &str) -> (r: AppResult<(String, Vec<u8>)>)
        ensures
            r matches Err(e) && e@ == Failure::ResourceNotFound("TXT 无内嵌资源"@),
    {
        Err(AppError::ResourceNotFound("TXT 无内嵌资源".to_owned()))
    }
}

fn read_toc(chapters: &Vec<TxtChapter>) -> (r: Vec<TocItem>)
    ensures
        r.deep_view() == txt_toc(chapters.deep_view()),
{
    let ghost slices = chapters.deep_view();
    let ghost want = txt_toc(slices);
    let mut out: Vec<TocItem> = Vec::new();
    proof {
        deep_empty(out);
        assert(want.take(0) =~= Seq::empty());
    }
    let mut i: usize = 0;
    while i < chapters.len()
        invariant
            i <= chapters@.len(),
            slices == chapters.deep_view(),
            want == txt_toc(slices),
            out.deep_view() == want.take(i as int),
        decreases chapters@.len() - i,
    {
        assert(slices[i as int] == chapters@[i as int].deep_view());
        let anchor = write_decimal(chapters[i].start as u64);
        let node = TocItem {
            id: with_number("txt-", i as u64),
            label: chapters[i].title.clone(),
            chapter_index: i as u32,
            anchor: Some(string_of(&anchor)),
            children: Vec::new(),
        };
        let ghost before = out;
        out.push(node);
        proof {
            toc_children_view(node);
            deep_empty(node.children);
            deep_push(before, node, out);
            take_push(want, i as int);
            assert(node.deep_view() =~= want[i as int]);
        }
        i = i + 1;
    }
    assert(want.take(i as int) =~= want);
    out
}

// ---------------------------------------------------------------------------
// What chapters hold
// ---------------------------------------------------------------------------

/// A chapter holds what stands between its heading and the next: it ends where the next heading
/// starts, or with the text, and before it stand only its heading and the rest of the heading's line.
/// Its title is the heading without white space around it, its entry in the table of contents leads to
/// it and names the place of its text, and what is shown is its text.
pub proof fn a_chapter_holds_what_follows_its_heading(
    book_id: Seq<char>,
    text: Seq<char>,
    found: Seq<Groups>,
    i: int,
)
    requires
        in_order(found, text.len() as int),
        0 <= i < found.len(),
        i < u32::MAX,
    ensures
        ({
            let b = Txt { book_id, text, chapters: sliced(text, found) };
            let s = b.chapters[i];
            let heading = found[i][0].unwrap();
            let next = if i + 1 < found.len() {
                found[i + 1][0].unwrap().0
            } else {
                text.len() as int
            };
            &&& b.chapters.len() == found.len()
            &&& s.title == trimmed(text.subrange(heading.0, heading.1))
            &&& s.end == next
            &&& heading.0 <= s.start <= s.end
            &&& forall|k: int| heading.0 <= k < s.start - 1 ==> #[trigger] text[k] != '\n'
            &&& s.start < s.end ==> heading.0 < s.start && text[s.start - 1] == '\n'
            &&& txt_toc(b.chapters).len() == found.len()
            &&& txt_toc(b.chapters)[i].label == s.title
            &&& txt_toc(b.chapters)[i].chapter_index == i
            &&& txt_toc(b.chapters)[i].anchor == Some(decimal(s.start))
            &&& txt_chapter(b, i) matches Ok(c) && {
                &&& c.text == Some(text.subrange(s.start, next))
                &&& c.title == s.title
                &&& c.chapter_index == i
                &&& c.book_id == book_id
                &&& c.html is None
            }
        }),
{
    headed_within(text, found, i);
    char_from_is_first(text, '\n', found[i][0].unwrap().0);
}

/// A text without headings is one chapter that holds all of it.
pub proof fn a_text_without_headings_is_one_chapter(book_id: Seq<char>, text: Seq<char>)
    requires
        regex_spans(TXT_HEADING@, text).len() == 0,
    ensures
        ({
            let b = Txt { book_id, text, chapters: txt_chapters(text) };
            &&& b.chapters.len() == 1
            &&& txt_chapter(b, 0) matches Ok(c) && c.text == Some(text)
            &&& txt_chapter(b, 1) is Err
        }),
{
    assert(text.subrange(0, text.len() as int) =~= text);
}

} // verus!
