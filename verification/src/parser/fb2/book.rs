//! An open FictionBook.
use vstd::prelude::*;
use crate::cleaning::{book_html, sanitize_book_html};
use crate::error::{joined, with_number, AppError, AppResult, Failure};
use crate::model::{
    copy_text, toc_children_view, BookFormat, BookMeta, Chapter, ChapterContent, ChapterKind, Meta,
    Toc, TocItem,
};
use crate::numbers::decimal;
use crate::parser::epub::content::MAX_INLINE_IMAGE_SIZE;
use crate::parser::fb2::document::{
    decode_fb2, described, fb2_decoded, fb2_sections, given, parse_description, parse_sections,
    pieces_within, About, Fb2Section, Piece, MAX_FB2_FILE_SIZE,
};
use crate::parser::fb2::notes::{
    collect_note_targets, fb2_notes, notes_linked, rewrite_note_refs,
};
use crate::parser::{
    file_id, make_book_id, origin, oversized, oversized_error, path_title, resource_address,
    resource_origin, resource_url,
    title_from_path, BookFile, FileView,
};
use crate::regexes::{
    group, group_text, in_order, ints, regex_spans, row_ints, row_of, row_within, spans, splice,
    spliced, Groups, FB2_BINARY, FB2_IMAGE,
};
use crate::text::{
    chars_of, is_space, part, push_all, push_str, replace, replaced, same, space, starts,
    starts_with, string_of, texts,
};
use crate::transfer::{base64_bytes, base64_text, decode_base64, encode_base64};
use crate::views::{deep_empty, deep_push, take_push};

verus! {

/// A binary within a document: its identifier, its media type, and where its text stands.
#[derive(Debug)]
pub struct Fb2Binary {
    pub id: String,
    pub mime: String,
    pub start: usize,
    pub end: usize,
}

/// `Fb2Binary` over sequences.
#[verifier::ext_equal]
pub struct Binary {
    pub id: Seq<char>,
    pub mime: Seq<char>,
    pub start: int,
    pub end: int,
}

impl DeepView for Fb2Binary {
    type V = Binary;

    open spec fn deep_view(&self) -> Binary {
        Binary {
            id: self.id@,
            mime: self.mime@,
            start: self.start as int,
            end: self.end as int,
        }
    }
}

/// The binary that a match gives.
pub open spec fn binary_at(xml: Seq<char>, m: Groups) -> Binary {
    let (start, end) = if m.len() > 3 && m[3] is Some {
        m[3].unwrap()
    } else {
        (0, 0)
    };
    Binary { id: given(group_text(xml, m, 1)), mime: given(group_text(xml, m, 2)), start, end }
}

/// The binaries of a document.
pub open spec fn fb2_binaries(xml: Seq<char>) -> Seq<Binary> {
    let found = regex_spans(FB2_BINARY@, xml);
    Seq::new(found.len(), |i: int| binary_at(xml, found[i]))
}

/// The binaries lie within the document.
pub open spec fn binaries_within(list: Seq<Binary>, len: int) -> bool {
    forall|i: int| 0 <= i < list.len() ==> 0 <= (#[trigger] list[i]).start <= list[i].end <= len
}

fn group_or_empty(text: &[char], row: &Vec<Option<(usize, usize)>>, g: usize) -> (r: Vec<char>)
    requires
        row_within(row_ints(row@), text@.len() as int),
    ensures
        r@ == given(group_text(text@, row_ints(row@), g as int)),
{
    match group(text, row, g) {
        Some(t) => t,
        None => {
            let none: Vec<char> = Vec::new();
            assert(none@ =~= Seq::empty());
            none
        },
    }
}

/// Finds the binaries of a document.
pub fn parse_binaries(xml: &[char]) -> (r: Vec<Fb2Binary>)
    ensures
        r.deep_view() == fb2_binaries(xml@),
        binaries_within(r.deep_view(), xml@.len() as int),
{
    let rows = spans(FB2_BINARY, xml);
    let ghost found = ints(rows@);
    let ghost want = fb2_binaries(xml@);
    let mut out: Vec<Fb2Binary> = Vec::new();
    proof {
        deep_empty(out);
        assert(want.take(0) =~= Seq::empty());
    }
    let mut i: usize = 0;
    while i < rows.len()
        invariant
            i <= rows@.len(),
            found == ints(rows@),
            want == fb2_binaries(xml@),
            want.len() == rows@.len(),
            found == regex_spans(FB2_BINARY@, xml@),
            in_order(found, xml@.len() as int),
            out.deep_view() == want.take(i as int),
            binaries_within(out.deep_view(), xml@.len() as int),
        decreases rows@.len() - i,
    {
        proof {
            row_of(rows@, i as int, xml@.len() as int);
        }
        let row = &rows[i];
        let ghost m = found[i as int];
        let id = group_or_empty(xml, row, 1);
        let mime = group_or_empty(xml, row, 2);
        assert(row@.len() > 3 ==> (m[3] is Some == row@[3] is Some));
        let (start, end): (usize, usize) = if row.len() > 3 {
            match row[3] {
                Some(p) => p,
                None => (0, 0),
            }
        } else {
            (0, 0)
        };
        let b = Fb2Binary { id: string_of(&id), mime: string_of(&mime), start, end };
        let ghost before = out;
        out.push(b);
        proof {
            deep_push(before, b, out);
            take_push(want, i as int);
            assert(b.deep_view() =~= want[i as int]);
        }
        i = i + 1;
    }
    assert(want.take(i as int) =~= want);
    out
}

/// An open book.
pub struct Fb2Book {
    pub book_id: String,
    pub windows: bool,
    pub chapters: Vec<Fb2Section>,
    pub binaries: Vec<Fb2Binary>,
    pub note_targets: Vec<(String, String)>,
    pub xml: Vec<char>,
}

/// `Fb2Book` over sequences.
#[verifier::ext_equal]
pub struct Fb2 {
    pub book_id: Seq<char>,
    pub windows: bool,
    pub chapters: Seq<Piece>,
    pub binaries: Seq<Binary>,
    pub notes: Seq<(Seq<char>, Seq<char>)>,
    pub xml: Seq<char>,
}

impl DeepView for Fb2Book {
    type V = Fb2;

    open spec fn deep_view(&self) -> Fb2 {
        Fb2 {
            book_id: self.book_id@,
            windows: self.windows,
            chapters: self.chapters.deep_view(),
            binaries: self.binaries.deep_view(),
            notes: self.note_targets.deep_view(),
            xml: self.xml@,
        }
    }
}

/// The title of a chapter; one without a title is numbered.
pub open spec fn shown_title(title: Seq<char>, i: int) -> Seq<char> {
    if title.len() == 0 {
        "第 "@ + decimal(i + 1) + " 节"@
    } else {
        title
    }
}

/// The table of contents of a book.
pub open spec fn fb2_toc(chapters: Seq<Piece>) -> Seq<Toc> {
    Seq::new(
        chapters.len(),
        |i: int|
            Toc {
                id: "fb2-"@ + decimal(i),
                label: shown_title(chapters[i].title, i),
                chapter_index: i as u32,
                anchor: None,
                children: Seq::empty(),
            },
    )
}

/// What is known of a book.
pub open spec fn fb2_meta(file: FileView, about: About, chapters: int) -> Meta {
    Meta {
        id: file_id(file),
        title: match about.title {
            Some(t) => t,
            None => path_title(file.windows, file.path),
        },
        author: about.author,
        publisher: about.publisher,
        language: None,
        format: BookFormat::Fb2,
        file_size: file.size,
        file_path: file.path,
        total_chapters: chapters as u32,
        cover_resource: match about.cover {
            Some(id) => Some("bin:"@ + id),
            None => None,
        },
    }
}

/// What opening a book gives.
pub open spec fn fb2_opened(file: FileView, data: Seq<u8>) -> Result<
    (Meta, Seq<Toc>, Fb2),
    Failure,
> {
    if file.size > MAX_FB2_FILE_SIZE {
        Err(oversized("FB2"@, file.size, "200"@))
    } else {
        match fb2_decoded(data) {
            Err(e) => Err(e),
            Ok(xml) => {
                let chapters = fb2_sections(xml);
                Ok(
                    (
                        fb2_meta(file, described(xml), chapters.len() as int),
                        fb2_toc(chapters),
                        Fb2 {
                            book_id: file_id(file),
                            windows: file.windows,
                            chapters,
                            binaries: fb2_binaries(xml),
                            notes: fb2_notes(xml),
                            xml,
                        },
                    ),
                )
            },
        }
    }
}

// ---------------------------------------------------------------------------
// Images
// ---------------------------------------------------------------------------

/// The text without white space.
pub open spec fn without_space(s: Seq<char>) -> Seq<char>
    decreases s.len(),
{
    if s.len() == 0 {
        Seq::empty()
    } else if is_space(s.last()) {
        without_space(s.drop_last())
    } else {
        without_space(s.drop_last()).push(s.last())
    }
}

/// The first binary with an identifier, from the `i`-th on.
pub open spec fn binary_by_id(list: Seq<Binary>, id: Seq<char>, i: int) -> Option<int>
    decreases list.len() - i,
{
    if i < 0 || i >= list.len() {
        None
    } else if list[i].id == id {
        Some(i)
    } else {
        binary_by_id(list, id, i + 1)
    }
}

/// The media type and the bytes of the binary with an identifier.
pub open spec fn binary_content(b: Fb2, id: Seq<char>) -> Option<(Seq<char>, Seq<u8>)> {
    match binary_by_id(b.binaries, id, 0) {
        None => None,
        Some(k) => {
            let bin = b.binaries[k];
            match base64_bytes(without_space(b.xml.subrange(bin.start, bin.end))) {
                Some(bytes) => Some((bin.mime, bytes)),
                None => None,
            }
        },
    }
}

/// What an image is exchanged for: small ones are carried within the chapter, large ones are
/// asked for later, and missing ones go.
pub open spec fn image_element(b: Fb2, id: Seq<char>) -> Seq<char> {
    match binary_content(b, id) {
        Some((mime, bytes)) => if bytes.len() <= MAX_INLINE_IMAGE_SIZE {
            "<img src=\"data:"@ + mime + ";base64,"@ + base64_text(bytes) + "\"/>"@
        } else {
            "<img src=\""@ + resource_address(b.windows, b.book_id, "bin:"@ + id) + "\" alt=\""@
                + id + "\"/>"@
        },
        None => Seq::empty(),
    }
}

/// The images with what they are exchanged for.
pub open spec fn image_elements(b: Fb2, slice: Seq<char>, found: Seq<Groups>) -> Seq<Seq<char>> {
    Seq::new(found.len(), |i: int| image_element(b, given(group_text(slice, found[i], 1))))
}

/// A text with its images exchanged.
pub open spec fn images_put(b: Fb2, slice: Seq<char>) -> Seq<char> {
    let found = regex_spans(FB2_IMAGE@, slice);
    spliced(slice, found, image_elements(b, slice, found))
}

/// How the source of an image starts that is asked for later.
pub open spec fn asked_source(b: Fb2) -> Seq<char> {
    "src=\""@ + resource_origin(b.windows) + b.book_id + "/"@
}

/// How it starts while the HTML is cleaned: without a scheme, so that it passes.
pub open spec fn held_source(b: Fb2) -> Seq<char> {
    "src=\"reader-res/"@ + b.book_id + "/"@
}

/// What is left of HTML when it is cleaned; the sources of images that are asked for later are
/// kept.
pub open spec fn fb2_cleaned(b: Fb2, html: Seq<char>) -> Seq<char> {
    replaced(
        book_html(replaced(html, asked_source(b), held_source(b)), false),
        held_source(b),
        asked_source(b),
    )
}

/// A part of the document as it is shown: anchors lead to notes, images are put in, and then it is
/// cleaned.
pub open spec fn fb2_html(b: Fb2, slice: Seq<char>) -> Seq<char> {
    fb2_cleaned(b, images_put(b, notes_linked(slice, b.notes)))
}

/// A chapter as it is shown.
pub open spec fn fb2_chapter(b: Fb2, index: int) -> Result<Chapter, Failure> {
    if index >= b.chapters.len() {
        Err(Failure::ChapterOutOfRange(index as u32))
    } else {
        let p = b.chapters[index];
        Ok(
            Chapter {
                book_id: b.book_id,
                chapter_index: index as u32,
                title: shown_title(p.title, index),
                kind: ChapterKind::Html,
                html: Some(fb2_html(b, b.xml.subrange(p.start, p.end))),
                text: None,
                image_refs: None,
            },
        )
    }
}

/// A resource: the binary that `bin:` and an identifier name.
pub open spec fn fb2_resource(b: Fb2, path: Seq<char>) -> Result<(Seq<char>, Seq<u8>), Failure> {
    if starts(path, "bin:"@) {
        match binary_content(b, path.skip(4)) {
            Some(r) => Ok(r),
            None => Err(Failure::ResourceNotFound(path)),
        }
    } else {
        Err(Failure::ResourceNotFound(path))
    }
}

/// What a binary holds is given back by its name: the bytes whose text it is.
pub proof fn a_resource_is_its_binary(b: Fb2, k: int, bytes: Seq<u8>)
    requires
        0 <= k < b.binaries.len(),
        binary_by_id(b.binaries, b.binaries[k].id, 0) == Some(k),
        base64_bytes(base64_text(bytes)) == Some(bytes),
        without_space(b.xml.subrange(b.binaries[k].start, b.binaries[k].end)) == base64_text(bytes),
    ensures
        fb2_resource(b, "bin:"@ + b.binaries[k].id) == Ok::<(Seq<char>, Seq<u8>), Failure>(
            (b.binaries[k].mime, bytes),
        ),
{
    reveal_strlit("bin:");
    let path = "bin:"@ + b.binaries[k].id;
    assert(path.subrange(0, 4) =~= "bin:"@);
    assert(path.skip(4) =~= b.binaries[k].id);
}

fn drop_space(s: &[char]) -> (r: Vec<char>)
    ensures
        r@ == without_space(s@),
{
    let mut out: Vec<char> = Vec::new();
    let mut i: usize = 0;
    assert(s@.take(0) =~= Seq::empty());
    while i < s.len()
        invariant
            i <= s@.len(),
            out@ == without_space(s@.take(i as int)),
        decreases s@.len() - i,
    {
        assert(s@.take(i + 1).drop_last() =~= s@.take(i as int));
        if !space(s[i]) {
            out.push(s[i]);
        }
        i = i + 1;
    }
    assert(s@.take(i as int) =~= s@);
    out
}

fn title_shown(title: &String, i: usize) -> (r: String)
    ensures
        r@ == shown_title(title@, i as int),
{
    if chars_of(title.as_str()).len() == 0 {
        around_wide("第 ", i as u128 + 1, " 节")
    } else {
        title.clone()
    }
}

fn around_wide(a: &str, n: u128, b: &str) -> (r: String)
    ensures
        r@ == a@ + decimal(n as int) + b@,
{
    let mut out = chars_of(a);
    let d = crate::numbers::write_wide(n);
    push_all(&mut out, &d);
    push_str(&mut out, b);
    string_of(&out)
}

fn read_toc(chapters: &Vec<Fb2Section>) -> (r: Vec<TocItem>)
    ensures
        r.deep_view() == fb2_toc(chapters.deep_view()),
{
    let ghost want = fb2_toc(chapters.deep_view());
    let mut out: Vec<TocItem> = Vec::new();
    proof {
        deep_empty(out);
        assert(want.take(0) =~= Seq::empty());
    }
    let mut i: usize = 0;
    while i < chapters.len()
        invariant
            i <= chapters@.len(),
            want == fb2_toc(chapters.deep_view()),
            out.deep_view() == want.take(i as int),
        decreases chapters@.len() - i,
    {
        assert(chapters.deep_view()[i as int] == chapters@[i as int].deep_view());
        let node = TocItem {
            id: with_number("fb2-", i as u64),
            label: title_shown(&chapters[i].title, i),
            chapter_index: i as u32,
            anchor: None,
            children: Vec::new(),
        };
        let ghost before = out;
        out.push(node);
        proof {
            toc_children_view(node);
            deep_empty(node.children);
            deep_push(before, node, out);
            take_push(want, i as int);
            assert(node.deep_view() =~= want[i as int]);
        }
        i = i + 1;
    }
    assert(want.take(i as int) =~= want);
    out
}

impl Fb2Book {
    /// The chapters and the binaries lie within the document.
    pub open spec fn wf(&self) -> bool {
        &&& pieces_within(self.deep_view().chapters, self.xml@.len() as int)
        &&& binaries_within(self.deep_view().binaries, self.xml@.len() as int)
    }

    /// Opens the book whose file holds the given bytes.
    pub fn open(file: &BookFile, data: &[u8]) -> (r: AppResult<(BookMeta, Vec<TocItem>, Fb2Book)>)
        ensures
            match r {
                Ok((meta, toc, book)) => book.wf() && fb2_opened(file.deep_view(), data@) == Ok::<
                    (Meta, Seq<Toc>, Fb2),
                    Failure,
                >((meta.deep_view(), toc.deep_view(), book.deep_view())),
                Err(e) => fb2_opened(file.deep_view(), data@) == Err::<
                    (Meta, Seq<Toc>, Fb2),
                    Failure,
                >(e@),
            },
    {
        if file.size > MAX_FB2_FILE_SIZE {
            return Err(oversized_error("FB2", file.size, "200"));
        }
        let xml = match decode_fb2(data) {
            Ok(s) => chars_of(s.as_str()),
            Err(e) => {
                return Err(e);
            },
        };
        let about = parse_description(&xml);
        let chapters = parse_sections(&xml);
        let binaries = parse_binaries(&xml);
        let note_targets = collect_note_targets(&xml);
        let toc = read_toc(&chapters);
        let book_id = make_book_id(file.canonical.as_str(), file.size);
        let title = match copy_text(&about.title) {
            Some(t) => t,
            None => title_from_path(file.windows, file.path.as_str()),
        };
        let cover_resource: Option<String> = match &about.cover {
            Some(id) => Some(joined("bin:", id.as_str())),
            None => None,
        };
        let meta = BookMeta {
            id: book_id.clone(),
            title,
            author: copy_text(&about.author),
            publisher: copy_text(&about.publisher),
            language: None,
            format: BookFormat::Fb2,
            file_size: file.size,
            file_path: file.path.clone(),
            total_chapters: chapters.len() as u32,
            cover_resource,
        };
        assert(meta.deep_view() =~= fb2_meta(
            file.deep_view(),
            about.deep_view(),
            chapters@.len() as int,
        ));
        let book = Fb2Book {
            book_id,
            windows: file.windows,
            chapters,
            binaries,
            note_targets,
            xml,
        };
        Ok((meta, toc, book))
    }

    /// How many chapters the book has.
    pub fn chapter_count(&self) -> (r: usize)
        ensures
            r == self.deep_view().chapters.len(),
    {
        self.chapters.len()
    }

    /// The media type and the bytes of the binary with an identifier.
    pub fn binary_bytes(&self, id: &[char]) -> (r: Option<(String, Vec<u8>)>)
        requires
            self.wf(),
        ensures
            match r {
                Some((mime, bytes)) => binary_content(self.deep_view(), id@) == Some(
                    (mime@, bytes@),
                ),
                None => binary_content(self.deep_view(), id@) is None,
            },
    {
        let ghost list = self.deep_view().binaries;
        let mut i: usize = 0;
        while i < self.binaries.len()
            invariant
                i <= self.binaries@.len(),
                self.wf(),
                list == self.deep_view().binaries,
                binary_by_id(list, id@, 0) == binary_by_id(list, id@, i as int),
            decreases self.binaries@.len() - i,
        {
            let b = &self.binaries[i];
            assert(list[i as int] == b.deep_view());
            if same(&chars_of(b.id.as_str()), id) {
                let raw = part(&self.xml, b.start, b.end);
                let clean = drop_space(&raw);
                return match decode_base64(string_of(&clean).as_str()) {
                    Some(bytes) => Some((b.mime.clone(), bytes)),
                    None => None,
                };
            }
            i = i + 1;
        }
        None
    }

    fn image_for(&self, id: &[char]) -> (r: Vec<char>)
        requires
            self.wf(),
        ensures
            r@ == image_element(self.deep_view(), id@),
    {
        match self.binary_bytes(id) {
            Some((mime, bytes)) => {
                if bytes.len() as u64 <= MAX_INLINE_IMAGE_SIZE {
                    let mut out = chars_of("<img src=\"data:");
                    push_str(&mut out, mime.as_str());
                    push_str(&mut out, ";base64,");
                    push_str(&mut out, encode_base64(bytes.as_slice()).as_str());
                    push_str(&mut out, "\"/>");
                    out
                } else {
                    let mut name = chars_of("bin:");
                    push_all(&mut name, id);
                    let url = resource_url(
                        self.windows,
                        self.book_id.as_str(),
                        string_of(&name).as_str(),
                    );
                    let mut out = chars_of("<img src=\"");
                    push_str(&mut out, url.as_str());
                    push_str(&mut out, "\" alt=\"");
                    push_all(&mut out, id);
                    push_str(&mut out, "\"/>");
                    out
                }
            },
            None => {
                let none: Vec<char> = Vec::new();
                assert(none@ =~= Seq::empty());
                none
            },
        }
    }

    /// Puts images into a text.
    pub fn rewrite_images(&self, slice: &[char]) -> (r: Vec<char>)
        requires
            self.wf(),
        ensures
            r@ == images_put(self.deep_view(), slice@),
    {
        let rows = spans(FB2_IMAGE, slice);
        let ghost found = ints(rows@);
        let ghost b = self.deep_view();
        let mut with: Vec<Vec<char>> = Vec::new();
        let mut i: usize = 0;
        while i < rows.len()
            invariant
                i <= rows@.len(),
                self.wf(),
                found == ints(rows@),
                b == self.deep_view(),
                in_order(found, slice@.len() as int),
                with@.len() == i,
                forall|j: int|
                    0 <= j < i ==> (#[trigger] with@[j])@ == image_element(
                        b,
                        given(group_text(slice@, found[j], 1)),
                    ),
            decreases rows@.len() - i,
        {
            proof {
                row_of(rows@, i as int, slice@.len() as int);
            }
            let id = group_or_empty(slice, &rows[i], 1);
            with.push(self.image_for(&id));
            i = i + 1;
        }
        assert(texts(with@) =~= image_elements(b, slice@, found));
        splice(slice, &rows, &with)
    }

    /// The HTML of a part of the document.
    pub fn render_section(&self, slice: &[char]) -> (r: String)
        requires
            self.wf(),
        ensures
            r@ == fb2_html(self.deep_view(), slice@),
    {
        let linked = rewrite_note_refs(slice, &self.note_targets);
        let rewritten = self.rewrite_images(&linked);
        let mut asked = chars_of("src=\"");
        push_str(&mut asked, origin(self.windows));
        push_str(&mut asked, self.book_id.as_str());
        push_str(&mut asked, "/");
        let mut held = chars_of("src=\"reader-res/");
        push_str(&mut held, self.book_id.as_str());
        push_str(&mut held, "/");
        proof {
            reveal_strlit("/");
        }
        let safe = replace(&rewritten, &asked, &held);
        let clean = chars_of(sanitize_book_html(string_of(&safe).as_str(), false).as_str());
        string_of(&replace(&clean, &held, &asked))
    }

    /// Loads a chapter.
    pub fn load_chapter(&self, index: usize) -> (r: AppResult<ChapterContent>)
        requires
            self.wf(),
        ensures
            match r {
                Ok(c) => fb2_chapter(self.deep_view(), index as int) == Ok::<Chapter, Failure>(
                    c.deep_view(),
                ),
                Err(e) => fb2_chapter(self.deep_view(), index as int) == Err::<Chapter, Failure>(
                    e@,
                ),
            },
    {
        if index >= self.chapters.len() {
            return Err(AppError::ChapterOutOfRange(index as u32));
        }
        let p = &self.chapters[index];
        assert(self.deep_view().chapters[index as int] == p.deep_view());
        let slice = part(&self.xml, p.start, p.end);
        let r = ChapterContent {
            book_id: self.book_id.clone(),
            chapter_index: index as u32,
            title: title_shown(&p.title, index),
            kind: ChapterKind::Html,
            html: Some(self.render_section(&slice)),
            text: None,
            image_refs: None,
        };
        assert(r.deep_view() =~= fb2_chapter(self.deep_view(), index as int)->Ok_0);
        Ok(r)
    }

    /// Loads a resource: its media type and its bytes.
    pub fn load_resource_bytes(&self, path: &str) -> (r: AppResult<(String, Vec<u8>)>)
        requires
            self.wf(),
        ensures
            match r {
                Ok((mime, bytes)) => fb2_resource(self.deep_view(), path@) == Ok::<
                    (Seq<char>, Seq<u8>),
                    Failure,
                >((mime@, bytes@)),
                Err(e) => fb2_resource(self.deep_view(), path@) == Err::<
                    (Seq<char>, Seq<u8>),
                    Failure,
                >(e@),
            },
    {
        let p = chars_of(path);
        if starts_with(&p, "bin:") {
            proof {
                reveal_strlit("bin:");
            }
            let n = p.len();
            let id = part(&p, 4, n);
            assert(id@ =~= path@.skip(4));
            if let Some(found) = self.binary_bytes(&id) {
                return Ok(found);
            }
        }
        Err(AppError::ResourceNotFound(path.to_owned()))
    }
}

} // verus!
