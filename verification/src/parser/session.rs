//! Open books of every format.
use vstd::prelude::*;
use crate::error::{joined, AppError, AppResult, Failure};
use crate::model::{BookFormat, BookMeta, Chapter, ChapterContent, Meta, Toc, TocItem};
use crate::parser::cbz::{cbz_chapter, cbz_opened, cbz_resource, Cbz, CbzBook};
use crate::parser::epub::book::{epub_opened, Epub, EpubBook};
use crate::parser::epub::content::{epub_chapter, epub_resource};
use crate::parser::fb2::book::{fb2_chapter, fb2_opened, fb2_resource, Fb2, Fb2Book};
use crate::parser::fb2::document::MAX_FB2_FILE_SIZE;
use crate::parser::markdown::{md_chapter, md_opened, MarkdownBook, Md, MAX_MD_FILE_SIZE};
use crate::parser::mobi::book::{mobi_opened, Mobi, MobiBook, MAX_MOBI_FILE_SIZE};
use crate::parser::mobi::chapter::{mobi_chapter, mobi_resource};
use crate::parser::txt::{txt_chapter, txt_opened, Txt, TxtBook, MAX_TXT_FILE_SIZE};
use crate::parser::{detect_format, detected, BookFile, FileView};
use crate::transfer::{base64_text, encode_base64};

verus! {

/// A resource as it is handed out: its media type, and its bytes as base64.
#[derive(Debug, Clone)]
pub struct ResourcePayload {
    pub mime_type: String,
    pub base64: String,
}

impl DeepView for ResourcePayload {
    type V = (Seq<char>, Seq<char>);

    open spec fn deep_view(&self) -> (Seq<char>, Seq<char>) {
        (self.mime_type@, self.base64@)
    }
}

/// A resource as it is handed out.
pub open spec fn payload(found: Result<(Seq<char>, Seq<u8>), Failure>) -> Result<
    (Seq<char>, Seq<char>),
    Failure,
> {
    match found {
        Ok((mime, bytes)) => Ok((mime, base64_text(bytes))),
        Err(e) => Err(e),
    }
}

/// A book that is open, whatever its format. One that says nothing of itself is empty.
pub trait BookSession {
    /// The book can be read.
    open spec fn ready(&self) -> bool {
        true
    }

    /// How many chapters it has.
    open spec fn chapters(&self) -> int {
        0
    }

    /// A chapter, with the book's own style or without.
    open spec fn chapter_at(&self, index: int, styled: bool) -> Result<Chapter, Failure> {
        Err(Failure::ChapterOutOfRange(index as u32))
    }

    /// A resource: its media type and its bytes.
    open spec fn resource_at(&self, path: Seq<char>) -> Result<(Seq<char>, Seq<u8>), Failure> {
        Err(Failure::ResourceNotFound(path))
    }

    /// Loads a chapter.
    fn load_chapter(&self, index: usize) -> (r: AppResult<ChapterContent>)
        requires
            self.ready(),
        ensures
            match r {
                Ok(c) => self.chapter_at(index as int, false) == Ok::<Chapter, Failure>(
                    c.deep_view(),
                ),
                Err(e) => self.chapter_at(index as int, false) == Err::<Chapter, Failure>(e@),
            },
    ;

    /// Loads a chapter with the book's own style, where it has one.
    fn load_chapter_styled(&self, index: usize) -> (r: AppResult<ChapterContent>)
        requires
            self.ready(),
        ensures
            match r {
                Ok(c) => self.chapter_at(index as int, true) == Ok::<Chapter, Failure>(
                    c.deep_view(),
                ),
                Err(e) => self.chapter_at(index as int, true) == Err::<Chapter, Failure>(e@),
            },
    ;

    /// Loads a resource: its media type and its bytes.
    fn load_resource_bytes(&self, path: &str) -> (r: AppResult<(String, Vec<u8>)>)
        requires
            self.ready(),
        ensures
            match r {
                Ok((mime, bytes)) => self.resource_at(path@) == Ok::<
                    (Seq<char>, Seq<u8>),
                    Failure,
                >((mime@, bytes@)),
                Err(e) => self.resource_at(path@) == Err::<(Seq<char>, Seq<u8>), Failure>(e@),
            },
    ;

    /// How many chapters the book has.
    fn chapter_count(&self) -> (r: usize)
        requires
            self.ready(),
        ensures
            r == self.chapters(),
    ;

    /// Loads a resource as it is handed out.
    fn load_resource(&self, path: &str) -> (r: AppResult<ResourcePayload>)
        requires
            self.ready(),
        ensures
            match r {
                Ok(p) => payload(self.resource_at(path@)) == Ok::<(Seq<char>, Seq<char>), Failure>(
                    p.deep_view(),
                ),
                Err(e) => payload(self.resource_at(path@)) == Err::<
                    (Seq<char>, Seq<char>),
                    Failure,
                >(e@),
            },
    {
        match self.load_resource_bytes(path) {
            Ok((mime_type, bytes)) => Ok(
                ResourcePayload { mime_type, base64: encode_base64(bytes.as_slice()) },
            ),
            Err(e) => Err(e),
        }
    }
}

/// An open book of one of the formats.
pub enum Session {
    Epub(EpubBook),
    Mobi(MobiBook),
    Txt(TxtBook),
    Markdown(MarkdownBook),
    Fb2(Fb2Book),
    Cbz(CbzBook),
}

/// `Session` over sequences.
#[verifier::ext_equal]
pub enum Opened {
    Epub(Epub),
    Mobi(Mobi),
    Txt(Txt),
    Markdown(Md),
    Fb2(Fb2),
    Cbz(Cbz),
}

impl DeepView for Session {
    type V = Opened;

    open spec fn deep_view(&self) -> Opened {
        match *self {
            Session::Epub(b) => Opened::Epub(b.deep_view()),
            Session::Mobi(b) => Opened::Mobi(b.deep_view()),
            Session::Txt(b) => Opened::Txt(b.deep_view()),
            Session::Markdown(b) => Opened::Markdown(b.deep_view()),
            Session::Fb2(b) => Opened::Fb2(b.deep_view()),
            Session::Cbz(b) => Opened::Cbz(b.deep_view()),
        }
    }
}

/// A chapter of an open book; only an EPUB has a style of its own.
pub open spec fn opened_chapter(b: Opened, index: int, styled: bool) -> Result<Chapter, Failure> {
    match b {
        Opened::Epub(b) => epub_chapter(b, index, styled),
        Opened::Mobi(b) => mobi_chapter(b, index),
        Opened::Txt(b) => txt_chapter(b, index),
        Opened::Markdown(b) => md_chapter(b, index),
        Opened::Fb2(b) => fb2_chapter(b, index),
        Opened::Cbz(b) => cbz_chapter(b, index),
    }
}

/// A resource of an open book.
pub open spec fn opened_resource(b: Opened, path: Seq<char>) -> Result<
    (Seq<char>, Seq<u8>),
    Failure,
> {
    match b {
        Opened::Epub(b) => epub_resource(b, path),
        Opened::Mobi(b) => mobi_resource(b, path),
        Opened::Txt(b) => Err(Failure::ResourceNotFound("TXT 无内嵌资源"@)),
        Opened::Markdown(b) => Err(Failure::ResourceNotFound("Markdown 无内嵌资源"@)),
        Opened::Fb2(b) => fb2_resource(b, path),
        Opened::Cbz(b) => cbz_resource(b, path),
    }
}

/// How many chapters an open book has.
pub open spec fn opened_chapters(b: Opened) -> int {
    match b {
        Opened::Epub(b) => b.spine.len() as int,
        Opened::Mobi(b) => b.parts.len() as int,
        Opened::Txt(b) => b.chapters.len() as int,
        Opened::Markdown(b) => 1,
        Opened::Fb2(b) => b.chapters.len() as int,
        Opened::Cbz(b) => 1,
    }
}

impl BookSession for Session {
    open spec fn ready(&self) -> bool {
        match *self {
            Session::Mobi(b) => b.wf(),
            Session::Txt(b) => b.wf(),
            Session::Fb2(b) => b.wf(),
            _ => true,
        }
    }

    open spec fn chapters(&self) -> int {
        opened_chapters(self.deep_view())
    }

    open spec fn chapter_at(&self, index: int, styled: bool) -> Result<Chapter, Failure> {
        opened_chapter(self.deep_view(), index, styled)
    }

    open spec fn resource_at(&self, path: Seq<char>) -> Result<(Seq<char>, Seq<u8>), Failure> {
        opened_resource(self.deep_view(), path)
    }

    fn load_chapter(&self, index: usize) -> (r: AppResult<ChapterContent>) {
        match self {
            Session::Epub(b) => b.load_chapter(index),
            Session::Mobi(b) => b.load_chapter(index),
            Session::Txt(b) => b.load_chapter(index),
            Session::Markdown(b) => b.load_chapter(index),
            Session::Fb2(b) => b.load_chapter(index),
            Session::Cbz(b) => b.load_chapter(index),
        }
    }

    fn load_chapter_styled(&self, index: usize) -> (r: AppResult<ChapterContent>) {
        match self {
            Session::Epub(b) => b.load_chapter_styled(index),
            _ => self.load_chapter(index),
        }
    }

    fn load_resource_bytes(&self, path: &str) -> (r: AppResult<(String, Vec<u8>)>) {
        match self {
            Session::Epub(b) => b.load_resource_bytes(path),
            Session::Mobi(b) => b.load_resource_bytes(path),
            Session::Txt(b) => b.load_resource_bytes(path),
            Session::Markdown(b) => b.load_resource_bytes(path),
            Session::Fb2(b) => b.load_resource_bytes(path),
            Session::Cbz(b) => b.load_resource_bytes(path),
        }
    }

    fn chapter_count(&self) -> (r: usize) {
        match self {
            Session::Epub(b) => b.chapter_count(),
            Session::Mobi(b) => b.chapter_count(),
            Session::Txt(b) => b.chapter_count(),
            Session::Markdown(b) => b.chapter_count(),
            Session::Fb2(b) => b.chapter_count(),
            Session::Cbz(b) => b.chapter_count(),
        }
    }
}

// ---------------------------------------------------------------------------
// Opening
// ---------------------------------------------------------------------------

/// What opening a file of a known format gives.
pub open spec fn opened_as(format: BookFormat, file: FileView, data: Seq<u8>) -> Result<
    (Meta, Seq<Toc>, Opened),
    Failure,
> {
    match format {
        BookFormat::Epub => match epub_opened(file, data) {
            Ok((m, t, b)) => Ok((m, t, Opened::Epub(b))),
            Err(e) => Err(e),
        },
        BookFormat::Mobi | BookFormat::Azw3 => match mobi_opened(file, data, format) {
            Ok((m, t, b)) => Ok((m, t, Opened::Mobi(b))),
            Err(e) => Err(e),
        },
        BookFormat::Txt => match txt_opened(file, data) {
            Ok((m, t, b)) => Ok((m, t, Opened::Txt(b))),
            Err(e) => Err(e),
        },
        BookFormat::Markdown => match md_opened(file, data) {
            Ok((m, t, b)) => Ok((m, t, Opened::Markdown(b))),
            Err(e) => Err(e),
        },
        BookFormat::Fb2 => match fb2_opened(file, data) {
            Ok((m, t, b)) => Ok((m, t, Opened::Fb2(b))),
            Err(e) => Err(e),
        },
        BookFormat::Cbz => match cbz_opened(file, data) {
            Ok((m, t, b)) => Ok((m, t, Opened::Cbz(b))),
            Err(e) => Err(e),
        },
        BookFormat::Pdf => Err(
            Failure::UnsupportedFormat("PDF 由阅读视图直接加载，请勿直接调用解析"@),
        ),
    }
}

/// What opening a file with the given first bytes and content gives.
pub open spec fn book_opened(file: FileView, head: Seq<u8>, data: Seq<u8>) -> Result<
    (Meta, Seq<Toc>, Opened),
    Failure,
> {
    match detected(file.windows, file.path, head) {
        Ok(format) => opened_as(format, file, data),
        Err(e) => Err(e),
    }
}

/// A file of this format and size is not too large to be opened.
pub open spec fn may_open(format: BookFormat, size: u64) -> bool {
    match format {
        BookFormat::Mobi | BookFormat::Azw3 => size <= MAX_MOBI_FILE_SIZE,
        BookFormat::Txt => size <= MAX_TXT_FILE_SIZE,
        BookFormat::Markdown => size <= MAX_MD_FILE_SIZE,
        BookFormat::Fb2 => size <= MAX_FB2_FILE_SIZE,
        BookFormat::Pdf => false,
        BookFormat::Epub | BookFormat::Cbz => true,
    }
}

/// A file that is too large is refused whatever it holds, so that it need not be read.
pub proof fn too_large_is_refused_unread(
    format: BookFormat,
    file: FileView,
    a: Seq<u8>,
    b: Seq<u8>,
)
    requires
        !may_open(format, file.size),
    ensures
        opened_as(format, file, a) == opened_as(format, file, b),
        opened_as(format, file, a) is Err,
{
}

/// Whether a file of this format and size is not too large to be opened.
pub fn fits(format: BookFormat, size: u64) -> (r: bool)
    ensures
        r == may_open(format, size),
{
    match format {
        BookFormat::Mobi | BookFormat::Azw3 => size <= MAX_MOBI_FILE_SIZE,
        BookFormat::Txt => size <= MAX_TXT_FILE_SIZE,
        BookFormat::Markdown => size <= MAX_MD_FILE_SIZE,
        BookFormat::Fb2 => size <= MAX_FB2_FILE_SIZE,
        BookFormat::Pdf => false,
        BookFormat::Epub | BookFormat::Cbz => true,
    }
}

/// Opens a file of a known format.
pub fn open_as(format: BookFormat, file: &BookFile, data: Vec<u8>) -> (r: AppResult<
    (BookMeta, Vec<TocItem>, Session),
>)
    ensures
        match r {
            Ok((meta, toc, s)) => s.ready() && opened_as(format, file.deep_view(), data@) == Ok::<
                (Meta, Seq<Toc>, Opened),
                Failure,
            >((meta.deep_view(), toc.deep_view(), s.deep_view())),
            Err(e) => opened_as(format, file.deep_view(), data@) == Err::<
                (Meta, Seq<Toc>, Opened),
                Failure,
            >(e@),
        },
{
    match format {
        BookFormat::Epub => match EpubBook::open(file, data) {
            Ok((m, t, b)) => Ok((m, t, Session::Epub(b))),
            Err(e) => Err(e),
        },
        BookFormat::Mobi | BookFormat::Azw3 => match MobiBook::open(file, data, format) {
            Ok((m, t, b)) => Ok((m, t, Session::Mobi(b))),
            Err(e) => Err(e),
        },
        BookFormat::Txt => match TxtBook::open(file, data.as_slice()) {
            Ok((m, t, b)) => Ok((m, t, Session::Txt(b))),
            Err(e) => Err(e),
        },
        BookFormat::Markdown => match MarkdownBook::open(file, data.as_slice()) {
            Ok((m, t, b)) => Ok((m, t, Session::Markdown(b))),
            Err(e) => Err(e),
        },
        BookFormat::Fb2 => match Fb2Book::open(file, data.as_slice()) {
            Ok((m, t, b)) => Ok((m, t, Session::Fb2(b))),
            Err(e) => Err(e),
        },
        BookFormat::Cbz => match CbzBook::open(file, data) {
            Ok((m, t, b)) => Ok((m, t, Session::Cbz(b))),
            Err(e) => Err(e),
        },
        BookFormat::Pdf => Err(
            AppError::UnsupportedFormat("PDF 由阅读视图直接加载，请勿直接调用解析".to_owned()),
        ),
    }
}

/// What can be said of a path at which there is no file.
pub fn missing_file(path: &str) -> (r: AppError)
    ensures
        r@ == Failure::Other("文件不存在: "@ + path@),
{
    AppError::Other(joined("文件不存在: ", path))
}

/// Opens the book in a file with the given first bytes (up to 72) and content.
pub fn open_book_from_path(file: &BookFile, head: &[u8], data: Vec<u8>) -> (r: AppResult<
    (BookMeta, Vec<TocItem>, Session),
>)
    ensures
        match r {
            Ok((meta, toc, s)) => s.ready() && book_opened(file.deep_view(), head@, data@) == Ok::<
                (Meta, Seq<Toc>, Opened),
                Failure,
            >((meta.deep_view(), toc.deep_view(), s.deep_view())),
            Err(e) => book_opened(file.deep_view(), head@, data@) == Err::<
                (Meta, Seq<Toc>, Opened),
                Failure,
            >(e@),
        },
{
    match detect_format(file.windows, file.path.as_str(), head) {
        Ok(format) => open_as(format, file, data),
        Err(e) => Err(e),
    }
}

// ---------------------------------------------------------------------------
// Covers
// ---------------------------------------------------------------------------

/// The covers that a book brings with it: those among its images, or the one it names.
pub open spec fn covers_loaded(file: FileView, head: Seq<u8>, data: Seq<u8>) -> Result<
    Seq<Seq<u8>>,
    Failure,
> {
    match detected(file.windows, file.path, head) {
        Err(e) => Err(e),
        Ok(BookFormat::Epub) => crate::parser::epub::images::epub_covers(data),
        Ok(BookFormat::Mobi) | Ok(BookFormat::Azw3) => crate::parser::mobi::images::mobi_covers(
            data,
        ),
        Ok(format) => match opened_as(format, file, data) {
            Err(e) => Err(e),
            Ok((meta, toc, b)) => match meta.cover_resource {
                None => Ok(Seq::empty()),
                Some(path) => match opened_resource(b, path) {
                    Err(e) => Err(e),
                    Ok((mime, bytes)) => Ok(seq![bytes]),
                },
            },
        },
    }
}

/// What a file of this format and size holds has a say in the covers it brings.
pub open spec fn may_bring_covers(format: BookFormat, size: u64) -> bool {
    format == BookFormat::Mobi || format == BookFormat::Azw3 || may_open(format, size)
}

/// The covers of a file that is too large are refused whatever it holds, so that it need not be
/// read.
pub proof fn covers_are_refused_unread(file: FileView, head: Seq<u8>, a: Seq<u8>, b: Seq<u8>)
    requires
        detected(file.windows, file.path, head) matches Ok(f) ==> !may_bring_covers(f, file.size),
    ensures
        covers_loaded(file, head, a) == covers_loaded(file, head, b),
        covers_loaded(file, head, a) is Err,
{
    if let Ok(f) = detected(file.windows, file.path, head) {
        too_large_is_refused_unread(f, file, a, b);
    }
}

/// Whether what a file of this format and size holds has a say in the covers it brings.
pub fn brings_covers(format: BookFormat, size: u64) -> (r: bool)
    ensures
        r == may_bring_covers(format, size),
{
    format == BookFormat::Mobi || format == BookFormat::Azw3 || fits(format, size)
}

/// The covers that a book brings with it, best first.
pub fn load(file: &BookFile, head: &[u8], data: Vec<u8>) -> (r: AppResult<Vec<Vec<u8>>>)
    ensures
        match r {
            Ok(v) => covers_loaded(file.deep_view(), head@, data@) == Ok::<
                Seq<Seq<u8>>,
                Failure,
            >(v.deep_view()),
            Err(e) => covers_loaded(file.deep_view(), head@, data@) == Err::<
                Seq<Seq<u8>>,
                Failure,
            >(e@),
        },
{
    let format = match detect_format(file.windows, file.path.as_str(), head) {
        Ok(f) => f,
        Err(e) => {
            return Err(e);
        },
    };
    match format {
        BookFormat::Epub => crate::parser::epub::images::cover_candidates(data),
        BookFormat::Mobi | BookFormat::Azw3 => crate::parser::mobi::images::cover_candidates(data),
        _ => {
            let (meta, toc, session) = match open_as(format, file, data) {
                Ok(p) => p,
                Err(e) => {
                    return Err(e);
                },
            };
            let mut out: Vec<Vec<u8>> = Vec::new();
            match &meta.cover_resource {
                None => {
                    assert(out.deep_view() =~= Seq::empty());
                    Ok(out)
                },
                Some(path) => match session.load_resource_bytes(path.as_str()) {
                    Err(e) => Err(e),
                    Ok((_, bytes)) => {
                        out.push(bytes);
                        assert(out.deep_view()[0] =~= bytes@);
                        assert(out.deep_view() =~= seq![bytes@]);
                        Ok(out)
                    },
                },
            }
        },
    }
}

} // verus!
