//! CBZ: an archive of images, shown as one chapter.
use vstd::prelude::*;
use crate::archive::{
    opening_error, report_zip_fault, zip_content, zip_error, zip_names, zip_openable, Archive,
    Fault, Zip, ZipFault,
};
use crate::error::{AppError, AppResult, Failure};
use crate::model::{
    copy_texts, toc_children_view, BookFormat, BookMeta, Chapter, ChapterContent, ChapterKind,
    Meta, Toc, TocItem,
};
use crate::natural::{in_natural_order, sort_names};
use crate::parser::{
    file_id, guess_mime, is_word, make_book_id, mime_of, name_tail, path_title, swap_char,
    title_from_path, BookFile, FileView,
};
use crate::text::{
    chars_of, listed, lower_ascii, part, replaced, rfind_char, split, split_at, starts,
    starts_with, string_of, texts, to_lower_ascii,
};
use crate::views::{deep_empty, deep_push};

verus! {

/// An ending that names of images have.
pub open spec fn is_image_ending(e: Seq<char>) -> bool {
    e == "jpg"@ || e == "jpeg"@ || e == "png"@ || e == "gif"@ || e == "webp"@ || e == "bmp"@ || e
        == "avif"@
}

/// A segment of a path that hides what is below it.
pub open spec fn is_hidden(seg: Seq<char>) -> bool {
    starts(seg, "__MACOSX"@) || starts(seg, "."@)
}

/// Some segment of a path, from the `i`-th on, hides what is below it.
pub open spec fn hidden_from(segs: Seq<Seq<char>>, i: int) -> bool
    decreases segs.len() - i,
{
    if i < 0 || i >= segs.len() {
        false
    } else {
        is_hidden(segs[i]) || hidden_from(segs, i + 1)
    }
}

/// An entry that is a page: an image, neither a folder nor hidden.
pub open spec fn is_page(name: Seq<char>) -> bool {
    &&& !(name.len() > 0 && (name.last() == '/' || name.last() == '\\'))
    &&& !hidden_from(split(name, '/'), 0)
    &&& is_image_ending(lower_ascii(name_tail(name)))
}

/// The pages among the first `k` entries.
pub open spec fn pages_of(names: Seq<Seq<char>>, k: int) -> Seq<Seq<char>>
    decreases k,
{
    if k <= 0 || k > names.len() {
        Seq::empty()
    } else if is_page(names[k - 1]) {
        pages_of(names, k - 1).push(names[k - 1])
    } else {
        pages_of(names, k - 1)
    }
}

fn is_image(name: &[char]) -> (r: bool)
    ensures
        r == is_image_ending(lower_ascii(name_tail(name@))),
{
    let n = name.len();
    let tail = match rfind_char(name, '.') {
        Some(i) => {
            let t = part(name, i + 1, n);
            assert(t@ =~= name@.skip(i + 1));
            t
        },
        None => {
            let t = part(name, 0, n);
            assert(t@ =~= name@);
            t
        },
    };
    let e = to_lower_ascii(&tail);
    is_word(&e, "jpg") || is_word(&e, "jpeg") || is_word(&e, "png") || is_word(&e, "gif")
        || is_word(&e, "webp") || is_word(&e, "bmp") || is_word(&e, "avif")
}

/// Whether an entry is a page.
pub fn is_page_name(name: &str) -> (r: bool)
    ensures
        r == is_page(name@),
{
    let cs = chars_of(name);
    let n = cs.len();
    if n > 0 && (cs[n - 1] == '/' || cs[n - 1] == '\\') {
        return false;
    }
    let segs = split_at(&cs, '/');
    let ghost all = texts(segs@);
    let mut i: usize = 0;
    while i < segs.len()
        invariant
            i <= segs@.len(),
            all == texts(segs@),
            all == split(name@, '/'),
            hidden_from(all, 0) == hidden_from(all, i as int),
        decreases segs@.len() - i,
    {
        assert(all[i as int] == segs@[i as int]@);
        if starts_with(&segs[i], "__MACOSX") || starts_with(&segs[i], ".") {
            return false;
        }
        i = i + 1;
    }
    is_image(&cs)
}

fn read_pages(names: &Vec<String>) -> (r: Vec<String>)
    ensures
        r.deep_view() == pages_of(names.deep_view(), names@.len() as int),
{
    let ghost all = names.deep_view();
    let mut out: Vec<String> = Vec::new();
    proof {
        deep_empty(out);
    }
    let mut i: usize = 0;
    while i < names.len()
        invariant
            i <= names@.len(),
            all == names.deep_view(),
            out.deep_view() == pages_of(all, i as int),
        decreases names@.len() - i,
    {
        assert(all[i as int] == names@[i as int]@);
        if is_page_name(names[i].as_str()) {
            let n = names[i].clone();
            let ghost before = out;
            out.push(n);
            proof {
                deep_push(before, n, out);
            }
        }
        i = i + 1;
    }
    out
}

/// An open comic.
pub struct CbzBook {
    pub book_id: String,
    pub archive: Archive,
    pub images: Vec<String>,
    pub title: String,
}

/// `CbzBook` over sequences.
#[verifier::ext_equal]
pub struct Cbz {
    pub book_id: Seq<char>,
    pub zip: Zip,
    pub images: Seq<Seq<char>>,
    pub title: Seq<char>,
}

impl DeepView for CbzBook {
    type V = Cbz;

    open spec fn deep_view(&self) -> Cbz {
        Cbz {
            book_id: self.book_id@,
            zip: self.archive.deep_view(),
            images: self.images.deep_view(),
            title: self.title@,
        }
    }
}

/// What is known of a comic whose first page is given.
pub open spec fn cbz_meta(file: FileView, first: Seq<char>) -> Meta {
    Meta {
        id: file_id(file),
        title: path_title(file.windows, file.path),
        author: None,
        publisher: None,
        language: None,
        format: BookFormat::Cbz,
        file_size: file.size,
        file_path: file.path,
        total_chapters: 1,
        cover_resource: Some(first),
    }
}

/// The table of contents of a comic.
pub open spec fn cbz_toc() -> Seq<Toc> {
    seq![
        Toc {
            id: "cbz-root"@,
            label: "漫画"@,
            chapter_index: 0,
            anchor: None,
            children: Seq::empty(),
        },
    ]
}

/// What opening a comic gives: its pages in the order of their names.
pub open spec fn cbz_opened(file: FileView, data: Seq<u8>) -> Result<
    (Meta, Seq<Toc>, Cbz),
    Failure,
> {
    match zip_names(data) {
        Err(f) => Err(opening_error(f)),
        Ok(names) => match zip_openable(data) {
            Err(f) => Err(zip_error(f)),
            Ok(entries) => {
                let pages = in_natural_order(pages_of(entries, entries.len() as int));
                if pages.len() == 0 {
                    Err(Failure::Zip("CBZ 中没有找到图片文件"@))
                } else {
                    Ok(
                        (
                            cbz_meta(file, pages[0]),
                            cbz_toc(),
                            Cbz {
                                book_id: file_id(file),
                                zip: Zip { data, names },
                                images: pages,
                                title: path_title(file.windows, file.path),
                            },
                        ),
                    )
                }
            },
        },
    }
}

/// The one chapter of a comic: its pages.
pub open spec fn cbz_chapter(b: Cbz, index: int) -> Result<Chapter, Failure> {
    if index != 0 {
        Err(Failure::ChapterOutOfRange(index as u32))
    } else {
        Ok(
            Chapter {
                book_id: b.book_id,
                chapter_index: 0,
                title: b.title,
                kind: ChapterKind::Images,
                html: None,
                text: None,
                image_refs: Some(b.images),
            },
        )
    }
}

/// A page: its media type and its bytes.
pub open spec fn cbz_resource(b: Cbz, path: Seq<char>) -> Result<(Seq<char>, Seq<u8>), Failure> {
    let norm = replaced(path, seq!['\\'], "/"@);
    if !b.images.contains(norm) {
        Err(Failure::ResourceNotFound(norm))
    } else {
        match zip_content(b.zip.data, norm, u64::MAX) {
            Ok(bytes) => Ok((mime_of(norm), bytes)),
            Err(f) => match f {
                Fault::Io(shown) => Err(Failure::Io(shown)),
                _ => Err(Failure::ResourceNotFound(norm)),
            },
        }
    }
}

/// The pages of a comic are images of its archive, in the order of their names.
pub proof fn pages_are_images_in_order(file: FileView, data: Seq<u8>)
    ensures
        cbz_opened(file, data) matches Ok((meta, toc, b)) ==> {
            &&& b.images.len() > 0
            &&& crate::natural::is_ordered(b.images)
            &&& meta.cover_resource == Some(b.images[0])
        },
{
    if let Ok(entries) = zip_openable(data) {
        crate::natural::sorted_names_are_ordered(pages_of(entries, entries.len() as int));
    }
}

impl CbzBook {
    /// Opens the comic whose file holds the given bytes.
    pub fn open(file: &BookFile, data: Vec<u8>) -> (r: AppResult<
        (BookMeta, Vec<TocItem>, CbzBook),
    >)
        ensures
            match r {
                Ok((meta, toc, book)) => cbz_opened(file.deep_view(), data@) == Ok::<
                    (Meta, Seq<Toc>, Cbz),
                    Failure,
                >((meta.deep_view(), toc.deep_view(), book.deep_view())),
                Err(e) => cbz_opened(file.deep_view(), data@) == Err::<
                    (Meta, Seq<Toc>, Cbz),
                    Failure,
                >(e@),
            },
    {
        let archive = match Archive::new(data) {
            Ok(a) => a,
            Err(e) => {
                return Err(e);
            },
        };
        let entries = match archive.openable_names() {
            Ok(v) => v,
            Err(f) => {
                return Err(report_zip_fault(f));
            },
        };
        let pages = read_pages(&entries);
        let images = sort_names(&pages);
        if images.len() == 0 {
            return Err(AppError::Zip("CBZ 中没有找到图片文件".to_owned()));
        }
        let book_id = make_book_id(file.canonical.as_str(), file.size);
        assert(images.deep_view()[0] == images@[0]@);
        let meta = BookMeta {
            id: book_id.clone(),
            title: title_from_path(file.windows, file.path.as_str()),
            author: None,
            publisher: None,
            language: None,
            format: BookFormat::Cbz,
            file_size: file.size,
            file_path: file.path.clone(),
            total_chapters: 1,
            cover_resource: Some(images[0].clone()),
        };
        assert(meta.deep_view() =~= cbz_meta(file.deep_view(), images.deep_view()[0]));
        let mut toc: Vec<TocItem> = Vec::new();
        let root = TocItem {
            id: "cbz-root".to_owned(),
            label: "漫画".to_owned(),
            chapter_index: 0,
            anchor: None,
            children: Vec::new(),
        };
        proof {
            deep_empty(toc);
        }
        let ghost before = toc;
        toc.push(root);
        proof {
            toc_children_view(root);
            deep_empty(root.children);
            deep_push(before, root, toc);
            assert(toc.deep_view() =~= cbz_toc());
        }
        let title = title_from_path(file.windows, file.path.as_str());
        Ok((meta, toc, CbzBook { book_id, archive, images, title }))
    }

    /// A comic is one chapter.
    pub fn chapter_count(&self) -> (r: usize)
        ensures
            r == 1,
    {
        1
    }

    /// Loads the chapter.
    pub fn load_chapter(&self, index: usize) -> (r: AppResult<ChapterContent>)
        ensures
            match r {
                Ok(c) => cbz_chapter(self.deep_view(), index as int) == Ok::<Chapter, Failure>(
                    c.deep_view(),
                ),
                Err(e) => cbz_chapter(self.deep_view(), index as int) == Err::<Chapter, Failure>(
                    e@,
                ),
            },
    {
        if index != 0 {
            return Err(AppError::ChapterOutOfRange(index as u32));
        }
        let r = ChapterContent {
            book_id: self.book_id.clone(),
            chapter_index: 0,
            title: self.title.clone(),
            kind: ChapterKind::Images,
            html: None,
            text: None,
            image_refs: Some(copy_texts(&self.images)),
        };
        assert(r.deep_view() =~= cbz_chapter(self.deep_view(), 0)->Ok_0);
        Ok(r)
    }

    /// Loads a page: its media type and its bytes.
    pub fn load_resource_bytes(&self, path: &str) -> (r: AppResult<(String, Vec<u8>)>)
        ensures
            match r {
                Ok((mime, bytes)) => cbz_resource(self.deep_view(), path@) == Ok::<
                    (Seq<char>, Seq<u8>),
                    Failure,
                >((mime@, bytes@)),
                Err(e) => cbz_resource(self.deep_view(), path@) == Err::<
                    (Seq<char>, Seq<u8>),
                    Failure,
                >(e@),
            },
    {
        let norm = string_of(&swap_char(&chars_of(path), '\\', "/"));
        let known = listed(self.images.as_slice(), norm.as_str());
        proof {
            let all = self.deep_view().images;
            if known {
                let k = choose|k: int|
                    0 <= k < self.images@.len() && (#[trigger] self.images@[k])@ == norm@;
                assert(all[k] == norm@);
            } else if all.contains(norm@) {
                let k = choose|k: int| 0 <= k < all.len() && all[k] == norm@;
                assert(self.images@[k]@ == norm@);
            }
        }
        if !known {
            return Err(AppError::ResourceNotFound(norm));
        }
        match self.archive.content(norm.as_str(), u64::MAX) {
            Ok(bytes) => Ok((guess_mime(norm.as_str()).to_owned(), bytes)),
            Err(ZipFault::Io(shown)) => Err(AppError::Io(shown)),
            Err(_) => Err(AppError::ResourceNotFound(norm)),
        }
    }
}

} // verus!
