//! An open EPUB.
use vstd::prelude::*;
use crate::archive::{entry_bytes, entry_text, opening_error, zip_names, Archive, Zip};
use crate::error::{with_number, AppResult, Failure};
use crate::model::{
    copy_text, toc_children_view, BookFormat, BookMeta, Meta, Toc, TocItem,
};
use crate::numbers::decimal;
use crate::parser::epub::hrefs::{
    fallback_title, href_title, parent, parent_of, place, placed,
};
use crate::parser::epub::opf::{
    find_item, find_nav_doc, find_ncx_doc, find_property, item_by_id, item_with_property, nav_doc,
    ncx_doc, packaged, parse_opf, Package, Pkg,
};
use crate::parser::epub::package::{
    check_drm, drm_checked, read_container_rootfile, rootfile,
};
use crate::parser::epub::toc::{nav_toc, ncx_toc, parse_nav_toc, parse_ncx_toc};
use crate::parser::{
    file_id, make_book_id, path_title, title_from_path, BookFile, FileView,
};
use crate::text::{chars_of, string_of, texts};
use crate::views::{deep_empty, deep_push, take_push};

verus! {

/// An open EPUB: its archive, and the paths of its chapters in the order in which they are
/// read.
pub struct EpubBook {
    pub book_id: String,
    pub windows: bool,
    pub archive: Archive,
    pub spine: Vec<String>,
    pub cover_resource: Option<String>,
    pub toc: Vec<TocItem>,
}

/// `EpubBook` over sequences.
#[verifier::ext_equal]
pub struct Epub {
    pub book_id: Seq<char>,
    pub windows: bool,
    pub zip: Zip,
    pub spine: Seq<Seq<char>>,
    pub cover: Option<Seq<char>>,
    pub toc: Seq<Toc>,
}

impl DeepView for EpubBook {
    type V = Epub;

    open spec fn deep_view(&self) -> Epub {
        Epub {
            book_id: self.book_id@,
            windows: self.windows,
            zip: self.archive.deep_view(),
            spine: self.spine.deep_view(),
            cover: self.cover_resource.deep_view(),
            toc: self.toc.deep_view(),
        }
    }
}

/// The paths of the chapters that the first `k` references lead to; one that leads to nothing
/// listed is passed over.
pub open spec fn spine_paths(pkg: Pkg, dir: Seq<char>, k: int) -> Seq<Seq<char>>
    decreases k,
{
    if k <= 0 || k > pkg.spine.len() {
        Seq::empty()
    } else {
        match item_by_id(pkg.manifest, pkg.spine[k - 1], pkg.manifest.len() as int) {
            Some(i) => spine_paths(pkg, dir, k - 1).push(placed(dir, pkg.manifest[i].href)),
            None => spine_paths(pkg, dir, k - 1),
        }
    }
}

/// The paths of the chapters of a book in the order in which they are read.
pub open spec fn chapter_paths(pkg: Pkg, dir: Seq<char>) -> Seq<Seq<char>> {
    spine_paths(pkg, dir, pkg.spine.len() as int)
}

/// The file that a book gives as its cover: one with that property, else the one that its
/// metadata names.
pub open spec fn cover_item(pkg: Pkg) -> Option<int> {
    match item_with_property(pkg.manifest, "cover-image"@, 0) {
        Some(i) => Some(i),
        None => match pkg.cover_id {
            Some(id) => item_by_id(pkg.manifest, id, pkg.manifest.len() as int),
            None => None,
        },
    }
}

/// The path of the cover.
pub open spec fn cover_path(pkg: Pkg, dir: Seq<char>) -> Option<Seq<char>> {
    match cover_item(pkg) {
        Some(i) => Some(placed(dir, pkg.manifest[i].href)),
        None => None,
    }
}

/// A table of contents for a book that has none: one entry for each chapter.
pub open spec fn spine_toc(paths: Seq<Seq<char>>) -> Seq<Toc> {
    Seq::new(
        paths.len(),
        |i: int|
            Toc {
                id: "toc-"@ + decimal(i),
                label: href_title(paths[i]),
                chapter_index: i as u32,
                anchor: None,
                children: Seq::empty(),
            },
    )
}

/// The table of contents that a book comes with: that of its navigation document, else the older
/// one; empty where neither can be read.
pub open spec fn own_toc(z: Zip, pkg: Pkg, opf_dir: Seq<char>, keys: Seq<Seq<char>>) -> Seq<Toc> {
    let nav = match nav_doc(pkg.manifest) {
        Some(h) => match nav_toc(z, h, opf_dir, keys) {
            Ok(t) => t,
            Err(_) => Seq::empty(),
        },
        None => Seq::empty(),
    };
    if nav.len() > 0 {
        nav
    } else {
        match ncx_doc(pkg.manifest) {
            Some(h) => match ncx_toc(z, h, opf_dir, keys) {
                Ok(t) => t,
                Err(_) => Seq::empty(),
            },
            None => Seq::empty(),
        }
    }
}

/// The table of contents of a book.
pub open spec fn book_toc(z: Zip, pkg: Pkg, opf_dir: Seq<char>) -> Seq<Toc> {
    let paths = chapter_paths(pkg, opf_dir);
    let own = own_toc(z, pkg, opf_dir, paths);
    if own.len() == 0 {
        spine_toc(paths)
    } else {
        own
    }
}

/// What is known of a book.
pub open spec fn epub_meta(file: FileView, pkg: Pkg, dir: Seq<char>) -> Meta {
    Meta {
        id: file_id(file),
        title: match pkg.title {
            Some(t) => t,
            None => path_title(file.windows, file.path),
        },
        author: pkg.author,
        publisher: pkg.publisher,
        language: pkg.language,
        format: BookFormat::Epub,
        file_size: file.size,
        file_path: file.path,
        total_chapters: chapter_paths(pkg, dir).len() as u32,
        cover_resource: cover_path(pkg, dir),
    }
}

/// What opening a book gives, once its package file is read.
pub open spec fn epub_assembled(file: FileView, z: Zip, opf: Seq<char>, pkg: Pkg) -> (
    Meta,
    Seq<Toc>,
    Epub,
) {
    let toc = book_toc(z, pkg, parent(opf));
    let meta = epub_meta(file, pkg, parent(opf));
    (
        meta,
        toc,
        Epub {
            book_id: meta.id,
            windows: file.windows,
            zip: z,
            spine: chapter_paths(pkg, parent(opf)),
            cover: meta.cover_resource,
            toc,
        },
    )
}

/// The package file of a book: its path and what it says.
pub open spec fn package_of(z: Zip) -> Result<(Seq<char>, Pkg), Failure> {
    match drm_checked(z) {
        Err(e) => Err(e),
        Ok(_) => match rootfile(z) {
            Err(e) => Err(e),
            Ok(opf) => match entry_text(z, opf) {
                Err(e) => Err(e),
                Ok(xml) => match packaged(xml) {
                    Err(e) => Err(e),
                    Ok(pkg) => Ok((opf, pkg)),
                },
            },
        },
    }
}

/// What opening a book gives.
pub open spec fn epub_opened(file: FileView, data: Seq<u8>) -> Result<
    (Meta, Seq<Toc>, Epub),
    Failure,
> {
    match zip_names(data) {
        Err(f) => Err(opening_error(f)),
        Ok(names) => {
            let z = Zip { data, names };
            match package_of(z) {
                Err(e) => Err(e),
                Ok((opf, pkg)) => Ok(epub_assembled(file, z, opf, pkg)),
            }
        },
    }
}

/// A book that declares an encryption other than of fonts is never opened.
pub proof fn protected_books_stay_closed(file: FileView, data: Seq<u8>)
    requires
        zip_names(data) matches Ok(names) && drm_checked(Zip { data, names }) == Err::<
            (),
            Failure,
        >(Failure::DrmDetected),
    ensures
        epub_opened(file, data) == Err::<(Meta, Seq<Toc>, Epub), Failure>(Failure::DrmDetected),
{
}

/// A book whose chapters can be read has a table of contents.
pub proof fn a_book_has_a_toc(z: Zip, pkg: Pkg, opf_dir: Seq<char>)
    requires
        chapter_paths(pkg, opf_dir).len() > 0,
    ensures
        book_toc(z, pkg, opf_dir).len() > 0,
{
}

/// Reads the package file of a book.
pub fn read_package_of(archive: &Archive) -> (r: AppResult<(String, Package)>)
    ensures
        match r {
            Ok((opf, pkg)) => package_of(archive.deep_view()) == Ok::<(Seq<char>, Pkg), Failure>(
                (opf@, pkg.deep_view()),
            ),
            Err(e) => package_of(archive.deep_view()) == Err::<(Seq<char>, Pkg), Failure>(e@),
        },
{
    if let Err(e) = check_drm(archive) {
        return Err(e);
    }
    match read_container_rootfile(archive) {
        Err(e) => Err(e),
        Ok(opf) => match archive.read_entry_string(opf.as_str()) {
            Err(e) => Err(e),
            Ok(xml) => match parse_opf(xml.as_str()) {
                Err(e) => Err(e),
                Ok(pkg) => Ok((opf, pkg)),
            },
        },
    }
}

fn read_spine(pkg: &Package, dir: &[char]) -> (r: Vec<String>)
    ensures
        r.deep_view() == chapter_paths(pkg.deep_view(), dir@),
{
    let ghost pv = pkg.deep_view();
    let mut out: Vec<String> = Vec::new();
    proof {
        deep_empty(out);
    }
    let mut i: usize = 0;
    while i < pkg.spine.len()
        invariant
            i <= pkg.spine@.len(),
            pv == pkg.deep_view(),
            out.deep_view() == spine_paths(pv, dir@, i as int),
        decreases pkg.spine@.len() - i,
    {
        assert(pv.spine[i as int] == pkg.spine@[i as int]@);
        if let Some(k) = find_item(&pkg.manifest, pkg.spine[i].as_str()) {
            assert(pv.manifest[k as int] == pkg.manifest@[k as int].deep_view());
            let h = string_of(&place(dir, &chars_of(pkg.manifest[k].href.as_str())));
            let ghost before = out;
            out.push(h);
            proof {
                deep_push(before, h, out);
            }
        }
        i = i + 1;
    }
    out
}

fn texts_of(v: &Vec<String>) -> (r: Vec<Vec<char>>)
    ensures
        texts(r@) == v.deep_view(),
{
    let mut out: Vec<Vec<char>> = Vec::new();
    let mut i: usize = 0;
    while i < v.len()
        invariant
            i <= v@.len(),
            out@.len() == i,
            forall|j: int| 0 <= j < i ==> (#[trigger] out@[j])@ == v@[j]@,
        decreases v@.len() - i,
    {
        out.push(chars_of(v[i].as_str()));
        i = i + 1;
    }
    assert(texts(out@) =~= v.deep_view());
    out
}

/// The file that a book gives as its cover.
pub fn find_cover(pkg: &Package) -> (r: Option<usize>)
    ensures
        match r {
            Some(i) => i < pkg.manifest@.len() && cover_item(pkg.deep_view()) == Some(i as int),
            None => cover_item(pkg.deep_view()) is None,
        },
{
    match find_property(&pkg.manifest, "cover-image") {
        Some(i) => Some(i),
        None => match &pkg.cover_id {
            Some(id) => find_item(&pkg.manifest, id.as_str()),
            None => None,
        },
    }
}

fn read_own_toc(archive: &Archive, pkg: &Package, opf_dir: &[char], keys: &Vec<Vec<char>>) -> (r:
    Vec<TocItem>)
    ensures
        r.deep_view() == own_toc(archive.deep_view(), pkg.deep_view(), opf_dir@, texts(keys@)),
{
    if let Some(h) = find_nav_doc(&pkg.manifest) {
        if let Ok(t) = parse_nav_toc(archive, h.as_str(), opf_dir, keys) {
            if t.len() > 0 {
                return t;
            }
        }
    }
    if let Some(h) = find_ncx_doc(&pkg.manifest) {
        if let Ok(t) = parse_ncx_toc(archive, h.as_str(), opf_dir, keys) {
            return t;
        }
    }
    let none: Vec<TocItem> = Vec::new();
    proof {
        deep_empty(none);
    }
    none
}

fn toc_of_spine(spine: &Vec<String>) -> (r: Vec<TocItem>)
    ensures
        r.deep_view() == spine_toc(spine.deep_view()),
{
    let ghost want = spine_toc(spine.deep_view());
    let mut out: Vec<TocItem> = Vec::new();
    proof {
        deep_empty(out);
        assert(want.take(0) =~= Seq::empty());
    }
    let mut i: usize = 0;
    while i < spine.len()
        invariant
            i <= spine@.len(),
            want == spine_toc(spine.deep_view()),
            out.deep_view() == want.take(i as int),
        decreases spine@.len() - i,
    {
        let node = TocItem {
            id: with_number("toc-", i as u64),
            label: fallback_title(spine[i].as_str()),
            chapter_index: i as u32,
            anchor: None,
            children: Vec::new(),
        };
        let ghost before = out;
        out.push(node);
        proof {
            toc_children_view(node);
            deep_empty(node.children);
            deep_push(before, node, out);
            take_push(want, i as int);
            assert(spine.deep_view()[i as int] == spine@[i as int]@);
            assert(node.deep_view() =~= want[i as int]);
        }
        i = i + 1;
    }
    assert(want.take(i as int) =~= want);
    out
}

/// Copies a table of contents.
pub fn copy_toc(toc: &Vec<TocItem>) -> (r: Vec<TocItem>)
    ensures
        r.deep_view() == toc.deep_view(),
{
    let mut out: Vec<TocItem> = Vec::new();
    proof {
        deep_empty(out);
        assert(toc.deep_view().take(0) =~= Seq::empty());
    }
    let mut i: usize = 0;
    while i < toc.len()
        invariant
            i <= toc@.len(),
            out.deep_view() == toc.deep_view().take(i as int),
        decreases toc@.len() - i,
    {
        let t = toc[i].clone();
        let ghost before = out;
        out.push(t);
        proof {
            deep_push(before, t, out);
            take_push(toc.deep_view(), i as int);
            assert(toc.deep_view()[i as int] == toc@[i as int].deep_view());
        }
        i = i + 1;
    }
    assert(toc.deep_view().take(i as int) =~= toc.deep_view());
    out
}

impl EpubBook {
    /// Opens the book whose file holds the given bytes.
    pub fn open(file: &BookFile, data: Vec<u8>) -> (r: AppResult<
        (BookMeta, Vec<TocItem>, EpubBook),
    >)
        ensures
            match r {
                Ok((meta, toc, book)) => epub_opened(file.deep_view(), data@) == Ok::<
                    (Meta, Seq<Toc>, Epub),
                    Failure,
                >((meta.deep_view(), toc.deep_view(), book.deep_view())),
                Err(e) => epub_opened(file.deep_view(), data@) == Err::<
                    (Meta, Seq<Toc>, Epub),
                    Failure,
                >(e@),
            },
    {
        let archive = match Archive::new(data) {
            Ok(a) => a,
            Err(e) => {
                return Err(e);
            },
        };
        let (opf, pkg) = match read_package_of(&archive) {
            Ok(p) => p,
            Err(e) => {
                return Err(e);
            },
        };
        let opf_dir = parent_of(&chars_of(opf.as_str()));
        let spine = read_spine(&pkg, &opf_dir);
        let keys = texts_of(&spine);
        let own = read_own_toc(&archive, &pkg, &opf_dir, &keys);
        let toc = if own.len() == 0 {
            toc_of_spine(&spine)
        } else {
            own
        };
        let cover_resource: Option<String> = match find_cover(&pkg) {
            Some(i) => {
                assert(pkg.deep_view().manifest[i as int] == pkg.manifest@[i as int].deep_view());
                Some(string_of(&place(&opf_dir, &chars_of(pkg.manifest[i].href.as_str()))))
            },
            None => None,
        };
        let book_id = make_book_id(file.canonical.as_str(), file.size);
        let title = match copy_text(&pkg.title) {
            Some(t) => t,
            None => title_from_path(file.windows, file.path.as_str()),
        };
        let meta = BookMeta {
            id: book_id.clone(),
            title,
            author: copy_text(&pkg.author),
            publisher: copy_text(&pkg.publisher),
            language: copy_text(&pkg.language),
            format: BookFormat::Epub,
            file_size: file.size,
            file_path: file.path.clone(),
            total_chapters: spine.len() as u32,
            cover_resource: copy_text(&cover_resource),
        };
        let ghost pv = pkg.deep_view();
        assert(meta.deep_view() =~= epub_meta(file.deep_view(), pv, opf_dir@));
        let out = copy_toc(&toc);
        let book = EpubBook {
            book_id,
            windows: file.windows,
            archive,
            spine,
            cover_resource,
            toc,
        };
        assert(book.deep_view() =~= epub_assembled(
            file.deep_view(),
            book.archive.deep_view(),
            opf@,
            pv,
        ).2);
        Ok((meta, out, book))
    }

    /// How many chapters the book has.
    pub fn chapter_count(&self) -> (r: usize)
        ensures
            r == self.deep_view().spine.len(),
    {
        self.spine.len()
    }

    /// Reads what stands at a path in the archive.
    pub fn read_bytes(&self, path: &str) -> (r: AppResult<Vec<u8>>)
        ensures
            match r {
                Ok(b) => entry_bytes(self.deep_view().zip, path@) == Ok::<Seq<u8>, Failure>(b@),
                Err(e) => entry_bytes(self.deep_view().zip, path@) == Err::<Seq<u8>, Failure>(e@),
            },
    {
        self.archive.read_entry_bytes(path)
    }
}

} // verus!
