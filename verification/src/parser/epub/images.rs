//! The images of an EPUB that may be its cover.
use vstd::prelude::*;
use crate::archive::{
    located, report_zip_fault, zip_content, zip_error, zip_names, zip_size, Archive, Zip,
};
use crate::error::{AppResult, Failure};
use crate::parser::covers::{cover_bytes, with_cover, Candidates, Cover, MAX_IMAGE_BYTES};
use crate::parser::epub::book::{package_of, read_package_of};
use crate::parser::epub::hrefs::{parent, parent_of, place, placed};
use crate::parser::epub::opf::{find_property, item_with_property, Item, ManifestItem, Package, Pkg};
use crate::text::{chars_of, is_at, same_str, starts, string_of};

verus! {

/// The first file with an identifier, from the `i`-th on.
pub open spec fn first_by_id(m: Seq<Item>, id: Seq<char>, i: int) -> Option<int>
    decreases m.len() - i,
{
    if i < 0 || i >= m.len() {
        None
    } else if m[i].id == id {
        Some(i)
    } else {
        first_by_id(m, id, i + 1)
    }
}

/// The file that is the default cover: one with that property, else the one that the metadata
/// names.
pub open spec fn default_cover(pkg: Pkg) -> Option<int> {
    match item_with_property(pkg.manifest, "cover-image"@, 0) {
        Some(i) => Some(i),
        None => match pkg.cover_id {
            Some(id) => first_by_id(pkg.manifest, id, 0),
            None => None,
        },
    }
}

/// What offering a file adds. One that is not in the archive or is too large adds nothing.
pub open spec fn offered(
    z: Zip,
    dir: Seq<char>,
    item: Item,
    primary: bool,
    list: Seq<Cover>,
) -> Result<Seq<Cover>, Failure> {
    match located(z, placed(dir, item.href)) {
        None => Ok(list),
        Some(name) => match zip_size(z.data, name) {
            Err(f) => Err(zip_error(f)),
            Ok(size) => if size > MAX_IMAGE_BYTES {
                Ok(list)
            } else {
                match zip_content(z.data, name, (MAX_IMAGE_BYTES + 1) as u64) {
                    Err(f) => Err(zip_error(f)),
                    Ok(bytes) => Ok(with_cover(list, bytes, primary)),
                }
            },
        },
    }
}

/// What offering the images among the files from the `i`-th on adds.
pub open spec fn offered_from(
    z: Zip,
    dir: Seq<char>,
    m: Seq<Item>,
    default_id: Option<Seq<char>>,
    i: int,
    list: Seq<Cover>,
) -> Result<Seq<Cover>, Failure>
    decreases m.len() - i,
{
    if i < 0 || i >= m.len() {
        Ok(list)
    } else if !starts(m[i].media_type, "image/"@) {
        offered_from(z, dir, m, default_id, i + 1, list)
    } else {
        match offered(z, dir, m[i], default_id == Some(m[i].id), list) {
            Err(e) => Err(e),
            Ok(next) => offered_from(z, dir, m, default_id, i + 1, next),
        }
    }
}

/// The covers that a package file lists: the default one is offered first, then every image.
pub open spec fn covers_of(z: Zip, dir: Seq<char>, pkg: Pkg) -> Result<Seq<Cover>, Failure> {
    match default_cover(pkg) {
        Some(k) => match offered(z, dir, pkg.manifest[k], true, Seq::empty()) {
            Err(e) => Err(e),
            Ok(list) => offered_from(
                z,
                dir,
                pkg.manifest,
                Some(pkg.manifest[k].id),
                0,
                list,
            ),
        },
        None => offered_from(z, dir, pkg.manifest, None, 0, Seq::empty()),
    }
}

/// The covers of a book.
pub open spec fn epub_covers(data: Seq<u8>) -> Result<Seq<Seq<u8>>, Failure> {
    match zip_names(data) {
        Err(f) => Err(zip_error(f)),
        Ok(names) => {
            let z = Zip { data, names };
            match package_of(z) {
                Err(e) => Err(e),
                Ok((opf, pkg)) => match covers_of(z, parent(opf), pkg) {
                    Err(e) => Err(e),
                    Ok(list) => Ok(cover_bytes(list)),
                },
            }
        },
    }
}

fn find_first(m: &Vec<ManifestItem>, id: &str) -> (r: Option<usize>)
    ensures
        match r {
            Some(i) => i < m@.len() && first_by_id(m.deep_view(), id@, 0) == Some(i as int),
            None => first_by_id(m.deep_view(), id@, 0) is None,
        },
{
    let mut i: usize = 0;
    while i < m.len()
        invariant
            i <= m@.len(),
            first_by_id(m.deep_view(), id@, 0) == first_by_id(m.deep_view(), id@, i as int),
        decreases m@.len() - i,
    {
        assert(m.deep_view()[i as int] == m@[i as int].deep_view());
        if same_str(m[i].id.as_str(), id) {
            return Some(i);
        }
        i = i + 1;
    }
    None
}

fn find_default(pkg: &Package) -> (r: Option<usize>)
    ensures
        match r {
            Some(i) => i < pkg.manifest@.len() && default_cover(pkg.deep_view()) == Some(i as int),
            None => default_cover(pkg.deep_view()) is None,
        },
{
    match find_property(&pkg.manifest, "cover-image") {
        Some(i) => Some(i),
        None => match &pkg.cover_id {
            Some(id) => find_first(&pkg.manifest, id.as_str()),
            None => None,
        },
    }
}

fn offer(
    archive: &Archive,
    dir: &[char],
    item: &ManifestItem,
    primary: bool,
    list: &mut Candidates,
) -> (r: AppResult<()>)
    requires
        old(list).wf(),
    ensures
        final(list).wf(),
        match r {
            Ok(_) => offered(
                archive.deep_view(),
                dir@,
                item.deep_view(),
                primary,
                old(list).deep_view(),
            ) == Ok::<Seq<Cover>, Failure>(final(list).deep_view()),
            Err(e) => offered(
                archive.deep_view(),
                dir@,
                item.deep_view(),
                primary,
                old(list).deep_view(),
            ) == Err::<Seq<Cover>, Failure>(e@),
        },
{
    let path = string_of(&place(dir, &chars_of(item.href.as_str())));
    let name = match archive.locate_entry_name(path.as_str()) {
        Some(n) => n,
        None => {
            return Ok(());
        },
    };
    match archive.size(name.as_str()) {
        Err(f) => Err(report_zip_fault(f)),
        Ok(size) => {
            if size > MAX_IMAGE_BYTES {
                return Ok(());
            }
            match archive.content(name.as_str(), MAX_IMAGE_BYTES + 1) {
                Err(f) => Err(report_zip_fault(f)),
                Ok(bytes) => {
                    list.push(bytes, primary);
                    Ok(())
                },
            }
        },
    }
}

/// The images that a package file lists, as covers.
pub fn collect_covers(archive: &Archive, dir: &[char], pkg: &Package) -> (r: AppResult<Candidates>)
    ensures
        match r {
            Ok(c) => c.wf() && covers_of(archive.deep_view(), dir@, pkg.deep_view()) == Ok::<
                Seq<Cover>,
                Failure,
            >(c.deep_view()),
            Err(e) => covers_of(archive.deep_view(), dir@, pkg.deep_view()) == Err::<
                Seq<Cover>,
                Failure,
            >(e@),
        },
{
    let ghost z = archive.deep_view();
    let ghost m = pkg.deep_view().manifest;
    let mut list = Candidates::default();
    let primary = find_default(pkg);
    if let Some(k) = primary {
        assert(m[k as int] == pkg.manifest@[k as int].deep_view());
        if let Err(e) = offer(archive, dir, &pkg.manifest[k], true, &mut list) {
            return Err(e);
        }
    }
    let ghost id: Option<Seq<char>> = match primary {
        Some(k) => Some(m[k as int].id),
        None => None,
    };
    let prefix = chars_of("image/");
    let mut i: usize = 0;
    while i < pkg.manifest.len()
        invariant
            i <= pkg.manifest@.len(),
            z == archive.deep_view(),
            m == pkg.deep_view().manifest,
            prefix@ == "image/"@,
            list.wf(),
            primary matches Some(k) ==> k < pkg.manifest@.len() && id == Some(m[k as int].id),
            primary is None ==> id is None,
            covers_of(z, dir@, pkg.deep_view()) == offered_from(
                z,
                dir@,
                m,
                id,
                i as int,
                list.deep_view(),
            ),
        decreases pkg.manifest@.len() - i,
    {
        assert(m[i as int] == pkg.manifest@[i as int].deep_view());
        if is_at(&chars_of(pkg.manifest[i].media_type.as_str()), 0, &prefix) {
            let first = match primary {
                Some(k) => {
                    assert(m[k as int] == pkg.manifest@[k as int].deep_view());
                    same_str(pkg.manifest[k].id.as_str(), pkg.manifest[i].id.as_str())
                },
                None => false,
            };
            assert(first == (id == Some(m[i as int].id)));
            if let Err(e) = offer(archive, dir, &pkg.manifest[i], first, &mut list) {
                return Err(e);
            }
        }
        i = i + 1;
    }
    Ok(list)
}

/// The covers of a book, best first.
pub fn cover_candidates(data: Vec<u8>) -> (r: AppResult<Vec<Vec<u8>>>)
    ensures
        match r {
            Ok(v) => epub_covers(data@) == Ok::<Seq<Seq<u8>>, Failure>(v.deep_view()),
            Err(e) => epub_covers(data@) == Err::<Seq<Seq<u8>>, Failure>(e@),
        },
{
    let archive = match Archive::open_plain(data) {
        Ok(a) => a,
        Err(e) => {
            return Err(e);
        },
    };
    match read_package_of(&archive) {
        Err(e) => Err(e),
        Ok((opf, pkg)) => {
            let dir = parent_of(&chars_of(opf.as_str()));
            match collect_covers(&archive, &dir, &pkg) {
                Err(e) => Err(e),
                Ok(list) => Ok(list.finish()),
            }
        },
    }
}

} // verus!
