//! ZIP archives held in memory, and how a path within one is found.
use vstd::prelude::*;
use crate::decoding::{from_utf8_lossy, utf8_lossy};
use crate::error::{AppError, AppResult, Failure};
use crate::text::{
    chars_of, contains, last_char, lower_ascii, occurs, part, rfind_char, same, to_lower_ascii,
};

verus! {

/// What can go wrong with an archive: the entry is missing (as shown), its form is not supported (for a
/// reason, and as shown), it could not be read, or something else.
#[derive(Debug)]
pub enum ZipFault {
    NotFound(String),
    Unsupported(String, String),
    Io(String),
    Other(String),
}

/// `ZipFault` over character sequences.
#[verifier::ext_equal]
pub enum Fault {
    NotFound(Seq<char>),
    Unsupported(Seq<char>, Seq<char>),
    Io(Seq<char>),
    Other(Seq<char>),
}

impl View for ZipFault {
    type V = Fault;

    open spec fn view(&self) -> Fault {
        match *self {
            ZipFault::NotFound(a) => Fault::NotFound(a@),
            ZipFault::Unsupported(a, b) => Fault::Unsupported(a@, b@),
            ZipFault::Io(a) => Fault::Io(a@),
            ZipFault::Other(a) => Fault::Other(a@),
        }
    }
}

/// The names of the entries of an archive, in its own order.
pub uninterp spec fn zip_names(data: Seq<u8>) -> Result<Seq<Seq<char>>, Fault>;

/// The size that an archive states for an entry.
pub uninterp spec fn zip_size(data: Seq<u8>, name: Seq<char>) -> Result<u64, Fault>;

/// The content of an entry, cut off after `limit` bytes.
pub uninterp spec fn zip_content(data: Seq<u8>, name: Seq<char>, limit: u64) -> Result<
    Seq<u8>,
    Fault,
>;

/// The names of the entries of an archive, in its own order, where each of them can be opened;
/// else the first fault.
pub uninterp spec fn zip_openable(data: Seq<u8>) -> Result<Seq<Seq<char>>, Fault>;

/// `zip::ZipArchive::new` and `zip::ZipArchive::file_names`: the names that the central
/// directory lists, under the name `zip_names`.
#[verifier::external_body]
fn names_in(data: &[u8]) -> (r: Result<Vec<String>, ZipFault>)
    ensures
        match r {
            Ok(v) => zip_names(data@) == Ok::<Seq<Seq<char>>, Fault>(v.deep_view()),
            Err(e) => zip_names(data@) == Err::<Seq<Seq<char>>, Fault>(e@),
        },
{
    match zip::ZipArchive::new(std::io::Cursor::new(data)) {
        Ok(archive) => Ok(archive.file_names().map(|n| n.to_string()).collect()),
        Err(e) => Err(match &e {
            zip::result::ZipError::FileNotFound => ZipFault::NotFound(e.to_string()),
            zip::result::ZipError::UnsupportedArchive(m) => {
                ZipFault::Unsupported(m.to_string(), e.to_string())
            },
            _ => ZipFault::Other(e.to_string()),
        }),
    }
}

/// `zip::ZipArchive::by_name` and `zip::read::ZipFile::size`: the size stated for an entry that
/// can be opened, under the name `zip_size`.
#[verifier::external_body]
fn size_in(data: &[u8], name: &str) -> (r: Result<u64, ZipFault>)
    ensures
        match r {
            Ok(n) => zip_size(data@, name@) == Ok::<u64, Fault>(n),
            Err(e) => zip_size(data@, name@) == Err::<u64, Fault>(e@),
        },
{
    let fault = |e: zip::result::ZipError| match &e {
        zip::result::ZipError::FileNotFound => ZipFault::NotFound(e.to_string()),
        zip::result::ZipError::UnsupportedArchive(m) => {
            ZipFault::Unsupported(m.to_string(), e.to_string())
        },
        _ => ZipFault::Other(e.to_string()),
    };
    let mut archive = zip::ZipArchive::new(std::io::Cursor::new(data)).map_err(fault)?;
    let entry = archive.by_name(name).map_err(fault)?;
    Ok(entry.size())
}

/// `zip::ZipArchive::by_name`, read to its end or to the limit: the content of the entry, no
/// longer than the limit, under the name `zip_content`.
#[verifier::external_body]
fn content_in(data: &[u8], name: &str, limit: u64) -> (r: Result<Vec<u8>, ZipFault>)
    ensures
        match r {
            Ok(b) => zip_content(data@, name@, limit) == Ok::<Seq<u8>, Fault>(b@) && b@.len()
                <= limit,
            Err(e) => zip_content(data@, name@, limit) == Err::<Seq<u8>, Fault>(e@),
        },
{
    let fault = |e: zip::result::ZipError| match &e {
        zip::result::ZipError::FileNotFound => ZipFault::NotFound(e.to_string()),
        zip::result::ZipError::UnsupportedArchive(m) => {
            ZipFault::Unsupported(m.to_string(), e.to_string())
        },
        _ => ZipFault::Other(e.to_string()),
    };
    let mut archive = zip::ZipArchive::new(std::io::Cursor::new(data)).map_err(fault)?;
    let mut entry = std::io::Read::take(archive.by_name(name).map_err(fault)?, limit);
    let mut out = Vec::new();
    std::io::Read::read_to_end(&mut entry, &mut out).map_err(|e| ZipFault::Io(e.to_string()))?;
    Ok(out)
}

/// `zip::ZipArchive::by_index` of every entry, and `zip::read::ZipFile::name`: the names of all
/// entries, or the fault of the first that cannot be opened, under the name `zip_openable`.
#[verifier::external_body]
fn openable_in(data: &[u8]) -> (r: Result<Vec<String>, ZipFault>)
    ensures
        match r {
            Ok(v) => zip_openable(data@) == Ok::<Seq<Seq<char>>, Fault>(v.deep_view()),
            Err(e) => zip_openable(data@) == Err::<Seq<Seq<char>>, Fault>(e@),
        },
{
    let fault = |e: zip::result::ZipError| match &e {
        zip::result::ZipError::FileNotFound => ZipFault::NotFound(e.to_string()),
        zip::result::ZipError::UnsupportedArchive(m) => {
            ZipFault::Unsupported(m.to_string(), e.to_string())
        },
        _ => ZipFault::Other(e.to_string()),
    };
    let mut archive = zip::ZipArchive::new(std::io::Cursor::new(data)).map_err(fault)?;
    let all = 0..archive.len();
    all.map(|i| Ok(archive.by_index(i).map_err(fault)?.name().to_string())).collect()
}

/// An archive in memory: its bytes, and the names of its entries.
pub struct Archive {
    data: Vec<u8>,
    names: Vec<String>,
}

/// An archive over sequences.
#[verifier::ext_equal]
pub struct Zip {
    pub data: Seq<u8>,
    pub names: Seq<Seq<char>>,
}

impl DeepView for Archive {
    type V = Zip;

    closed spec fn deep_view(&self) -> Zip {
        Zip { data: self.data@, names: self.names.deep_view() }
    }
}

/// The error that a fault is reported as: encrypted content is DRM, a missing entry a missing
/// resource.
pub open spec fn fault_error(f: Fault, path: Seq<char>) -> Failure {
    match f {
        Fault::NotFound(shown) => Failure::ResourceNotFound(path),
        Fault::Unsupported(reason, shown) => if occurs(lower_ascii(reason), "password"@) {
            Failure::DrmDetected
        } else {
            Failure::Zip(shown)
        },
        Fault::Io(shown) => Failure::Io(shown),
        Fault::Other(shown) => Failure::Zip(shown),
    }
}

/// Reports a fault.
pub fn report_fault(f: ZipFault, path: &str) -> (r: AppError)
    ensures
        r@ == fault_error(f@, path@),
{
    match f {
        ZipFault::NotFound(_) => AppError::ResourceNotFound(path.to_owned()),
        ZipFault::Unsupported(reason, shown) => {
            let low = to_lower_ascii(&chars_of(reason.as_str()));
            let word = chars_of("password");
            if contains(&low, &word) {
                AppError::DrmDetected
            } else {
                AppError::Zip(shown)
            }
        },
        ZipFault::Io(shown) => AppError::Io(shown),
        ZipFault::Other(shown) => AppError::Zip(shown),
    }
}

/// What is shown for a fault that is reported as a fault of the archive.
pub open spec fn fault_shown(f: Fault) -> Seq<char> {
    match f {
        Fault::NotFound(shown) => shown,
        Fault::Unsupported(reason, shown) => shown,
        Fault::Io(shown) => shown,
        Fault::Other(shown) => shown,
    }
}

/// The error of an archive that a fault is reported as, whatever it is; only reading keeps its
/// own error.
pub open spec fn zip_error(f: Fault) -> Failure {
    match f {
        Fault::Io(shown) => Failure::Io(shown),
        _ => Failure::Zip(fault_shown(f)),
    }
}

/// Reports a fault as an error of the archive.
pub fn report_zip_fault(f: ZipFault) -> (r: AppError)
    ensures
        r@ == zip_error(f@),
{
    match f {
        ZipFault::NotFound(shown) => AppError::Zip(shown),
        ZipFault::Unsupported(reason, shown) => AppError::Zip(shown),
        ZipFault::Io(shown) => AppError::Io(shown),
        ZipFault::Other(shown) => AppError::Zip(shown),
    }
}

// ---------------------------------------------------------------------------
// Finding an entry
// ---------------------------------------------------------------------------

/// The folder of a path, where it names one.
pub open spec fn folder(p: Seq<char>) -> Option<Seq<char>> {
    match last_char(p, '/') {
        Some(i) => Some(p.take(i)),
        None => None,
    }
}

/// What follows the last slash of a path.
pub open spec fn leaf(p: Seq<char>) -> Seq<char> {
    match last_char(p, '/') {
        Some(i) => p.skip(i + 1),
        None => p,
    }
}

/// How well an entry fits a path, the letters' case aside: 1 where the paths agree, 2 where the
/// folder and the name do, 3 where only the name does, 4 not at all. A folder's own entry fits
/// nothing.
pub open spec fn rank(name: Seq<char>, want: Seq<char>) -> int {
    let low = lower_ascii(name);
    if name.len() > 0 && name.last() == '/' {
        4
    } else if low == want {
        1
    } else if leaf(low) != leaf(want) {
        4
    } else if folder(low) == folder(want) {
        2
    } else {
        3
    }
}

/// The entry that fits a path best among the first `k`: the earliest of those with the best
/// rank.
pub open spec fn best_fit(names: Seq<Seq<char>>, want: Seq<char>, k: int) -> Option<int>
    decreases k,
{
    if k <= 0 || k > names.len() {
        None
    } else {
        match best_fit(names, want, k - 1) {
            Some(b) => if rank(names[k - 1], want) < rank(names[b], want) {
                Some(k - 1)
            } else {
                Some(b)
            },
            None => if rank(names[k - 1], want) < 4 {
                Some(k - 1)
            } else {
                None
            },
        }
    }
}

/// The entry that stands for a path: the one with that very name, else the one that fits best.
pub open spec fn located(z: Zip, path: Seq<char>) -> Option<Seq<char>> {
    if zip_size(z.data, path) is Ok {
        Some(path)
    } else {
        match best_fit(z.names, lower_ascii(path), z.names.len() as int) {
            Some(i) => Some(z.names[i]),
            None => None,
        }
    }
}

/// The content of the entry that stands for a path.
pub open spec fn entry_bytes(z: Zip, path: Seq<char>) -> Result<Seq<u8>, Failure> {
    match located(z, path) {
        None => Err(Failure::ResourceNotFound(path)),
        Some(actual) => match zip_content(z.data, actual, u64::MAX) {
            Ok(b) => Ok(b),
            Err(f) => Err(fault_error(f, path)),
        },
    }
}

/// The content of the entry that stands for a path, as text.
pub open spec fn entry_text(z: Zip, path: Seq<char>) -> Result<Seq<char>, Failure> {
    match entry_bytes(z, path) {
        Ok(b) => Ok(utf8_lossy(b)),
        Err(e) => Err(e),
    }
}

/// The best fit has the least rank of all, and nothing before it has the same.
pub proof fn best_fit_is_best(names: Seq<Seq<char>>, want: Seq<char>, k: int)
    requires
        0 <= k <= names.len(),
    ensures
        match best_fit(names, want, k) {
            Some(b) => {
                &&& 0 <= b < k
                &&& rank(names[b], want) < 4
                &&& forall|j: int| 0 <= j < k ==> rank(names[b], want) <= rank(names[j], want)
                &&& forall|j: int| 0 <= j < b ==> rank(names[b], want) < rank(names[j], want)
            },
            None => forall|j: int| 0 <= j < k ==> rank(names[j], want) == 4,
        },
    decreases k,
{
    if k > 0 {
        best_fit_is_best(names, want, k - 1);
    }
}

/// An entry whose path agrees with the one asked for, the letters' case aside, is preferred to
/// all others.
pub proof fn same_path_is_preferred(names: Seq<Seq<char>>, want: Seq<char>, i: int)
    requires
        0 <= i < names.len(),
        rank(names[i], want) == 1,
    ensures
        best_fit(names, want, names.len() as int) matches Some(b) && rank(names[b], want) == 1
            && b <= i,
{
    best_fit_is_best(names, want, names.len() as int);
}

fn leaf_of(p: &[char]) -> (r: Vec<char>)
    ensures
        r@ == leaf(p@),
{
    match rfind_char(p, '/') {
        Some(i) => {
            let n = p.len();
            let r = part(p, i + 1, n);
            assert(r@ =~= p@.skip(i + 1));
            r
        },
        None => {
            let r = part(p, 0, p.len());
            assert(r@ =~= p@);
            r
        },
    }
}

fn same_folder(a: &[char], b: &[char]) -> (r: bool)
    ensures
        r == (folder(a@) == folder(b@)),
{
    match (rfind_char(a, '/'), rfind_char(b, '/')) {
        (Some(i), Some(j)) => {
            let x = part(a, 0, i);
            let y = part(b, 0, j);
            assert(x@ =~= a@.take(i as int));
            assert(y@ =~= b@.take(j as int));
            same(&x, &y)
        },
        (None, None) => true,
        _ => false,
    }
}

/// How well an entry fits a path.
pub fn rank_of(name: &[char], want: &[char]) -> (r: u8)
    ensures
        r == rank(name@, want@),
        1 <= r <= 4,
{
    let n = name.len();
    if n > 0 && name[n - 1] == '/' {
        return 4;
    }
    let low = to_lower_ascii(name);
    if same(&low, want) {
        return 1;
    }
    let a = leaf_of(&low);
    let b = leaf_of(want);
    if !same(&a, &b) {
        return 4;
    }
    if same_folder(&low, want) {
        2
    } else {
        3
    }
}

/// The entry among the names that fits a path best.
pub fn pick_entry(names: &Vec<String>, path: &[char]) -> (r: Option<usize>)
    ensures
        match r {
            Some(i) => i < names@.len() && best_fit(
                names.deep_view(),
                lower_ascii(path@),
                names@.len() as int,
            ) == Some(i as int),
            None => best_fit(names.deep_view(), lower_ascii(path@), names@.len() as int) is None,
        },
{
    let want = to_lower_ascii(path);
    let ghost all = names.deep_view();
    let mut best: Option<(u8, usize)> = None;
    let mut i: usize = 0;
    while i < names.len()
        invariant
            i <= names@.len(),
            all == names.deep_view(),
            match best {
                Some((k, b)) => b < i && k == rank(all[b as int], want@) && best_fit(
                    all,
                    want@,
                    i as int,
                ) == Some(b as int),
                None => best_fit(all, want@, i as int) is None,
            },
        decreases names@.len() - i,
    {
        let name = chars_of(names[i].as_str());
        assert(all[i as int] == name@);
        let k = rank_of(&name, &want);
        let better = match best {
            Some((old_rank, _)) => k < old_rank,
            None => k < 4,
        };
        if better {
            best = Some((k, i));
        }
        i = i + 1;
    }
    match best {
        Some((_, b)) => Some(b),
        None => None,
    }
}

impl Archive {
    /// The names listed are those of the archive.
    pub open spec fn wf(&self) -> bool {
        zip_names(self.deep_view().data) == Ok::<Seq<Seq<char>>, Fault>(self.deep_view().names)
    }

    /// Opens an archive.
    pub fn new(data: Vec<u8>) -> (r: AppResult<Archive>)
        ensures
            match r {
                Ok(a) => zip_names(data@) is Ok && a.wf() && a.deep_view() == (Zip {
                    data: data@,
                    names: zip_names(data@)->Ok_0,
                }),
                Err(e) => zip_names(data@) matches Err(f) && e@ == opening_error(f),
            },
    {
        match names_in(data.as_slice()) {
            Ok(names) => Ok(Archive { data, names }),
            Err(ZipFault::NotFound(shown)) => Err(AppError::Zip(shown)),
            Err(f) => Err(report_fault(f, "")),
        }
    }

    /// Opens an archive; a fault is one of the archive, whatever it is.
    pub fn open_plain(data: Vec<u8>) -> (r: AppResult<Archive>)
        ensures
            match r {
                Ok(a) => zip_names(data@) is Ok && a.wf() && a.deep_view() == (Zip {
                    data: data@,
                    names: zip_names(data@)->Ok_0,
                }),
                Err(e) => zip_names(data@) matches Err(f) && e@ == zip_error(f),
            },
    {
        match names_in(data.as_slice()) {
            Ok(names) => Ok(Archive { data, names }),
            Err(f) => Err(report_zip_fault(f)),
        }
    }

    /// The entry that stands for a path.
    pub fn locate_entry_name(&self, path: &str) -> (r: Option<String>)
        ensures
            match r {
                Some(n) => located(self.deep_view(), path@) == Some(n@),
                None => located(self.deep_view(), path@) is None,
            },
    {
        if size_in(self.data.as_slice(), path).is_ok() {
            return Some(path.to_owned());
        }
        let p = chars_of(path);
        match pick_entry(&self.names, &p) {
            Some(i) => Some(self.names[i].clone()),
            None => None,
        }
    }

    /// The size stated for an entry.
    pub fn size(&self, name: &str) -> (r: Result<u64, ZipFault>)
        ensures
            match r {
                Ok(n) => zip_size(self.deep_view().data, name@) == Ok::<u64, Fault>(n),
                Err(e) => zip_size(self.deep_view().data, name@) == Err::<u64, Fault>(e@),
            },
    {
        size_in(self.data.as_slice(), name)
    }

    /// The content of an entry, cut off after `limit` bytes.
    pub fn content(&self, name: &str, limit: u64) -> (r: Result<Vec<u8>, ZipFault>)
        ensures
            match r {
                Ok(b) => zip_content(self.deep_view().data, name@, limit) == Ok::<Seq<u8>, Fault>(
                    b@,
                ) && b@.len() <= limit,
                Err(e) => zip_content(self.deep_view().data, name@, limit) == Err::<
                    Seq<u8>,
                    Fault,
                >(e@),
            },
    {
        content_in(self.data.as_slice(), name, limit)
    }

    /// The names of the entries, where each can be opened.
    pub fn openable_names(&self) -> (r: Result<Vec<String>, ZipFault>)
        ensures
            match r {
                Ok(v) => zip_openable(self.deep_view().data) == Ok::<Seq<Seq<char>>, Fault>(
                    v.deep_view(),
                ),
                Err(e) => zip_openable(self.deep_view().data) == Err::<Seq<Seq<char>>, Fault>(e@),
            },
    {
        openable_in(self.data.as_slice())
    }

    /// Reads the entry that stands for a path.
    pub fn read_entry_bytes(&self, path: &str) -> (r: AppResult<Vec<u8>>)
        ensures
            match r {
                Ok(b) => entry_bytes(self.deep_view(), path@) == Ok::<Seq<u8>, Failure>(b@),
                Err(e) => entry_bytes(self.deep_view(), path@) == Err::<Seq<u8>, Failure>(e@),
            },
    {
        match self.locate_entry_name(path) {
            None => Err(AppError::ResourceNotFound(path.to_owned())),
            Some(actual) => match self.content(actual.as_str(), u64::MAX) {
                Ok(b) => Ok(b),
                Err(f) => Err(report_fault(f, path)),
            },
        }
    }

    /// Reads the entry that stands for a path as text.
    pub fn read_entry_string(&self, path: &str) -> (r: AppResult<String>)
        ensures
            match r {
                Ok(s) => entry_text(self.deep_view(), path@) == Ok::<Seq<char>, Failure>(s@),
                Err(e) => entry_text(self.deep_view(), path@) == Err::<Seq<char>, Failure>(e@),
            },
    {
        match self.read_entry_bytes(path) {
            Ok(b) => Ok(from_utf8_lossy(b.as_slice())),
            Err(e) => Err(e),
        }
    }
}

/// The error that a fault on opening is reported as.
pub open spec fn opening_error(f: Fault) -> Failure {
    match f {
        Fault::NotFound(shown) => Failure::Zip(shown),
        _ => fault_error(f, Seq::empty()),
    }
}

} // verus!
