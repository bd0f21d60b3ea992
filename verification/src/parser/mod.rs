//! Reading books: what the formats have in common.
use vstd::prelude::*;
use crate::error::{AppError, AppResult, Failure};
use crate::model::BookFormat;
use crate::numbers::{padded, parse, parsed, written, write_number};
use crate::paths::{extension_of, file_name, lower_extension, name_of, stem, stem_of};
use crate::text::{
    char_from, chars_of, find_char, last_char, lower_ascii, part, push_all, push_str, replace,
    replaced, rfind_char, same, starts, is_at, string_of, to_lower_ascii,
};

pub mod cbz;
pub mod contents;
pub mod covers;
pub mod epub;
pub mod escapes;
pub mod fb2;
pub mod markdown;
pub mod mobi;
pub mod naming;
pub mod outline;
pub mod pictures;
pub mod session;
pub mod txt;

verus! {

/// Whether the characters are those of a word.
pub fn is_word(s: &[char], w: &str) -> (r: bool)
    ensures
        r == (s@ == w@),
{
    let v = chars_of(w);
    same(s, &v)
}

// ---------------------------------------------------------------------------
// Which book it is
// ---------------------------------------------------------------------------

/// The hash of a path and a size.
pub uninterp spec fn path_hash(path: Seq<char>, file_size: u64) -> u64;

/// `std::hash::DefaultHasher::new`, fed with the text and then the bytes of the size, the low one
/// first. Every hasher made by `new` is the same, so the hash is a function of the two; it has the
/// name `path_hash`. Another release of std may hash otherwise.
#[verifier::external_body]
fn hash_path(path: &str, file_size: u64) -> (r: u64)
    ensures
        r == path_hash(path@, file_size),
{
    let mut hasher = std::collections::hash_map::DefaultHasher::new();
    std::hash::Hash::hash(path, &mut hasher);
    std::hash::Hasher::write(&mut hasher, &file_size.to_le_bytes());
    std::hash::Hasher::finish(&hasher)
}

/// The identifier that a hash gives: `bk` and sixteen hexadecimal digits.
pub open spec fn book_id(hash: u64) -> Seq<char> {
    "bk"@ + padded(written(hash as int, 16), '0', 16)
}

/// Writes the identifier that a hash gives.
pub fn book_id_of(hash: u64) -> (r: String)
    ensures
        r@ == book_id(hash),
{
    let digits = write_number(hash, 16);
    let full = crate::numbers::pad(&digits, '0', 16);
    let mut out = chars_of("bk");
    push_all(&mut out, &full);
    string_of(&out)
}

/// The identifier of the book at an absolute path with a given size. The same path and size give
/// the same identifier, on which the saved progress of a book relies.
pub fn make_book_id(path: &str, file_size: u64) -> (r: String)
    ensures
        r@ == book_id(path_hash(path@, file_size)),
{
    book_id_of(hash_path(path, file_size))
}

/// The format that an extension stands for.
pub open spec fn format_of(ext: Seq<char>) -> Option<BookFormat> {
    if ext == "epub"@ {
        Some(BookFormat::Epub)
    } else if ext == "mobi"@ || ext == "prc"@ || ext == "azw"@ {
        Some(BookFormat::Mobi)
    } else if ext == "azw3"@ || ext == "kf8"@ {
        Some(BookFormat::Azw3)
    } else if ext == "txt"@ || ext == "log"@ {
        Some(BookFormat::Txt)
    } else if ext == "md"@ || ext == "markdown"@ {
        Some(BookFormat::Markdown)
    } else if ext == "cbz"@ {
        Some(BookFormat::Cbz)
    } else if ext == "fb2"@ || ext == "fbz"@ {
        Some(BookFormat::Fb2)
    } else if ext == "pdf"@ {
        Some(BookFormat::Pdf)
    } else {
        None
    }
}

/// The first bytes are those of a ZIP archive.
pub open spec fn zip_head(head: Seq<u8>) -> bool {
    head.len() >= 2 && head[0] == 0x50 && head[1] == 0x4b
}

/// The bytes at offset 60 say `BOOKMOBI` or `TEXtREAd`.
pub open spec fn mobi_head(head: Seq<u8>) -> bool {
    head.len() >= 68 && (head.subrange(60, 68) == seq![
        0x42u8,
        0x4f,
        0x4f,
        0x4b,
        0x4d,
        0x4f,
        0x42,
        0x49,
    ] || head.subrange(60, 68) == seq![0x54u8, 0x45, 0x58, 0x74, 0x52, 0x45, 0x41, 0x64])
}

/// The format of a file, by its extension and then by its first bytes.
pub open spec fn detected(windows: bool, path: Seq<char>, head: Seq<u8>) -> Result<BookFormat, Failure> {
    let ext = lower_extension(windows, path);
    match format_of(ext) {
        None => Err(Failure::UnsupportedFormat(ext)),
        Some(f) => if f == BookFormat::Epub && !zip_head(head) {
            Err(Failure::Other("EPUB 文件头校验失败（非 ZIP 容器）"@))
        } else if (f == BookFormat::Mobi || f == BookFormat::Azw3) && !mobi_head(head) {
            Err(Failure::Other("MOBI 文件头校验失败"@))
        } else if f == BookFormat::Cbz && !zip_head(head) {
            Err(Failure::Other("CBZ 文件头校验失败（非 ZIP 容器）"@))
        } else {
            Ok(f)
        },
    }
}

/// The format that an extension stands for.
pub fn format_of_extension(ext: &[char]) -> (r: Option<BookFormat>)
    ensures
        r == format_of(ext@),
{
    if is_word(ext, "epub") {
        Some(BookFormat::Epub)
    } else if is_word(ext, "mobi") || is_word(ext, "prc") || is_word(ext, "azw") {
        Some(BookFormat::Mobi)
    } else if is_word(ext, "azw3") || is_word(ext, "kf8") {
        Some(BookFormat::Azw3)
    } else if is_word(ext, "txt") || is_word(ext, "log") {
        Some(BookFormat::Txt)
    } else if is_word(ext, "md") || is_word(ext, "markdown") {
        Some(BookFormat::Markdown)
    } else if is_word(ext, "cbz") {
        Some(BookFormat::Cbz)
    } else if is_word(ext, "fb2") || is_word(ext, "fbz") {
        Some(BookFormat::Fb2)
    } else if is_word(ext, "pdf") {
        Some(BookFormat::Pdf)
    } else {
        None
    }
}

fn is_zip_head(head: &[u8]) -> (r: bool)
    ensures
        r == zip_head(head@),
{
    head.len() >= 2 && head[0] == 0x50 && head[1] == 0x4b
}

fn is_mobi_head(head: &[u8]) -> (r: bool)
    ensures
        r == mobi_head(head@),
{
    if head.len() < 68 {
        return false;
    }
    let book = head[60] == 0x42 && head[61] == 0x4f && head[62] == 0x4f && head[63] == 0x4b
        && head[64] == 0x4d && head[65] == 0x4f && head[66] == 0x42 && head[67] == 0x49;
    let read = head[60] == 0x54 && head[61] == 0x45 && head[62] == 0x58 && head[63] == 0x74
        && head[64] == 0x52 && head[65] == 0x45 && head[66] == 0x41 && head[67] == 0x64;
    let ghost m = head@.subrange(60, 68);
    proof {
        assert(m[0] == head@[60] && m[1] == head@[61] && m[2] == head@[62] && m[3] == head@[63]
            && m[4] == head@[64] && m[5] == head@[65] && m[6] == head@[66] && m[7] == head@[67]);
        let a = seq![0x42u8, 0x4f, 0x4f, 0x4b, 0x4d, 0x4f, 0x42, 0x49];
        let b = seq![0x54u8, 0x45, 0x58, 0x74, 0x52, 0x45, 0x41, 0x64];
        if book {
            assert(m =~= a);
        }
        if read {
            assert(m =~= b);
        }
        if m == a {
            assert(m[0] == a[0] && m[1] == a[1] && m[2] == a[2] && m[3] == a[3] && m[4] == a[4]
                && m[5] == a[5] && m[6] == a[6] && m[7] == a[7]);
        }
        if m == b {
            assert(m[0] == b[0] && m[1] == b[1] && m[2] == b[2] && m[3] == b[3] && m[4] == b[4]
                && m[5] == b[5] && m[6] == b[6] && m[7] == b[7]);
        }
    }
    book || read
}

/// The format of the file at `path`, whose first bytes (up to 72) are `head`.
pub fn detect_format(windows: bool, path: &str, head: &[u8]) -> (r: AppResult<BookFormat>)
    ensures
        match r {
            Ok(f) => detected(windows, path@, head@) == Ok::<BookFormat, Failure>(f),
            Err(e) => detected(windows, path@, head@) == Err::<BookFormat, Failure>(e@),
        },
{
    let p = chars_of(path);
    let ext = extension_of(windows, &p);
    match format_of_extension(&ext) {
        None => Err(AppError::UnsupportedFormat(string_of(&ext))),
        Some(f) => {
            if f == BookFormat::Epub && !is_zip_head(head) {
                Err(AppError::other("EPUB 文件头校验失败（非 ZIP 容器）"))
            } else if (f == BookFormat::Mobi || f == BookFormat::Azw3) && !is_mobi_head(head) {
                Err(AppError::other("MOBI 文件头校验失败"))
            } else if f == BookFormat::Cbz && !is_zip_head(head) {
                Err(AppError::other("CBZ 文件头校验失败（非 ZIP 容器）"))
            } else {
                Ok(f)
            }
        },
    }
}

/// The file of a book: the path it was opened by, its absolute path, its size, and whether the
/// platform is Windows, which decides the form of addresses and what parts the names of a path.
pub struct BookFile {
    pub path: String,
    pub canonical: String,
    pub size: u64,
    pub windows: bool,
}

/// `BookFile` over character sequences.
#[verifier::ext_equal]
pub struct FileView {
    pub path: Seq<char>,
    pub canonical: Seq<char>,
    pub size: u64,
    pub windows: bool,
}

impl DeepView for BookFile {
    type V = FileView;

    open spec fn deep_view(&self) -> FileView {
        FileView {
            path: self.path@,
            canonical: self.canonical@,
            size: self.size,
            windows: self.windows,
        }
    }
}

/// The identifier of the book in a file.
pub open spec fn file_id(file: FileView) -> Seq<char> {
    book_id(path_hash(file.canonical, file.size))
}

/// A file is larger than its format may be.
pub open spec fn oversized(kind: Seq<char>, size: u64, limit: Seq<char>) -> Failure {
    Failure::Other(
        kind + " 文件过大（"@ + crate::numbers::decimal(size as int / 1024 / 1024) + " MB，上限 "@
            + limit + " MB），暂不支持打开"@,
    )
}

/// The error for a file that is larger than its format may be.
pub fn oversized_error(kind: &str, size: u64, limit: &str) -> (r: AppError)
    ensures
        r@ == oversized(kind@, size, limit@),
{
    let mut m = chars_of(kind);
    push_str(&mut m, " 文件过大（");
    let d = crate::numbers::write_decimal(size / 1024 / 1024);
    push_all(&mut m, &d);
    push_str(&mut m, " MB，上限 ");
    push_str(&mut m, limit);
    push_str(&mut m, " MB），暂不支持打开");
    AppError::Other(string_of(&m))
}

// ---------------------------------------------------------------------------
// Names
// ---------------------------------------------------------------------------

/// The title that a file's name gives.
pub open spec fn path_title(windows: bool, path: Seq<char>) -> Seq<char> {
    match file_name(windows, path) {
        Some(n) => stem(n),
        None => "未命名书籍"@,
    }
}

/// The title of a book of which nothing is known but its file.
pub fn title_from_path(windows: bool, path: &str) -> (r: String)
    ensures
        r@ == path_title(windows, path@),
{
    let p = chars_of(path);
    match name_of(windows, &p) {
        Some(n) => {
            let s = stem_of(&n);
            string_of(&s)
        },
        None => "未命名书籍".to_owned(),
    }
}

/// What follows the last dot of a name; the whole name where it has none.
pub open spec fn name_tail(name: Seq<char>) -> Seq<char> {
    match last_char(name, '.') {
        Some(i) => name.skip(i + 1),
        None => name,
    }
}

/// The media type that the end of a name stands for.
pub open spec fn mime_of(name: Seq<char>) -> Seq<char> {
    let e = lower_ascii(name_tail(name));
    if e == "jpg"@ || e == "jpeg"@ {
        "image/jpeg"@
    } else if e == "png"@ {
        "image/png"@
    } else if e == "gif"@ {
        "image/gif"@
    } else if e == "webp"@ {
        "image/webp"@
    } else if e == "bmp"@ {
        "image/bmp"@
    } else if e == "avif"@ {
        "image/avif"@
    } else if e == "svg"@ {
        "image/svg+xml"@
    } else if e == "xhtml"@ || e == "html"@ || e == "htm"@ {
        "application/xhtml+xml"@
    } else if e == "css"@ {
        "text/css"@
    } else if e == "ncx"@ {
        "application/x-dtbncx+xml"@
    } else if e == "ttf"@ {
        "font/ttf"@
    } else if e == "otf"@ {
        "font/otf"@
    } else if e == "woff"@ {
        "font/woff"@
    } else if e == "woff2"@ {
        "font/woff2"@
    } else {
        "application/octet-stream"@
    }
}

/// The media type that a name suggests.
pub fn guess_mime(name: &str) -> (r: &'static str)
    ensures
        r@ == mime_of(name@),
{
    let n = chars_of(name);
    let tail = match rfind_char(&n, '.') {
        Some(i) => {
            let len = n.len();
            let t = part(&n, i + 1, len);
            assert(t@ =~= n@.skip(i + 1));
            t
        },
        None => n,
    };
    let e = to_lower_ascii(&tail);
    if is_word(&e, "jpg") || is_word(&e, "jpeg") {
        "image/jpeg"
    } else if is_word(&e, "png") {
        "image/png"
    } else if is_word(&e, "gif") {
        "image/gif"
    } else if is_word(&e, "webp") {
        "image/webp"
    } else if is_word(&e, "bmp") {
        "image/bmp"
    } else if is_word(&e, "avif") {
        "image/avif"
    } else if is_word(&e, "svg") {
        "image/svg+xml"
    } else if is_word(&e, "xhtml") || is_word(&e, "html") || is_word(&e, "htm") {
        "application/xhtml+xml"
    } else if is_word(&e, "css") {
        "text/css"
    } else if is_word(&e, "ncx") {
        "application/x-dtbncx+xml"
    } else if is_word(&e, "ttf") {
        "font/ttf"
    } else if is_word(&e, "otf") {
        "font/otf"
    } else if is_word(&e, "woff") {
        "font/woff"
    } else if is_word(&e, "woff2") {
        "font/woff2"
    } else {
        "application/octet-stream"
    }
}

// ---------------------------------------------------------------------------
// Escapes
// ---------------------------------------------------------------------------

/// One character exchanged for a text, everywhere.
pub fn swap_char(s: &[char], c: char, with: &str) -> (r: Vec<char>)
    ensures
        r@ == replaced(s@, seq![c], with@),
{
    let mut needle: Vec<char> = Vec::new();
    needle.push(c);
    assert(needle@ =~= seq![c]);
    let w = chars_of(with);
    replace(s, &needle, &w)
}

/// A text as the value of an attribute.
pub open spec fn escaped(s: Seq<char>) -> Seq<char> {
    replaced(
        replaced(
            replaced(replaced(s, seq!['&'], "&amp;"@), seq!['<'], "&lt;"@),
            seq!['>'],
            "&gt;"@,
        ),
        seq!['"'],
        "&quot;"@,
    )
}

/// Writes a text as the value of an attribute.
pub fn escape_attr(s: &str) -> (r: String)
    ensures
        r@ == escaped(s@),
{
    let a = chars_of(s);
    let b = swap_char(&a, '&', "&amp;");
    let c = swap_char(&b, '<', "&lt;");
    let d = swap_char(&c, '>', "&gt;");
    let e = swap_char(&d, '"', "&quot;");
    string_of(&e)
}

/// The character with a given number, where there is one.
pub open spec fn scalar(n: int) -> Option<char> {
    if 0 <= n < 0xD800 || 0xE000 <= n <= 0x10FFFF {
        Some(n as char)
    } else {
        None
    }
}

/// `char::from_u32`: the character with this number, none for surrogates and beyond the last.
pub assume_specification[ char::from_u32 ](i: u32) -> (r: Option<char>)
    ensures
        r == scalar(i as int),
;

/// What an entity stands for: one of a few names, or a number.
pub open spec fn entity(ent: Seq<char>) -> Option<char> {
    if ent == "amp"@ {
        Some('&')
    } else if ent == "lt"@ {
        Some('<')
    } else if ent == "gt"@ {
        Some('>')
    } else if ent == "quot"@ {
        Some('"')
    } else if ent == "apos"@ {
        Some('\'')
    } else if ent == "nbsp"@ {
        Some('\u{a0}')
    } else {
        let n = if starts(ent, "#x"@) || starts(ent, "#X"@) {
            parsed(ent.skip(2), 16, u32::MAX as int)
        } else if ent.len() > 0 && ent[0] == '#' {
            parsed(ent.skip(1), 10, u32::MAX as int)
        } else {
            None
        };
        match n {
            Some(v) => scalar(v),
            None => None,
        }
    }
}

/// The text from position `i` on with its entities resolved. An entity is looked for between an
/// ampersand and the next semicolon, at most twelve characters on; what resolves to nothing
/// stays as it is.
pub open spec fn unescaped_from(s: Seq<char>, i: int) -> Seq<char>
    decreases s.len() - i,
{
    if i < 0 || i >= s.len() {
        Seq::empty()
    } else if s[i] != '&' {
        seq![s[i]] + unescaped_from(s, i + 1)
    } else {
        match char_from(s, ';', i) {
            Some(e) => if i + 2 <= e <= i + 12 && e < s.len() && entity(
                s.subrange(i + 1, e),
            ) is Some {
                seq![entity(s.subrange(i + 1, e)).unwrap()] + unescaped_from(s, e + 1)
            } else {
                seq!['&'] + unescaped_from(s, i + 1)
            },
            None => seq!['&'] + unescaped_from(s, i + 1),
        }
    }
}

/// The text with its entities resolved.
pub open spec fn unescaped(s: Seq<char>) -> Seq<char> {
    unescaped_from(s, 0)
}

/// What an entity stands for.
pub fn resolve_entity(ent: &[char]) -> (r: Option<char>)
    ensures
        r == entity(ent@),
{
    if is_word(ent, "amp") {
        return Some('&');
    }
    if is_word(ent, "lt") {
        return Some('<');
    }
    if is_word(ent, "gt") {
        return Some('>');
    }
    if is_word(ent, "quot") {
        return Some('"');
    }
    if is_word(ent, "apos") {
        return Some('\'');
    }
    if is_word(ent, "nbsp") {
        return Some('\u{a0}');
    }
    let small = chars_of("#x");
    let large = chars_of("#X");
    proof {
        reveal_strlit("#x");
        reveal_strlit("#X");
    }
    let n: Option<u64> = if is_at(ent, 0, &small) || is_at(ent, 0, &large) {
        let h = part(ent, 2, ent.len());
        assert(h@ =~= ent@.skip(2));
        parse(&h, 16, u32::MAX as u64)
    } else if ent.len() > 0 && ent[0] == '#' {
        let d = part(ent, 1, ent.len());
        assert(d@ =~= ent@.skip(1));
        parse(&d, 10, u32::MAX as u64)
    } else {
        None
    };
    match n {
        Some(v) => char::from_u32(v as u32),
        None => None,
    }
}

/// Resolves the entities of a text.
pub fn unescape(s: &[char]) -> (r: Vec<char>)
    ensures
        r@ == unescaped(s@),
{
    let mut out: Vec<char> = Vec::new();
    let mut i: usize = 0;
    while i < s.len()
        invariant
            i <= s@.len(),
            unescaped(s@) == out@ + unescaped_from(s@, i as int),
        decreases s@.len() - i,
    {
        let ghost before = out@;
        let mut step: usize = 1;
        let mut c: char = s[i];
        if s[i] == '&' {
            if let Some(e) = find_char(s, ';', i) {
                if e - i >= 2 && e - i <= 12 {
                    let ent = part(s, i + 1, e);
                    if let Some(d) = resolve_entity(&ent) {
                        c = d;
                        step = e + 1 - i;
                    }
                }
            }
        }
        out.push(c);
        assert(before + (seq![c] + unescaped_from(s@, i + step)) =~= out@ + unescaped_from(
            s@,
            i + step,
        ));
        i = i + step;
    }
    assert(out@ + Seq::<char>::empty() =~= out@);
    out
}

/// Resolves the entities of a text.
pub fn unescape_entities(s: &str) -> (r: String)
    ensures
        r@ == unescaped(s@),
{
    let cs = chars_of(s);
    let out = unescape(&cs);
    string_of(&out)
}

// ---------------------------------------------------------------------------
// Addresses of resources
// ---------------------------------------------------------------------------

/// A path with the characters that would break an address escaped.
pub open spec fn encoded_path(p: Seq<char>) -> Seq<char> {
    replaced(
        replaced(
            replaced(replaced(p, seq![' '], "%20"@), seq!['#'], "%23"@),
            seq!['?'],
            "%3F"@,
        ),
        seq!['\\'],
        "/"@,
    )
}

/// Escapes the characters of a path that would break an address.
pub fn encode_res_path(path: &str) -> (r: String)
    ensures
        r@ == encoded_path(path@),
{
    let a = chars_of(path);
    let b = swap_char(&a, ' ', "%20");
    let c = swap_char(&b, '#', "%23");
    let d = swap_char(&c, '?', "%3F");
    let e = swap_char(&d, '\\', "/");
    string_of(&e)
}

/// What an address of a resource starts with: on Windows the scheme is carried by HTTP.
pub open spec fn resource_origin(windows: bool) -> Seq<char> {
    if windows {
        "http://reader-res.localhost/"@
    } else {
        "reader-res://localhost/"@
    }
}

/// The address of a resource of a book.
pub open spec fn resource_address(windows: bool, book_id: Seq<char>, path: Seq<char>) -> Seq<char> {
    resource_origin(windows) + book_id + "/"@ + encoded_path(path)
}

/// Writes what an address of a resource starts with.
pub fn origin(windows: bool) -> (r: &'static str)
    ensures
        r@ == resource_origin(windows),
{
    if windows {
        "http://reader-res.localhost/"
    } else {
        "reader-res://localhost/"
    }
}

/// The address of a resource of a book, in the form that the platform wants.
pub fn resource_url(windows: bool, book_id: &str, path: &str) -> (r: String)
    ensures
        r@ == resource_address(windows, book_id@, path@),
{
    let mut out = chars_of(origin(windows));
    push_str(&mut out, book_id);
    push_str(&mut out, "/");
    let p = encode_res_path(path);
    push_str(&mut out, p.as_str());
    string_of(&out)
}

} // verus!
