//! What names say: of a file its title and its format, of an entry its media type and whether it is a page.
use vstd::prelude::*;
use crate::archive::{folder, leaf, rank};
use crate::model::BookFormat;
use crate::natural::{in_natural_order, sorted_names_are_ordered};
use crate::parser::cbz::{hidden_from, is_hidden, is_page, pages_of};
use crate::numbers::{digit_value, number, padded, written, written_digits};
use crate::parser::{book_id, detected, format_of, mime_of, name_tail, path_title};
use crate::paths::{
    extension, file_name, is_separator, lower_extension, part_start, stem, without_tail,
};
use crate::text::{last_char_before, lower_ascii, lower_char, split, starts};

verus! {

// ---------------------------------------------------------------------------
// Names of files
// ---------------------------------------------------------------------------

/// The last place of a character is found.
pub proof fn last_is_there(s: Seq<char>, c: char, k: int, upto: int)
    requires
        0 <= k < upto <= s.len(),
        s[k] == c,
        forall|j: int| k < j < upto ==> s[j] != c,
    ensures
        last_char_before(s, c, upto) == Some(k),
    decreases upto - k,
{
    if upto - 1 > k {
        last_is_there(s, c, k, upto - 1);
    }
}

proof fn last_is_nowhere(s: Seq<char>, c: char, upto: int)
    requires
        0 <= upto <= s.len(),
        forall|j: int| 0 <= j < upto ==> s[j] != c,
    ensures
        last_char_before(s, c, upto) is None,
    decreases upto,
{
    if upto > 0 {
        last_is_nowhere(s, c, upto - 1);
    }
}

/// A name is parted at its last dot: what stands before it is the title, what follows it the extension.
pub proof fn a_name_is_parted_at_its_last_dot(a: Seq<char>, e: Seq<char>)
    requires
        !e.contains('.'),
    ensures
        a.len() > 0 ==> stem(a + seq!['.'] + e) == a && extension(a + seq!['.'] + e) == Some(e),
        a.len() == 0 ==> stem(a + seq!['.'] + e) == a + seq!['.'] + e && extension(a + seq!['.'] + e) is None,
        stem(e) == e && extension(e) is None,
        name_tail(a + seq!['.'] + e) == e,
{
    let n = a + seq!['.'] + e;
    let k = a.len() as int;
    assert(n[k] == '.');
    assert forall|j: int| k < j < n.len() implies n[j] != '.' by {
        assert(n[j] == e[j - k - 1]);
        assert(e.contains(e[j - k - 1]));
    }
    last_is_there(n, '.', k, n.len() as int);
    assert(n.take(k) =~= a);
    assert(n.skip(k + 1) =~= e);
    assert forall|j: int| 0 <= j < e.len() implies e[j] != '.' by {
        assert(e.contains(e[j]));
    }
    last_is_nowhere(e, '.', e.len() as int);
}

/// A name that a path can end with: neither empty nor a dot or two, and without a separator.
pub open spec fn is_plain_name(windows: bool, n: Seq<char>) -> bool {
    &&& n.len() > 0
    &&& n != seq!['.']
    &&& n != seq!['.', '.']
    &&& forall|i: int| 0 <= i < n.len() ==> !is_separator(windows, #[trigger] n[i])
}

proof fn part_starts_there(windows: bool, p: Seq<char>, k: int, n: int)
    requires
        0 < k <= n <= p.len(),
        is_separator(windows, p[k - 1]),
        forall|j: int| k <= j < n ==> !is_separator(windows, #[trigger] p[j]),
    ensures
        part_start(windows, p, n) == k,
    decreases n - k,
{
    if n > k {
        part_starts_there(windows, p, k, n - 1);
    }
}

/// The name of a file is what follows the last separator of its path.
pub proof fn a_file_has_its_name(windows: bool, dir: Seq<char>, sep: char, n: Seq<char>)
    requires
        is_separator(windows, sep),
        is_plain_name(windows, n),
    ensures
        file_name(windows, dir + seq![sep] + n) == Some(n),
        path_title(windows, dir + seq![sep] + n) == stem(n),
{
    let p = dir + seq![sep] + n;
    let k = dir.len() + 1;
    assert(p[k - 1] == sep);
    assert forall|j: int| k <= j < p.len() implies !is_separator(windows, #[trigger] p[j]) by {
        assert(p[j] == n[j - k]);
    }
    assert(p.last() == n.last());
    assert(!is_separator(windows, n[n.len() - 1]));
    if p.last() == '.' && is_separator(windows, p[p.len() - 2]) {
        if n.len() > 1 {
            assert(p[p.len() - 2] == n[n.len() - 2]);
            assert(!is_separator(windows, n[n.len() - 2]));
        } else {
            assert(n =~= seq!['.']);
        }
    }
    assert(without_tail(windows, p) == p);
    part_starts_there(windows, p, k as int, p.len() as int);
    assert(p.skip(k as int) =~= n);
}

/// The bytes that a ZIP archive starts with.
pub open spec fn starts_as_zip(head: Seq<u8>) -> bool {
    head.len() >= 2 && head[0] == 0x50 && head[1] == 0x4b
}

/// The extension of a file says its format, in capitals or not: a book that is an archive must start as one,
/// and for the others the bytes have no say.
pub proof fn a_file_is_of_the_format_it_is_named_for(
    windows: bool,
    dir: Seq<char>,
    sep: char,
    a: Seq<char>,
    e: Seq<char>,
    head: Seq<u8>,
)
    requires
        is_separator(windows, sep),
        a.len() > 0,
        is_plain_name(windows, a + seq!['.'] + e),
        !e.contains('.'),
    ensures
        ({
            let p = dir + seq![sep] + (a + seq!['.'] + e);
            let w = lower_ascii(e);
            &&& lower_extension(windows, p) == w
            &&& path_title(windows, p) == a
            &&& w == "epub"@ ==> (detected(windows, p, head) is Ok <==> starts_as_zip(head)) && (
            starts_as_zip(head) ==> detected(windows, p, head)->Ok_0 == BookFormat::Epub)
            &&& w == "cbz"@ ==> (detected(windows, p, head) is Ok <==> starts_as_zip(head)) && (
            starts_as_zip(head) ==> detected(windows, p, head)->Ok_0 == BookFormat::Cbz)
            &&& w == "mobi"@ || w == "prc"@ || w == "azw"@ ==> format_of(w) == Some(BookFormat::Mobi)
            &&& w == "azw3"@ || w == "kf8"@ ==> format_of(w) == Some(BookFormat::Azw3)
            &&& w == "txt"@ || w == "log"@ ==> detected(windows, p, head) is Ok && detected(windows, p, head)
                ->Ok_0 == BookFormat::Txt
            &&& w == "md"@ || w == "markdown"@ ==> detected(windows, p, head) is Ok && detected(
                windows,
                p,
                head,
            )->Ok_0 == BookFormat::Markdown
            &&& w == "fb2"@ || w == "fbz"@ ==> detected(windows, p, head) is Ok && detected(windows, p, head)
                ->Ok_0 == BookFormat::Fb2
            &&& w == "pdf"@ ==> detected(windows, p, head) is Ok && detected(windows, p, head)->Ok_0
                == BookFormat::Pdf
        }),
{
    a_name_is_parted_at_its_last_dot(a, e);
    a_file_has_its_name(windows, dir, sep, a + seq!['.'] + e);
    book_words_differ();
}

proof fn book_words_differ()
    ensures
        "epub"@.len() == 4 && "epub"@[0] == 'e',
        "mobi"@.len() == 4 && "mobi"@[0] == 'm',
        "prc"@.len() == 3 && "prc"@[0] == 'p' && "prc"@[1] == 'r',
        "azw"@.len() == 3 && "azw"@[0] == 'a',
        "azw3"@.len() == 4 && "azw3"@[0] == 'a',
        "kf8"@.len() == 3 && "kf8"@[0] == 'k',
        "txt"@.len() == 3 && "txt"@[0] == 't',
        "log"@.len() == 3 && "log"@[0] == 'l',
        "md"@.len() == 2 && "md"@[0] == 'm',
        "markdown"@.len() == 8 && "markdown"@[0] == 'm',
        "cbz"@.len() == 3 && "cbz"@[0] == 'c',
        "fb2"@.len() == 3 && "fb2"@[0] == 'f',
        "fbz"@.len() == 3 && "fbz"@[0] == 'f',
        "pdf"@.len() == 3 && "pdf"@[0] == 'p' && "pdf"@[1] == 'd',
{
    reveal_strlit("epub");
    reveal_strlit("mobi");
    reveal_strlit("prc");
    reveal_strlit("azw");
    reveal_strlit("azw3");
    reveal_strlit("kf8");
    reveal_strlit("txt");
    reveal_strlit("log");
    reveal_strlit("md");
    reveal_strlit("markdown");
    reveal_strlit("cbz");
    reveal_strlit("fb2");
    reveal_strlit("fbz");
    reveal_strlit("pdf");
}

// ---------------------------------------------------------------------------
// Names of entries
// ---------------------------------------------------------------------------

proof fn image_words_differ()
    ensures
        "jpg"@.len() == 3 && "jpg"@[0] == 'j',
        "jpeg"@.len() == 4 && "jpeg"@[0] == 'j',
        "png"@.len() == 3 && "png"@[0] == 'p',
        "gif"@.len() == 3 && "gif"@[0] == 'g',
        "webp"@.len() == 4 && "webp"@[0] == 'w' && "webp"@[1] == 'e',
        "bmp"@.len() == 3 && "bmp"@[0] == 'b',
        "avif"@.len() == 4 && "avif"@[0] == 'a',
        "svg"@.len() == 3 && "svg"@[0] == 's',
        "xhtml"@.len() == 5 && "xhtml"@[0] == 'x',
        "html"@.len() == 4 && "html"@[0] == 'h',
        "htm"@.len() == 3 && "htm"@[0] == 'h',
        "css"@.len() == 3 && "css"@[0] == 'c',
        "ncx"@.len() == 3 && "ncx"@[0] == 'n',
        "ttf"@.len() == 3 && "ttf"@[0] == 't',
        "otf"@.len() == 3 && "otf"@[0] == 'o',
        "woff"@.len() == 4 && "woff"@[0] == 'w' && "woff"@[1] == 'o',
        "woff2"@.len() == 5 && "woff2"@[0] == 'w',
{
    reveal_strlit("jpg");
    reveal_strlit("jpeg");
    reveal_strlit("png");
    reveal_strlit("gif");
    reveal_strlit("webp");
    reveal_strlit("bmp");
    reveal_strlit("avif");
    reveal_strlit("svg");
    reveal_strlit("xhtml");
    reveal_strlit("html");
    reveal_strlit("htm");
    reveal_strlit("css");
    reveal_strlit("ncx");
    reveal_strlit("ttf");
    reveal_strlit("otf");
    reveal_strlit("woff");
    reveal_strlit("woff2");
}

/// The ending of a name says what kind of thing it is, in capitals or not and whatever stands before it.
pub proof fn a_thing_is_of_the_kind_it_is_named_for(a: Seq<char>, e: Seq<char>)
    requires
        !e.contains('.'),
    ensures
        ({
            let m = mime_of(a + seq!['.'] + e);
            let w = lower_ascii(e);
            &&& w == "jpg"@ || w == "jpeg"@ ==> m == "image/jpeg"@
            &&& w == "png"@ ==> m == "image/png"@
            &&& w == "gif"@ ==> m == "image/gif"@
            &&& w == "webp"@ ==> m == "image/webp"@
            &&& w == "bmp"@ ==> m == "image/bmp"@
            &&& w == "avif"@ ==> m == "image/avif"@
            &&& w == "svg"@ ==> m == "image/svg+xml"@
            &&& w == "xhtml"@ || w == "html"@ || w == "htm"@ ==> m == "application/xhtml+xml"@
            &&& w == "css"@ ==> m == "text/css"@
            &&& w == "ttf"@ ==> m == "font/ttf"@
            &&& w == "otf"@ ==> m == "font/otf"@
            &&& w == "woff"@ ==> m == "font/woff"@
            &&& w == "woff2"@ ==> m == "font/woff2"@
        }),
{
    a_name_is_parted_at_its_last_dot(a, e);
    image_words_differ();
}

proof fn hidden_if_any(segs: Seq<Seq<char>>, i: int)
    requires
        0 <= i <= segs.len(),
    ensures
        hidden_from(segs, i) <==> exists|k: int|
            i <= k < segs.len() && (starts(#[trigger] segs[k], "."@) || starts(segs[k], "__MACOSX"@)),
    decreases segs.len() - i,
{
    if i < segs.len() {
        hidden_if_any(segs, i + 1);
        if is_hidden(segs[i]) {
            assert(starts(segs[i], "."@) || starts(segs[i], "__MACOSX"@));
        }
    }
}

/// An entry of a comic with the ending of a picture is a page, unless it stands in something hidden.
pub proof fn a_picture_is_a_page(a: Seq<char>, e: Seq<char>)
    requires
        !e.contains('.'),
        e.len() > 0,
        e.last() != '/' && e.last() != '\\',
    ensures
        ({
            let n = a + seq!['.'] + e;
            let w = lower_ascii(e);
            let segs = split(n, '/');
            let hidden = exists|k: int|
                0 <= k < segs.len() && (starts(#[trigger] segs[k], "."@) || starts(segs[k], "__MACOSX"@));
            &&& w == "jpg"@ || w == "jpeg"@ || w == "png"@ || w == "gif"@ || w == "webp"@ || w == "bmp"@ || w
                == "avif"@ ==> (is_page(n) <==> !hidden)
            &&& w == "txt"@ || w == "xml"@ || w == "html"@ ==> !is_page(n)
        }),
{
    a_name_is_parted_at_its_last_dot(a, e);
    image_words_differ();
    reveal_strlit("txt");
    reveal_strlit("xml");
    assert("txt"@.len() == 3 && "txt"@[0] == 't');
    assert("xml"@.len() == 3 && "xml"@[0] == 'x');
    let n = a + seq!['.'] + e;
    assert(n.last() == e.last());
    hidden_if_any(split(n, '/'), 0);
}

proof fn pages_so_far(names: Seq<Seq<char>>, k: int, x: Seq<char>)
    requires
        0 <= k <= names.len(),
    ensures
        pages_of(names, k).to_multiset().count(x) == if is_page(x) {
            names.take(k).to_multiset().count(x)
        } else {
            0
        },
    decreases k,
{
    broadcast use vstd::seq_lib::group_to_multiset_ensures;

    if k > 0 {
        pages_so_far(names, k - 1, x);
        assert(names.take(k) =~= names.take(k - 1).push(names[k - 1]));
    } else {
        assert(names.take(0) =~= Seq::empty());
    }
}

/// The pages of a comic are its pictures, each as often as it is there, and nothing else.
pub proof fn the_pages_are_the_pictures(names: Seq<Seq<char>>, x: Seq<char>)
    ensures
        in_natural_order(pages_of(names, names.len() as int)).to_multiset().count(x) == if is_page(x) {
            names.to_multiset().count(x)
        } else {
            0
        },
{
    pages_so_far(names, names.len() as int, x);
    assert(names.take(names.len() as int) =~= names);
    sorted_names_are_ordered(pages_of(names, names.len() as int));
}

proof fn small_joint(d: Seq<char>, n: Seq<char>)
    ensures
        lower_ascii(d + seq!['/'] + n) == lower_ascii(d) + seq!['/'] + lower_ascii(n),
{
    assert(lower_ascii(d + seq!['/'] + n) =~= lower_ascii(d) + seq!['/'] + lower_ascii(n));
}

/// The name and the folder of a path.
pub proof fn leaf_of(d: Seq<char>, n: Seq<char>)
    requires
        !n.contains('/'),
    ensures
        leaf(d + seq!['/'] + n) == n,
        folder(d + seq!['/'] + n) == Some(d),
{
    let p = d + seq!['/'] + n;
    let k = d.len() as int;
    assert(p[k] == '/');
    assert forall|j: int| k < j < p.len() implies p[j] != '/' by {
        assert(p[j] == n[j - k - 1]);
        assert(n.contains(n[j - k - 1]));
    }
    last_is_there(p, '/', k, p.len() as int);
    assert(p.take(k) =~= d);
    assert(p.skip(k + 1) =~= n);
}

/// An entry stands for a path if their names agree but for case, best if the folders agree, too; one of
/// another name stands for nothing.
pub proof fn an_entry_stands_for_its_name(
    d: Seq<char>,
    n: Seq<char>,
    want_d: Seq<char>,
    want_n: Seq<char>,
)
    requires
        !n.contains('/') && !want_n.contains('/'),
        n.len() > 0,
    ensures
        ({
            let r = rank(d + seq!['/'] + n, lower_ascii(want_d + seq!['/'] + want_n));
            &&& lower_ascii(n) != lower_ascii(want_n) ==> r == 4
            &&& lower_ascii(n) == lower_ascii(want_n) ==> r < 4
            &&& lower_ascii(n) == lower_ascii(want_n) && lower_ascii(d) == lower_ascii(want_d) ==> r == 1
            &&& lower_ascii(n) == lower_ascii(want_n) && lower_ascii(d) != lower_ascii(want_d) ==> r > 1
        }),
{
    let name = d + seq!['/'] + n;
    assert(name.last() == n.last());
    assert(n.contains(n[n.len() - 1]));
    small_joint(d, n);
    small_joint(want_d, want_n);
    no_slash_comes(n);
    no_slash_comes(want_n);
    leaf_of(lower_ascii(d), lower_ascii(n));
    leaf_of(lower_ascii(want_d), lower_ascii(want_n));
}

proof fn no_slash_comes(n: Seq<char>)
    requires
        !n.contains('/'),
    ensures
        !lower_ascii(n).contains('/'),
{
    if lower_ascii(n).contains('/') {
        let k = choose|k: int| 0 <= k < n.len() && lower_ascii(n)[k] == '/';
        assert(lower_char(n[k]) == '/');
        assert(n.contains(n[k]));
    }
}


// ---------------------------------------------------------------------------
// Identifiers of books
// ---------------------------------------------------------------------------

proof fn zeros_before(n: nat, s: Seq<char>)
    ensures
        number(Seq::new(n, |i: int| '0') + s, 16) == number(s, 16),
    decreases s.len(), n,
{
    let t = Seq::new(n, |i: int| '0') + s;
    if s.len() > 0 {
        zeros_before(n, s.drop_last());
        assert(t.drop_last() =~= Seq::new(n, |i: int| '0') + s.drop_last());
        assert(t.last() == s.last());
    } else if n > 0 {
        let less = (n - 1) as nat;
        zeros_before(less, s);
        assert(t.drop_last() =~= Seq::new(less, |i: int| '0') + s);
        assert(t.last() == '0');
        assert(digit_value('0', 16) == Some(0int));
    } else {
        assert(t =~= s);
    }
}

/// An identifier is told from another: it is `bk` and the number of the book in sixteen digits, so that no two
/// numbers have the same.
pub proof fn identifiers_tell_books_apart(a: u64, b: u64)
    ensures
        book_id(a) == book_id(b) ==> a == b,
        book_id(a).len() >= 18,
        book_id(a).take(2) == "bk"@,
{
    reveal_strlit("bk");
    let x = padded(written(a as int, 16), '0', 16);
    let y = padded(written(b as int, 16), '0', 16);
    written_digits(a as int, 16);
    written_digits(b as int, 16);
    let p = written(a as int, 16);
    let q = written(b as int, 16);
    if p.len() < 16 {
        zeros_before((16 - p.len()) as nat, p);
        assert(Seq::new((16 - p.len()) as nat, |i: int| '0') + p =~= x);
    }
    if q.len() < 16 {
        zeros_before((16 - q.len()) as nat, q);
        assert(Seq::new((16 - q.len()) as nat, |i: int| '0') + q =~= y);
    }
    assert(number(x, 16) == a && number(y, 16) == b);
    assert(book_id(a).take(2) =~= "bk"@);
    assert(book_id(a).skip(2) =~= x);
    assert(book_id(b).skip(2) =~= y);
}

} // verus!
