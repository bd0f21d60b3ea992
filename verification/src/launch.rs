//! Which book the reader was started with.
use vstd::prelude::*;
use crate::error::Failure;
use crate::parser::{detected, format_of};
use crate::paths::{extension_of, lower_extension};
use crate::text::{chars_of, contains_word, has_word, one_word};

verus! {

/// The extensions of the files that the reader opens.
pub const ASSOCIATED_BOOK_EXTS: &'static str =
    "epub mobi prc azw azw3 kf8 pdf fb2 fbz cbz txt log md markdown";

/// A path looks like that of a book.
pub open spec fn book_like(windows: bool, path: Seq<char>) -> bool {
    has_word(ASSOCIATED_BOOK_EXTS@, lower_extension(windows, path))
}

/// A path looks like that of a book if and only if its extension is that of a format, so that the
/// format of the file is not refused as unknown, whatever its first bytes.
pub proof fn what_looks_like_a_book_has_a_format(windows: bool, path: Seq<char>, head: Seq<u8>)
    ensures
        book_like(windows, path) <==> format_of(lower_extension(windows, path)) is Some,
        book_like(windows, path) <==> !(detected(windows, path, head) matches Err(
            Failure::UnsupportedFormat(_),
        )),
{
    let s = ASSOCIATED_BOOK_EXTS@;
    let w = lower_extension(windows, path);
    reveal_strlit("epub mobi prc azw azw3 kf8 pdf fb2 fbz cbz txt log md markdown");
    reveal_strlit("epub");
    reveal_strlit("mobi");
    reveal_strlit("prc");
    reveal_strlit("azw");
    reveal_strlit("azw3");
    reveal_strlit("kf8");
    reveal_strlit("pdf");
    reveal_strlit("fb2");
    reveal_strlit("fbz");
    reveal_strlit("cbz");
    reveal_strlit("txt");
    reveal_strlit("log");
    reveal_strlit("md");
    reveal_strlit("markdown");
    one_word(s, w, 0, 4);
    one_word(s, w, 5, 9);
    one_word(s, w, 10, 13);
    one_word(s, w, 14, 17);
    one_word(s, w, 18, 22);
    one_word(s, w, 23, 26);
    one_word(s, w, 27, 30);
    one_word(s, w, 31, 34);
    one_word(s, w, 35, 38);
    one_word(s, w, 39, 42);
    one_word(s, w, 43, 46);
    one_word(s, w, 47, 50);
    one_word(s, w, 51, 53);
    one_word(s, w, 54, 62);
    assert(s.subrange(0, 4) =~= "epub"@);
    assert(s.subrange(5, 9) =~= "mobi"@);
    assert(s.subrange(10, 13) =~= "prc"@);
    assert(s.subrange(14, 17) =~= "azw"@);
    assert(s.subrange(18, 22) =~= "azw3"@);
    assert(s.subrange(23, 26) =~= "kf8"@);
    assert(s.subrange(27, 30) =~= "pdf"@);
    assert(s.subrange(31, 34) =~= "fb2"@);
    assert(s.subrange(35, 38) =~= "fbz"@);
    assert(s.subrange(39, 42) =~= "cbz"@);
    assert(s.subrange(43, 46) =~= "txt"@);
    assert(s.subrange(47, 50) =~= "log"@);
    assert(s.subrange(51, 53) =~= "md"@);
    assert(s.subrange(54, 62) =~= "markdown"@);
}

/// Whether a path looks like that of a book, by its extension.
pub fn is_book_path(windows: bool, path: &str) -> (r: bool)
    ensures
        r == book_like(windows, path@),
{
    contains_word(&chars_of(ASSOCIATED_BOOK_EXTS), &extension_of(windows, &chars_of(path)))
}

/// An argument is the path of a book and no switch.
pub open spec fn names_a_book(windows: bool, arg: Seq<char>) -> bool {
    arg.len() > 0 && arg[0] != '-' && arg[0] != '/' && book_like(windows, arg)
}

/// The first argument that is the path of a book, from the `i`-th on.
pub open spec fn first_book(windows: bool, args: Seq<String>, i: int) -> Option<Seq<char>>
    decreases args.len() - i,
{
    if i < 0 || i >= args.len() {
        None
    } else if names_a_book(windows, args[i]@) {
        Some(args[i]@)
    } else {
        first_book(windows, args, i + 1)
    }
}

/// The path of the book that a program was started with: its own name and switches are passed
/// over.
pub fn book_path_from_args(windows: bool, args: &[String]) -> (r: Option<String>)
    ensures
        match r {
            Some(p) => first_book(windows, args@, 1) == Some(p@),
            None => first_book(windows, args@, 1) is None,
        },
{
    let mut i: usize = 1;
    while i < args.len()
        invariant
            1 <= i,
            first_book(windows, args@, 1) == first_book(windows, args@, i as int),
        decreases args@.len() - i,
    {
        let a = args[i].as_str();
        let c = chars_of(a);
        if c.len() > 0 && c[0] != '-' && c[0] != '/' && is_book_path(windows, a) {
            return Some(a.to_owned());
        }
        i = i + 1;
    }
    None
}

/// The book that is opened is one of the arguments behind the first, is no switch, and has none
/// like it before.
pub proof fn the_first_book_is_opened(windows: bool, args: Seq<String>, i: int)
    requires
        0 <= i,
    ensures
        match first_book(windows, args, i) {
            Some(p) => exists|k: int|
                i <= k < args.len() && #[trigger] args[k]@ == p && names_a_book(windows, p) && forall|j: int|
                    i <= j < k ==> !names_a_book(windows, #[trigger] args[j]@),
            None => forall|j: int| i <= j < args.len() ==> !names_a_book(windows, #[trigger] args[j]@),
        },
    decreases args.len() - i,
{
    if i < args.len() {
        if names_a_book(windows, args[i]@) {
            assert(args[i]@ == first_book(windows, args, i).unwrap());
        } else {
            the_first_book_is_opened(windows, args, i + 1);
            if let Some(p) = first_book(windows, args, i) {
                let k = choose|k: int|
                    i + 1 <= k < args.len() && #[trigger] args[k]@ == p && names_a_book(windows, p) && forall|
                        j: int,
                    |
                        i + 1 <= j < k ==> !names_a_book(windows, #[trigger] args[j]@);
                assert(args[k]@ == p);
                assert forall|j: int| i <= j < k implies !names_a_book(windows, #[trigger] args[j]@) by {}
            }
        }
    }
}

} // verus!
