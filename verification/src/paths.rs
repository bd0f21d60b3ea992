//! Names of files, as text with `/` between the parts, or on Windows also `\`.
use vstd::prelude::*;
use crate::text::{last_char, lower_ascii, part, rfind_char, same, to_lower_ascii};

verus! {

/// A character parts the names of a path: `/`, and on Windows also `\`.
pub open spec fn is_separator(windows: bool, c: char) -> bool {
    c == '/' || (windows && c == '\\')
}

/// The path without separators, or parts that are a single dot, at its end.
pub open spec fn without_tail(windows: bool, p: Seq<char>) -> Seq<char>
    decreases p.len(),
{
    if p.len() >= 1 && is_separator(windows, p.last()) {
        without_tail(windows, p.drop_last())
    } else if p.len() >= 2 && p.last() == '.' && is_separator(windows, p[p.len() - 2]) {
        without_tail(windows, p.take(p.len() - 2))
    } else {
        p
    }
}

/// A path of Windows starts with the letter of a drive.
pub open spec fn has_drive(windows: bool, p: Seq<char>) -> bool {
    windows && p.len() >= 2 && p[1] == ':' && ('a' <= p[0] <= 'z' || 'A' <= p[0] <= 'Z')
}

/// Where the last part of the first `n` characters of a path starts: behind the last separator,
/// or behind the drive where there is none.
pub open spec fn part_start(windows: bool, p: Seq<char>, n: int) -> int
    decreases n,
{
    if n <= 0 || n > p.len() {
        if has_drive(windows, p) {
            2
        } else {
            0
        }
    } else if is_separator(windows, p[n - 1]) {
        n
    } else {
        part_start(windows, p, n - 1)
    }
}

/// What stands behind the last separator.
pub open spec fn last_part(windows: bool, p: Seq<char>) -> Seq<char> {
    p.skip(part_start(windows, p, p.len() as int))
}

/// The name of the file a path leads to; none where the path ends in `..` or names nothing.
pub open spec fn file_name(windows: bool, p: Seq<char>) -> Option<Seq<char>> {
    let n = last_part(windows, without_tail(windows, p));
    if n.len() == 0 || n == seq!['.'] || n == seq!['.', '.'] {
        None
    } else {
        Some(n)
    }
}

/// The file's name up to its last dot; a dot at the start does not count.
pub open spec fn stem(name: Seq<char>) -> Seq<char> {
    match last_char(name, '.') {
        Some(i) => if i == 0 {
            name
        } else {
            name.take(i)
        },
        None => name,
    }
}

/// What follows the last dot of the file's name; a dot at the start does not count.
pub open spec fn extension(name: Seq<char>) -> Option<Seq<char>> {
    match last_char(name, '.') {
        Some(i) => if i == 0 {
            None
        } else {
            Some(name.skip(i + 1))
        },
        None => None,
    }
}

fn separates(windows: bool, c: char) -> (r: bool)
    ensures
        r == is_separator(windows, c),
{
    c == '/' || (windows && c == '\\')
}

fn drop_tail(windows: bool, p: &[char]) -> (r: usize)
    ensures
        r <= p@.len(),
        p@.take(r as int) == without_tail(windows, p@),
{
    let mut n: usize = p.len();
    assert(p@.take(n as int) =~= p@);
    loop
        invariant
            n <= p@.len(),
            without_tail(windows, p@) == without_tail(windows, p@.take(n as int)),
        ensures
            n <= p@.len(),
            p@.take(n as int) == without_tail(windows, p@),
        decreases n,
    {
        if n >= 1 && separates(windows, p[n - 1]) {
            assert(p@.take(n as int).drop_last() =~= p@.take(n - 1));
            n = n - 1;
        } else if n >= 2 && p[n - 1] == '.' && separates(windows, p[n - 2]) {
            assert(p@.take(n as int).take(n - 2) =~= p@.take(n - 2));
            n = n - 2;
        } else {
            break;
        }
    }
    n
}

fn start_of_part(windows: bool, p: &[char]) -> (r: usize)
    ensures
        r == part_start(windows, p@, p@.len() as int),
        r <= p@.len(),
{
    let mut n: usize = p.len();
    while n > 0
        invariant
            n <= p@.len(),
            part_start(windows, p@, p@.len() as int) == part_start(windows, p@, n as int),
        decreases n,
    {
        if separates(windows, p[n - 1]) {
            return n;
        }
        n = n - 1;
    }
    if windows && p.len() >= 2 && p[1] == ':' && (('a' <= p[0] && p[0] <= 'z') || ('A' <= p[0]
        && p[0] <= 'Z')) {
        2
    } else {
        0
    }
}

/// The name of the file a path leads to.
pub fn name_of(windows: bool, p: &[char]) -> (r: Option<Vec<char>>)
    ensures
        match r {
            Some(n) => file_name(windows, p@) == Some(n@),
            None => file_name(windows, p@) is None,
        },
{
    let n = drop_tail(windows, p);
    let whole = part(p, 0, n);
    assert(whole@ =~= p@.take(n as int));
    let i = start_of_part(windows, &whole);
    let name = part(&whole, i, whole.len());
    assert(name@ =~= whole@.skip(i as int));
    let mut one: Vec<char> = Vec::new();
    one.push('.');
    assert(one@ =~= seq!['.']);
    let mut two: Vec<char> = Vec::new();
    two.push('.');
    two.push('.');
    assert(two@ =~= seq!['.', '.']);
    if name.len() == 0 || same(&name, &one) || same(&name, &two) {
        None
    } else {
        Some(name)
    }
}

/// The stem of a file's name.
pub fn stem_of(name: &[char]) -> (r: Vec<char>)
    ensures
        r@ == stem(name@),
{
    match rfind_char(name, '.') {
        Some(i) => {
            if i == 0 {
                let t = part(name, 0, name.len());
                assert(t@ =~= name@);
                t
            } else {
                let t = part(name, 0, i);
                assert(t@ =~= name@.take(i as int));
                t
            }
        },
        None => {
            let t = part(name, 0, name.len());
            assert(t@ =~= name@);
            t
        },
    }
}

/// The extension of a path in small letters; empty where it has none.
pub open spec fn lower_extension(windows: bool, p: Seq<char>) -> Seq<char> {
    match file_name(windows, p) {
        Some(n) => match extension(n) {
            Some(e) => lower_ascii(e),
            None => Seq::empty(),
        },
        None => Seq::empty(),
    }
}

/// The extension of a path in small letters.
pub fn extension_of(windows: bool, p: &[char]) -> (r: Vec<char>)
    ensures
        r@ == lower_extension(windows, p@),
{
    match name_of(windows, p) {
        Some(n) => match rfind_char(&n, '.') {
            Some(i) => {
                if i == 0 {
                    Vec::new()
                } else {
                    let len = n.len();
                    let e = part(&n, i + 1, len);
                    assert(e@ =~= n@.skip(i + 1));
                    to_lower_ascii(&e)
                }
            },
            None => Vec::new(),
        },
        None => Vec::new(),
    }
}

} // verus!
