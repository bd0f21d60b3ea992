//! Characters and strings: the small vocabulary on which the parsers rest.
//!
//! A text is worked on as a sequence of characters. The spec functions here say what each
//! operation means on `Seq<char>`; the executable functions compute it on slices of `char`.
use vstd::prelude::*;

verus! {

/// `String::push` appends one character at the end.
pub assume_specification[ String::push ](s: &mut String, c: char)
    ensures
        final(s)@ == old(s)@.push(c),
;

/// The characters of a string, in order.
pub fn chars_of(s: &str) -> (r: Vec<char>)
    ensures
        r@ == s@,
{
    let mut out: Vec<char> = Vec::new();
    for c in it: s.chars()
        invariant
            out@ == it.seq().take(it.index() as int),
            it.seq() == s@,
    {
        out.push(c);
    }
    out
}

/// The string made of the given characters.
pub fn string_of(chars: &[char]) -> (r: String)
    ensures
        r@ == chars@,
{
    let mut out = String::new();
    let mut i: usize = 0;
    while i < chars.len()
        invariant
            i <= chars.len(),
            out@ == chars@.take(i as int),
        decreases chars.len() - i,
    {
        out.push(chars[i]);
        i = i + 1;
    }
    out
}

/// Appends a slice to a vector.
pub fn push_all(out: &mut Vec<char>, more: &[char])
    ensures
        final(out)@ == old(out)@ + more@,
{
    let ghost before = out@;
    out.extend_from_slice(more);
    assert(out@ =~= before + more@);
}

/// Appends a string to a vector of characters.
pub fn push_str(out: &mut Vec<char>, more: &str)
    ensures
        final(out)@ == old(out)@ + more@,
{
    let v = chars_of(more);
    push_all(out, &v);
}

/// The part of a slice from `i` up to, but not including, `j`.
pub fn part(s: &[char], i: usize, j: usize) -> (r: Vec<char>)
    requires
        i <= j <= s@.len(),
    ensures
        r@ == s@.subrange(i as int, j as int),
{
    let mut out: Vec<char> = Vec::new();
    push_all(&mut out, vstd::slice::slice_subrange(s, i, j));
    out
}

/// Whether two slices hold the same characters.
pub fn same(a: &[char], b: &[char]) -> (r: bool)
    ensures
        r == (a@ == b@),
{
    if a.len() != b.len() {
        return false;
    }
    let mut i: usize = 0;
    while i < a.len()
        invariant
            i <= a.len(),
            a.len() == b.len(),
            forall|k: int| 0 <= k < i ==> a@[k] == b@[k],
        decreases a.len() - i,
    {
        if a[i] != b[i] {
            return false;
        }
        i = i + 1;
    }
    assert(a@ =~= b@);
    true
}

/// Whether two strings hold the same characters.
pub fn same_str(a: &str, b: &str) -> (r: bool)
    ensures
        r == (a@ == b@),
{
    let x = chars_of(a);
    let y = chars_of(b);
    same(&x, &y)
}

/// Whether a string is one of the strings of a list.
pub fn listed(list: &[String], s: &str) -> (r: bool)
    ensures
        r == list_has(list@, s@),
{
    let x = chars_of(s);
    let mut i: usize = 0;
    while i < list.len()
        invariant
            i <= list.len(),
            x@ == s@,
            forall|k: int| 0 <= k < i ==> list@[k]@ != s@,
        decreases list.len() - i,
    {
        let y = chars_of(list[i].as_str());
        if same(&y, &x) {
            return true;
        }
        i = i + 1;
    }
    false
}

/// A list of strings holds the text `s`.
pub open spec fn list_has(list: Seq<String>, s: Seq<char>) -> bool {
    exists|k: int| 0 <= k < list.len() && (#[trigger] list[k])@ == s
}

// ---------------------------------------------------------------------------
// Searching
// ---------------------------------------------------------------------------

/// `needle` stands in `hay` at position `i`.
pub open spec fn stands_at(hay: Seq<char>, i: int, needle: Seq<char>) -> bool {
    0 <= i && i + needle.len() <= hay.len() && hay.subrange(i, i + needle.len()) == needle
}

/// The first position at or after `from` at which `needle` stands in `hay`.
pub open spec fn find_from(hay: Seq<char>, needle: Seq<char>, from: int) -> Option<int>
    decreases hay.len() + 1 - from,
{
    if from < 0 || from + needle.len() > hay.len() {
        None
    } else if stands_at(hay, from, needle) {
        Some(from)
    } else {
        find_from(hay, needle, from + 1)
    }
}

/// `find_from` gives the least position: `needle` stands there and nowhere between `from` and it.
pub proof fn find_from_is_first(hay: Seq<char>, needle: Seq<char>, from: int)
    requires
        0 <= from,
    ensures
        match find_from(hay, needle, from) {
            Some(i) => from <= i && stands_at(hay, i, needle) && forall|j: int|
                from <= j < i ==> !stands_at(hay, j, needle),
            None => forall|j: int| from <= j ==> !stands_at(hay, j, needle),
        },
    decreases hay.len() + 1 - from,
{
    if from + needle.len() > hay.len() {
    } else if stands_at(hay, from, needle) {
    } else {
        find_from_is_first(hay, needle, from + 1);
    }
}

/// Whether `needle` stands in `hay` at `i`.
pub fn is_at(hay: &[char], i: usize, needle: &[char]) -> (r: bool)
    ensures
        r == stands_at(hay@, i as int, needle@),
{
    if i > hay.len() || needle.len() > hay.len() - i {
        return false;
    }
    let mut k: usize = 0;
    while k < needle.len()
        invariant
            k <= needle.len(),
            i + needle.len() <= hay.len(),
            forall|m: int| 0 <= m < k ==> hay@[i + m] == needle@[m],
        decreases needle.len() - k,
    {
        if hay[i + k] != needle[k] {
            assert(hay@.subrange(i as int, i + needle@.len())[k as int] != needle@[k as int]);
            return false;
        }
        k = k + 1;
    }
    assert(hay@.subrange(i as int, i + needle@.len()) =~= needle@);
    true
}

/// The first position at or after `from` at which `needle` stands.
pub fn find(hay: &[char], needle: &[char], from: usize) -> (r: Option<usize>)
    ensures
        match r {
            Some(i) => find_from(hay@, needle@, from as int) == Some(i as int) && i >= from && i
                + needle@.len() <= hay@.len() && stands_at(hay@, i as int, needle@),
            None => find_from(hay@, needle@, from as int) is None,
        },
{
    let mut i: usize = from;
    while i <= hay.len() && needle.len() <= hay.len() - i
        invariant
            from <= i,
            find_from(hay@, needle@, from as int) == find_from(hay@, needle@, i as int),
        decreases hay.len() + 1 - i,
    {
        if is_at(hay, i, needle) {
            return Some(i);
        }
        if i == hay.len() {
            assert(find_from(hay@, needle@, i as int + 1) is None);
            return None;
        }
        i = i + 1;
    }
    None
}

/// `needle` occurs somewhere in `hay`.
pub open spec fn occurs(hay: Seq<char>, needle: Seq<char>) -> bool {
    find_from(hay, needle, 0) is Some
}

/// Whether `needle` occurs in `hay`.
pub fn contains(hay: &[char], needle: &[char]) -> (r: bool)
    ensures
        r == occurs(hay@, needle@),
{
    find(hay, needle, 0).is_some()
}

/// The text starts with `p`.
pub open spec fn starts(s: Seq<char>, p: Seq<char>) -> bool {
    stands_at(s, 0, p)
}

/// The text starts with a word.
pub fn starts_with(s: &[char], w: &str) -> (r: bool)
    ensures
        r == starts(s@, w@),
{
    let v = chars_of(w);
    is_at(s, 0, &v)
}

/// The text ends with `p`.
pub open spec fn ends(s: Seq<char>, p: Seq<char>) -> bool {
    stands_at(s, s.len() - p.len(), p)
}

/// Whether the text ends with `p`.
pub fn ends_with(s: &[char], p: &[char]) -> (r: bool)
    ensures
        r == ends(s@, p@),
{
    p.len() <= s.len() && is_at(s, s.len() - p.len(), p)
}

/// The first position at or after `from` that holds `c`.
pub open spec fn char_from(s: Seq<char>, c: char, from: int) -> Option<int>
    decreases s.len() - from,
{
    if from < 0 || from >= s.len() {
        None
    } else if s[from] == c {
        Some(from)
    } else {
        char_from(s, c, from + 1)
    }
}

/// The first position at or after `from` that holds `c`.
pub fn find_char(s: &[char], c: char, from: usize) -> (r: Option<usize>)
    ensures
        match r {
            Some(i) => char_from(s@, c, from as int) == Some(i as int) && from <= i < s@.len()
                && s@[i as int] == c,
            None => char_from(s@, c, from as int) is None,
        },
{
    let mut i: usize = from;
    while i < s.len()
        invariant
            from <= i,
            char_from(s@, c, from as int) == char_from(s@, c, i as int),
        decreases s.len() - i,
    {
        if s[i] == c {
            return Some(i);
        }
        i = i + 1;
    }
    None
}

/// The last position before `upto` that holds `c`.
pub open spec fn last_char_before(s: Seq<char>, c: char, upto: int) -> Option<int>
    decreases upto,
{
    if upto <= 0 || upto > s.len() {
        None
    } else if s[upto - 1] == c {
        Some(upto - 1)
    } else {
        last_char_before(s, c, upto - 1)
    }
}

/// The last position that holds `c`.
pub open spec fn last_char(s: Seq<char>, c: char) -> Option<int> {
    last_char_before(s, c, s.len() as int)
}

/// The last position that holds `c`.
pub fn rfind_char(s: &[char], c: char) -> (r: Option<usize>)
    ensures
        match r {
            Some(i) => last_char(s@, c) == Some(i as int) && i < s@.len() && s@[i as int] == c,
            None => last_char(s@, c) is None,
        },
{
    let mut i: usize = s.len();
    while i > 0
        invariant
            i <= s.len(),
            last_char(s@, c) == last_char_before(s@, c, i as int),
        decreases i,
    {
        if s[i - 1] == c {
            return Some(i - 1);
        }
        i = i - 1;
    }
    None
}

// ---------------------------------------------------------------------------
// Replacing
// ---------------------------------------------------------------------------

/// Every occurrence of `needle`, found from left to right, exchanged for `with`.
pub open spec fn replaced(s: Seq<char>, needle: Seq<char>, with: Seq<char>) -> Seq<char> {
    replaced_from(s, needle, with, 0)
}

/// What `replaced` makes of the text from position `from` on.
pub open spec fn replaced_from(
    s: Seq<char>,
    needle: Seq<char>,
    with: Seq<char>,
    from: int,
) -> Seq<char>
    decreases s.len() - from,
{
    if from < 0 || from >= s.len() || needle.len() == 0 {
        Seq::empty()
    } else if stands_at(s, from, needle) {
        with + replaced_from(s, needle, with, from + needle.len())
    } else {
        seq![s[from]] + replaced_from(s, needle, with, from + 1)
    }
}

/// Exchanges every occurrence of `needle` for `with`.
pub fn replace(s: &[char], needle: &[char], with: &[char]) -> (r: Vec<char>)
    requires
        needle@.len() > 0,
    ensures
        r@ == replaced(s@, needle@, with@),
{
    let mut out: Vec<char> = Vec::new();
    let mut i: usize = 0;
    while i < s.len()
        invariant
            i <= s.len(),
            needle@.len() > 0,
            replaced(s@, needle@, with@) == out@ + replaced_from(s@, needle@, with@, i as int),
        decreases s.len() - i,
    {
        let ghost before = out@;
        if is_at(s, i, needle) {
            push_all(&mut out, with);
            assert(before + (with@ + replaced_from(s@, needle@, with@, i + needle@.len()))
                =~= out@ + replaced_from(s@, needle@, with@, i + needle@.len()));
            i = i + needle.len();
        } else {
            out.push(s[i]);
            assert(before + (seq![s@[i as int]] + replaced_from(s@, needle@, with@, i + 1))
                =~= out@ + replaced_from(s@, needle@, with@, i + 1));
            i = i + 1;
        }
    }
    assert(out@ + Seq::<char>::empty() =~= out@);
    out
}

// ---------------------------------------------------------------------------
// Whitespace and case
// ---------------------------------------------------------------------------

/// The characters with the Unicode property White_Space.
pub open spec fn is_space(c: char) -> bool {
    ||| '\u{9}' <= c <= '\u{d}'
    ||| c == ' '
    ||| c == '\u{85}'
    ||| c == '\u{a0}'
    ||| c == '\u{1680}'
    ||| '\u{2000}' <= c <= '\u{200a}'
    ||| c == '\u{2028}'
    ||| c == '\u{2029}'
    ||| c == '\u{202f}'
    ||| c == '\u{205f}'
    ||| c == '\u{3000}'
}

/// Whether a character is white space.
pub fn space(c: char) -> (r: bool)
    ensures
        r == is_space(c),
{
    ('\u{9}' <= c && c <= '\u{d}') || c == ' ' || c == '\u{85}' || c == '\u{a0}' || c == '\u{1680}'
        || ('\u{2000}' <= c && c <= '\u{200a}') || c == '\u{2028}' || c == '\u{2029}' || c
        == '\u{202f}' || c == '\u{205f}' || c == '\u{3000}'
}

/// The text without the white space at its start.
pub open spec fn trimmed_start(s: Seq<char>) -> Seq<char>
    decreases s.len(),
{
    if s.len() > 0 && is_space(s[0]) {
        trimmed_start(s.skip(1))
    } else {
        s
    }
}

/// The text without the white space at its end.
pub open spec fn trimmed_end(s: Seq<char>) -> Seq<char>
    decreases s.len(),
{
    if s.len() > 0 && is_space(s.last()) {
        trimmed_end(s.drop_last())
    } else {
        s
    }
}

/// The text without white space at either end.
pub open spec fn trimmed(s: Seq<char>) -> Seq<char> {
    trimmed_end(trimmed_start(s))
}

/// Drops white space at the start.
pub fn trim_start(s: &[char]) -> (r: &[char])
    ensures
        r@ == trimmed_start(s@),
{
    let mut i: usize = 0;
    assert(s@.skip(0) =~= s@);
    while i < s.len() && space(s[i])
        invariant
            i <= s.len(),
            trimmed_start(s@) == trimmed_start(s@.skip(i as int)),
        decreases s.len() - i,
    {
        assert(s@.skip(i as int).skip(1) =~= s@.skip(i + 1));
        i = i + 1;
    }
    vstd::slice::slice_subrange(s, i, s.len())
}

/// Drops white space at the end.
pub fn trim_end(s: &[char]) -> (r: &[char])
    ensures
        r@ == trimmed_end(s@),
{
    let mut i: usize = s.len();
    assert(s@.take(i as int) =~= s@);
    while i > 0 && space(s[i - 1])
        invariant
            i <= s.len(),
            trimmed_end(s@) == trimmed_end(s@.take(i as int)),
        decreases i,
    {
        assert(s@.take(i as int).drop_last() =~= s@.take(i - 1));
        i = i - 1;
    }
    vstd::slice::slice_subrange(s, 0, i)
}

/// Drops white space at both ends.
pub fn trim(s: &[char]) -> (r: &[char])
    ensures
        r@ == trimmed(s@),
{
    trim_end(trim_start(s))
}

/// An ASCII capital as its small letter, every other character as it is.
pub open spec fn lower_char(c: char) -> char {
    if 'A' <= c <= 'Z' {
        ((c as u8) + 32) as char
    } else {
        c
    }
}

/// The text with its ASCII capitals made small.
pub open spec fn lower_ascii(s: Seq<char>) -> Seq<char> {
    s.map_values(|c: char| lower_char(c))
}

/// An ASCII capital as its small letter.
pub fn lower_one(c: char) -> (r: char)
    ensures
        r == lower_char(c),
{
    if 'A' <= c && c <= 'Z' {
        ((c as u8) + 32) as char
    } else {
        c
    }
}

/// Makes the ASCII capitals small.
pub fn to_lower_ascii(s: &[char]) -> (r: Vec<char>)
    ensures
        r@ == lower_ascii(s@),
{
    let mut out: Vec<char> = Vec::new();
    let mut i: usize = 0;
    while i < s.len()
        invariant
            i <= s.len(),
            out@ == lower_ascii(s@.take(i as int)),
        decreases s.len() - i,
    {
        out.push(lower_one(s[i]));
        i = i + 1;
        assert(out@ =~= lower_ascii(s@.take(i as int)));
    }
    assert(s@.take(s@.len() as int) =~= s@);
    out
}

/// A decimal digit.
pub open spec fn is_digit(c: char) -> bool {
    '0' <= c <= '9'
}

/// Whether a character is a decimal digit.
pub fn digit(c: char) -> (r: bool)
    ensures
        r == is_digit(c),
{
    '0' <= c && c <= '9'
}

// ---------------------------------------------------------------------------
// Sizes in UTF-8
// ---------------------------------------------------------------------------

/// How many bytes a character takes in UTF-8.
pub open spec fn char_bytes(c: char) -> int {
    if (c as u32) < 0x80 {
        1
    } else if (c as u32) < 0x800 {
        2
    } else if (c as u32) < 0x10000 {
        3
    } else {
        4
    }
}

/// How many bytes a text takes in UTF-8.
pub open spec fn byte_len(s: Seq<char>) -> int
    decreases s.len(),
{
    if s.len() == 0 {
        0
    } else {
        byte_len(s.drop_last()) + char_bytes(s.last())
    }
}

/// How many bytes a character takes in UTF-8.
pub fn utf8_len(c: char) -> (r: usize)
    ensures
        r == char_bytes(c),
        1 <= r <= 4,
{
    if (c as u32) < 0x80 {
        1
    } else if (c as u32) < 0x800 {
        2
    } else if (c as u32) < 0x10000 {
        3
    } else {
        4
    }
}

/// How many bytes a text takes in UTF-8.
pub fn byte_count(s: &[char]) -> (r: u128)
    ensures
        r == byte_len(s@),
{
    let n = s.len();
    let mut total: u128 = 0;
    let mut i: usize = 0;
    assert(s@.take(0) =~= Seq::empty());
    while i < n
        invariant
            n == s@.len(),
            i <= n,
            total == byte_len(s@.take(i as int)),
            total <= 4 * i,
        decreases n - i,
    {
        proof {
            byte_len_step(s@, i as int);
        }
        total = total + utf8_len(s[i]) as u128;
        i = i + 1;
    }
    assert(s@.take(i as int) =~= s@);
    total
}

/// One more character adds its own bytes.
pub proof fn byte_len_step(s: Seq<char>, k: int)
    requires
        0 <= k < s.len(),
    ensures
        byte_len(s.take(k + 1)) == byte_len(s.take(k)) + char_bytes(s[k]),
{
    assert(s.take(k + 1).drop_last() =~= s.take(k));
    assert(s.take(k + 1).last() == s[k]);
}

/// A longer prefix takes strictly more bytes.
pub proof fn byte_len_grows(s: Seq<char>, j: int, k: int)
    requires
        0 <= j <= k <= s.len(),
    ensures
        byte_len(s.take(j)) + (k - j) <= byte_len(s.take(k)),
        0 <= byte_len(s.take(j)),
    decreases k,
{
    if j < k {
        byte_len_grows(s, j, k - 1);
        byte_len_step(s, k - 1);
    } else if k > 0 {
        byte_len_grows(s, j - 1, k - 1);
        byte_len_step(s, k - 1);
    } else {
        assert(s.take(0) =~= Seq::empty());
    }
}

/// The character position that lies `target` bytes into the text, walking on from a position
/// `k` that lies `at` bytes in.
pub fn walk_bytes(text: &[char], k: usize, at: u128, target: u128) -> (r: (usize, u128))
    requires
        k <= text@.len(),
        at == byte_len(text@.take(k as int)),
        exists|e: int| k <= e <= text@.len() && byte_len(#[trigger] text@.take(e)) == target,
    ensures
        k <= r.0 <= text@.len(),
        r.1 == target,
        byte_len(text@.take(r.0 as int)) == target,
{
    let ghost e = choose|e: int|
        k <= e <= text@.len() && byte_len(#[trigger] text@.take(e)) == target;
    let mut i: usize = k;
    let mut b: u128 = at;
    proof {
        byte_len_grows(text@, k as int, e);
    }
    while b < target
        invariant
            k <= i <= e <= text@.len(),
            b == byte_len(text@.take(i as int)),
            b <= target,
            byte_len(text@.take(e)) == target,
        decreases e - i,
    {
        proof {
            byte_len_step(text@, i as int);
            byte_len_grows(text@, i + 1, e);
        }
        b = b + utf8_len(text[i]) as u128;
        i = i + 1;
    }
    (i, b)
}

/// Two prefixes that take equally many bytes are the same.
pub proof fn byte_len_position(s: Seq<char>, j: int, k: int)
    requires
        0 <= j <= s.len(),
        0 <= k <= s.len(),
        byte_len(s.take(j)) == byte_len(s.take(k)),
    ensures
        j == k,
{
    if j < k {
        byte_len_grows(s, j, k);
    } else {
        byte_len_grows(s, k, j);
    }
}

// ---------------------------------------------------------------------------
// Parts of a text
// ---------------------------------------------------------------------------

/// The parts of the text from `from` on that the character `c` sets apart.
pub open spec fn split_from(s: Seq<char>, c: char, from: int) -> Seq<Seq<char>>
    decreases s.len() - from,
{
    match char_from(s, c, from) {
        Some(i) => if from <= i < s.len() {
            seq![s.subrange(from, i)] + split_from(s, c, i + 1)
        } else {
            seq![s.subrange(from, s.len() as int)]
        },
        None => seq![s.subrange(from, s.len() as int)],
    }
}

/// The parts of a text that the character `c` sets apart.
pub open spec fn split(s: Seq<char>, c: char) -> Seq<Seq<char>> {
    split_from(s, c, 0)
}

/// Parts a text at the character `c`.
pub fn split_at(s: &[char], c: char) -> (r: Vec<Vec<char>>)
    ensures
        texts(r@) == split(s@, c),
        r@.len() > 0,
{
    let n = s.len();
    let mut out: Vec<Vec<char>> = Vec::new();
    let mut from: usize = 0;
    assert(texts(out@) =~= Seq::empty());
    assert(texts(out@) + split_from(s@, c, 0) =~= split(s@, c));
    loop
        invariant
            n == s@.len(),
            from <= n,
            split(s@, c) == texts(out@) + split_from(s@, c, from as int),
        decreases n - from,
    {
        let ghost before = out@;
        match find_char(s, c, from) {
            Some(i) => {
                let piece = part(s, from, i);
                out.push(piece);
                proof {
                    texts_push(before, piece);
                }
                assert(texts(before) + (seq![piece@] + split_from(s@, c, i + 1)) =~= texts(out@)
                    + split_from(s@, c, i + 1));
                from = i + 1;
            },
            None => {
                let piece = part(s, from, n);
                out.push(piece);
                proof {
                    texts_push(before, piece);
                }
                assert(texts(before) + seq![piece@] =~= texts(out@));
                return out;
            },
        }
    }
}

/// The characters of each of a list of texts.
pub open spec fn texts(v: Seq<Vec<char>>) -> Seq<Seq<char>> {
    v.map_values(|t: Vec<char>| t@)
}

/// One more text.
pub proof fn texts_push(v: Seq<Vec<char>>, t: Vec<char>)
    ensures
        texts(v.push(t)) == texts(v).push(t@),
{
    assert(texts(v.push(t)) =~= texts(v).push(t@));
}

/// Texts one behind the other with another between each two.
pub open spec fn join(parts: Seq<Seq<char>>, between: Seq<char>) -> Seq<char>
    decreases parts.len(),
{
    if parts.len() == 0 {
        Seq::empty()
    } else if parts.len() == 1 {
        parts[0]
    } else {
        join(parts.drop_last(), between) + between + parts.last()
    }
}

/// Puts texts one behind the other with another between each two.
pub fn join_all(parts: &Vec<Vec<char>>, between: &[char]) -> (r: Vec<char>)
    ensures
        r@ == join(texts(parts@), between@),
{
    let ghost all = texts(parts@);
    let mut out: Vec<char> = Vec::new();
    let mut i: usize = 0;
    assert(all.take(0) =~= Seq::empty());
    while i < parts.len()
        invariant
            i <= parts@.len(),
            all == texts(parts@),
            out@ == join(all.take(i as int), between@),
        decreases parts@.len() - i,
    {
        let ghost before = out@;
        if i > 0 {
            push_all(&mut out, between);
        }
        push_all(&mut out, &parts[i]);
        proof {
            let t = all.take(i + 1);
            assert(t.drop_last() =~= all.take(i as int));
            assert(t.last() == parts@[i as int]@);
            if i == 0 {
                assert(out@ =~= t[0]);
            } else {
                assert(out@ =~= before + between@ + t.last());
            }
        }
        i = i + 1;
    }
    assert(all.take(parts@.len() as int) =~= all);
    out
}

/// How far a run without white space goes from position `i` on.
pub open spec fn word_end(s: Seq<char>, i: int) -> int
    decreases s.len() - i,
{
    if 0 <= i < s.len() && !is_space(s[i]) {
        word_end(s, i + 1)
    } else {
        i
    }
}

/// The text from position `i` on has, among the words that white space sets apart, the word `w`.
pub open spec fn has_word_from(s: Seq<char>, w: Seq<char>, i: int) -> bool
    decreases s.len() - i,
{
    if i < 0 || i >= s.len() {
        false
    } else if is_space(s[i]) {
        has_word_from(s, w, i + 1)
    } else {
        let e = word_end(s, i);
        i < e <= s.len() && (s.subrange(i, e) == w || has_word_from(s, w, e))
    }
}

/// The text has, among the words that white space sets apart, the word `w`.
pub open spec fn has_word(s: Seq<char>, w: Seq<char>) -> bool {
    has_word_from(s, w, 0)
}

/// Whether a text has a word.
pub fn contains_word(s: &[char], w: &[char]) -> (r: bool)
    ensures
        r == has_word(s@, w@),
{
    let mut i: usize = 0;
    while i < s.len()
        invariant
            i <= s@.len(),
            has_word(s@, w@) == has_word_from(s@, w@, i as int),
        decreases s@.len() - i,
    {
        if space(s[i]) {
            i = i + 1;
        } else {
            let mut e: usize = i;
            while e < s.len() && !space(s[e])
                invariant
                    i <= e <= s@.len(),
                    word_end(s@, i as int) == word_end(s@, e as int),
                decreases s@.len() - e,
            {
                e = e + 1;
            }
            assert(word_end(s@, i as int) == e);
            assert(i < e) by {
                if i == e {
                    assert(word_end(s@, i as int + 1) == word_end(s@, i as int));
                }
            }
            let word = part(s, i, e);
            if same(&word, w) {
                return true;
            }
            i = e;
        }
    }
    false
}

/// The word from `a` to `b` of a text is one of its words, and the others from there on are those
/// behind the white space that follows it.
pub proof fn one_word(s: Seq<char>, w: Seq<char>, a: int, b: int)
    requires
        0 <= a < b <= s.len(),
        forall|k: int| a <= k < b ==> !is_space(#[trigger] s[k]),
        b < s.len() ==> is_space(s[b]),
    ensures
        has_word_from(s, w, a) == (s.subrange(a, b) == w || has_word_from(s, w, b + 1)),
{
    ends_there(s, a, b);
    assert(has_word_from(s, w, b) == has_word_from(s, w, b + 1));
}

proof fn ends_there(s: Seq<char>, a: int, b: int)
    requires
        0 <= a <= b <= s.len(),
        forall|k: int| a <= k < b ==> !is_space(#[trigger] s[k]),
        b < s.len() ==> is_space(s[b]),
    ensures
        word_end(s, a) == b,
    decreases b - a,
{
    if a < b {
        ends_there(s, a + 1, b);
    }
}

/// The words of the text from position `i` on that white space sets apart.
pub open spec fn words_from(s: Seq<char>, i: int) -> Seq<Seq<char>>
    decreases s.len() - i,
{
    if i < 0 || i >= s.len() {
        Seq::empty()
    } else if is_space(s[i]) {
        words_from(s, i + 1)
    } else {
        let e = word_end(s, i);
        if i < e <= s.len() {
            seq![s.subrange(i, e)] + words_from(s, e)
        } else {
            Seq::empty()
        }
    }
}

/// The words of a text with one space between each two.
pub open spec fn collapsed(s: Seq<char>) -> Seq<char> {
    join(words_from(s, 0), " "@)
}

/// Makes every run of white space one space, and none at the ends.
pub fn collapse(s: &[char]) -> (r: Vec<char>)
    ensures
        r@ == collapsed(s@),
{
    let n = s.len();
    let mut out: Vec<char> = Vec::new();
    let ghost mut done: Seq<Seq<char>> = Seq::empty();
    let mut first = true;
    let mut i: usize = 0;
    assert(done + words_from(s@, 0) =~= words_from(s@, 0));
    while i < n
        invariant
            n == s@.len(),
            i <= n,
            first == (done.len() == 0),
            out@ == join(done, " "@),
            words_from(s@, 0) == done + words_from(s@, i as int),
        decreases n - i,
    {
        if space(s[i]) {
            i = i + 1;
        } else {
            let mut e: usize = i;
            while e < n && !space(s[e])
                invariant
                    n == s@.len(),
                    i <= e <= n,
                    word_end(s@, i as int) == word_end(s@, e as int),
                decreases n - e,
            {
                e = e + 1;
            }
            assert(word_end(s@, i as int) == e);
            assert(i < e) by {
                if i == e {
                    assert(word_end(s@, i as int + 1) == word_end(s@, i as int));
                }
            }
            let word = part(s, i, e);
            let ghost before = out@;
            if !first {
                push_str(&mut out, " ");
            }
            push_all(&mut out, &word);
            proof {
                let next = done.push(word@);
                assert(next.drop_last() =~= done);
                if done.len() == 0 {
                    assert(out@ =~= word@);
                } else {
                    assert(out@ =~= before + " "@ + word@);
                }
                assert(done + (seq![word@] + words_from(s@, e as int)) =~= next + words_from(
                    s@,
                    e as int,
                ));
                done = next;
            }
            first = false;
            i = e;
        }
    }
    assert(done + Seq::<Seq<char>>::empty() =~= done);
    out
}

/// The first occurrence of `needle` exchanged for `with`.
pub open spec fn replaced_once(s: Seq<char>, needle: Seq<char>, with: Seq<char>) -> Seq<char> {
    match find_from(s, needle, 0) {
        Some(i) => s.take(i) + with + s.skip(i + needle.len()),
        None => s,
    }
}

/// Exchanges the first occurrence of `needle` for `with`.
pub fn replace_once(s: &[char], needle: &[char], with: &[char]) -> (r: Vec<char>)
    ensures
        r@ == replaced_once(s@, needle@, with@),
{
    match find(s, needle, 0) {
        Some(i) => {
            let mut out = part(s, 0, i);
            push_all(&mut out, with);
            let n = s.len();
            let rest = part(s, i + needle.len(), n);
            push_all(&mut out, &rest);
            assert(out@ =~= s@.take(i as int) + with@ + s@.skip(i + needle@.len()));
            out
        },
        None => {
            let out = part(s, 0, s.len());
            assert(out@ =~= s@);
            out
        },
    }
}

/// The text without the characters `c` at its start.
pub open spec fn stripped_start(s: Seq<char>, c: char) -> Seq<char>
    decreases s.len(),
{
    if s.len() > 0 && s[0] == c {
        stripped_start(s.skip(1), c)
    } else {
        s
    }
}

/// The text without the characters `c` at its end.
pub open spec fn stripped_end(s: Seq<char>, c: char) -> Seq<char>
    decreases s.len(),
{
    if s.len() > 0 && s.last() == c {
        stripped_end(s.drop_last(), c)
    } else {
        s
    }
}

/// The text without the characters `c` at either end.
pub open spec fn stripped(s: Seq<char>, c: char) -> Seq<char> {
    stripped_end(stripped_start(s, c), c)
}

/// Drops the characters `c` at the start.
pub fn strip_start(s: &[char], c: char) -> (r: &[char])
    ensures
        r@ == stripped_start(s@, c),
{
    let mut i: usize = 0;
    assert(s@.skip(0) =~= s@);
    while i < s.len() && s[i] == c
        invariant
            i <= s.len(),
            stripped_start(s@, c) == stripped_start(s@.skip(i as int), c),
        decreases s.len() - i,
    {
        assert(s@.skip(i as int).skip(1) =~= s@.skip(i + 1));
        i = i + 1;
    }
    vstd::slice::slice_subrange(s, i, s.len())
}

/// Drops the characters `c` at both ends.
pub fn strip(s: &[char], c: char) -> (r: &[char])
    ensures
        r@ == stripped(s@, c),
{
    let t = strip_start(s, c);
    let mut i: usize = t.len();
    assert(t@.take(i as int) =~= t@);
    while i > 0 && t[i - 1] == c
        invariant
            i <= t.len(),
            stripped_end(t@, c) == stripped_end(t@.take(i as int), c),
        decreases i,
    {
        assert(t@.take(i as int).drop_last() =~= t@.take(i - 1));
        i = i - 1;
    }
    vstd::slice::slice_subrange(t, 0, i)
}

/// Where a text holds no `c` from `from` on, none is found.
pub proof fn char_from_none(s: Seq<char>, c: char, from: int)
    requires
        0 <= from,
        forall|i: int| from <= i < s.len() ==> s[i] != c,
    ensures
        char_from(s, c, from) is None,
    decreases s.len() - from,
{
    if from < s.len() {
        char_from_none(s, c, from + 1);
    }
}

/// The first `c` of a text that another follows: that of the text itself, else the one that
/// stands at its end.
pub proof fn char_from_joint(a: Seq<char>, c: char, b: Seq<char>, from: int)
    requires
        0 <= from <= a.len(),
    ensures
        char_from(a + seq![c] + b, c, from) == match char_from(a, c, from) {
            Some(i) => Some(i),
            None => Some(a.len() as int),
        },
        char_from(a, c, from) matches Some(i) ==> from <= i < a.len(),
    decreases a.len() - from,
{
    let s = a + seq![c] + b;
    if from < a.len() {
        assert(s[from] == a[from]);
        char_from_joint(a, c, b, from + 1);
    } else {
        assert(s[from] == c);
    }
}

/// A text put behind another with `c` between them adds one part, where it holds no `c` itself.
pub proof fn split_joint(a: Seq<char>, c: char, b: Seq<char>, from: int)
    requires
        0 <= from <= a.len(),
        forall|i: int| 0 <= i < b.len() ==> b[i] != c,
    ensures
        split_from(a + seq![c] + b, c, from) == split_from(a, c, from).push(b),
    decreases a.len() - from,
{
    let s = a + seq![c] + b;
    char_from_joint(a, c, b, from);
    match char_from(a, c, from) {
        Some(i) => {
            split_joint(a, c, b, i + 1);
            assert(s.subrange(from, i) =~= a.subrange(from, i));
            assert(split_from(s, c, from) =~= split_from(a, c, from).push(b));
        },
        None => {
            let n = a.len() as int;
            assert forall|i: int| n + 1 <= i < s.len() implies s[i] != c by {
                assert(s[i] == b[i - n - 1]);
            }
            char_from_none(s, c, n + 1);
            assert(s.subrange(n + 1, s.len() as int) =~= b);
            assert(s.subrange(from, n) =~= a.subrange(from, n));
            assert(split_from(s, c, n + 1) == seq![b]);
            assert(split_from(s, c, from) == seq![s.subrange(from, n)] + split_from(s, c, n + 1));
            assert(split_from(a, c, from) == seq![a.subrange(from, n)]);
            assert(split_from(s, c, from) =~= split_from(a, c, from).push(b));
        },
    }
}

/// Texts that hold no `c`, joined by `c`, are parted into the same texts again.
pub proof fn split_of_join(parts: Seq<Seq<char>>, c: char)
    requires
        parts.len() > 0,
        forall|i: int, k: int| 0 <= i < parts.len() && 0 <= k < parts[i].len() ==> parts[i][k] != c,
    ensures
        split(join(parts, seq![c]), c) == parts,
    decreases parts.len(),
{
    if parts.len() == 1 {
        char_from_none(parts[0], c, 0);
        assert(parts[0].subrange(0, parts[0].len() as int) =~= parts[0]);
        assert(split(parts[0], c) =~= parts);
    } else {
        let front = parts.drop_last();
        split_of_join(front, c);
        split_joint(join(front, seq![c]), c, parts.last(), 0);
        assert(front.push(parts.last()) =~= parts);
    }
}

/// No part of a text holds the character it was parted at, nor one that the text does not hold.
pub proof fn split_parts(s: Seq<char>, c: char, from: int)
    requires
        0 <= from <= s.len(),
    ensures
        split_from(s, c, from).len() > 0,
        forall|i: int, k: int|
            0 <= i < split_from(s, c, from).len() && 0 <= k < split_from(s, c, from)[i].len()
                ==> (#[trigger] split_from(s, c, from)[i][k]) != c && s.contains(
                split_from(s, c, from)[i][k],
            ),
    decreases s.len() - from,
{
    match char_from(s, c, from) {
        Some(i) => if from <= i < s.len() {
            split_parts(s, c, i + 1);
            char_from_is_first(s, c, from);
            let rest = split_from(s, c, i + 1);
            let all = split_from(s, c, from);
            assert forall|j: int, k: int|
                0 <= j < all.len() && 0 <= k < all[j].len() implies (#[trigger] all[j][k]) != c
                && s.contains(all[j][k]) by {
                if j == 0 {
                    assert(all[j][k] == s[from + k]);
                } else {
                    assert(all[j] == rest[j - 1]);
                    assert(rest[j - 1][k] != c);
                }
            }
        } else {
            char_from_is_first(s, c, from);
        },
        None => {
            char_from_is_first(s, c, from);
            let all = split_from(s, c, from);
            assert forall|j: int, k: int|
                0 <= j < all.len() && 0 <= k < all[j].len() implies (#[trigger] all[j][k]) != c
                && s.contains(all[j][k]) by {
                assert(all[j][k] == s[from + k]);
            }
        },
    }
}

/// `char_from` gives the least position.
pub proof fn char_from_is_first(s: Seq<char>, c: char, from: int)
    requires
        0 <= from,
    ensures
        match char_from(s, c, from) {
            Some(i) => from <= i < s.len() && s[i] == c && forall|j: int|
                from <= j < i ==> s[j] != c,
            None => forall|j: int| from <= j < s.len() ==> s[j] != c,
        },
    decreases s.len() - from,
{
    if from < s.len() && s[from] != c {
        char_from_is_first(s, c, from + 1);
    }
}

/// A text that does not hold `c` is left as it is where `c` is exchanged.
pub proof fn replaced_absent(s: Seq<char>, c: char, with: Seq<char>, from: int)
    requires
        0 <= from <= s.len(),
        !s.contains(c),
    ensures
        replaced_from(s, seq![c], with, from) == s.skip(from),
    decreases s.len() - from,
{
    if from < s.len() {
        assert(s.contains(s[from]));
        if stands_at(s, from, seq![c]) {
            assert(s.subrange(from, from + 1)[0] == s[from]);
            assert(seq![c][0] == c);
        }
        replaced_absent(s, c, with, from + 1);
        assert(seq![s[from]] + s.skip(from + 1) =~= s.skip(from));
    } else {
        assert(s.skip(from) =~= Seq::empty());
    }
}

/// Exchanging `c` for texts that do not hold it leaves none.
pub proof fn replaced_leaves_none(s: Seq<char>, c: char, with: Seq<char>, from: int)
    requires
        0 <= from <= s.len(),
        !with.contains(c),
    ensures
        !replaced_from(s, seq![c], with, from).contains(c),
    decreases s.len() - from,
{
    if from < s.len() {
        replaced_leaves_none(s, c, with, from + 1);
        let rest = replaced_from(s, seq![c], with, from + 1);
        let all = replaced_from(s, seq![c], with, from);
        if stands_at(s, from, seq![c]) {
            assert(all == with + rest);
        } else {
            assert(s[from] != c) by {
                if s[from] == c {
                    assert(s.subrange(from, from + 1) =~= seq![c]);
                }
            }
            assert(all == seq![s[from]] + rest);
        }
        if all.contains(c) {
            let k = choose|k: int| 0 <= k < all.len() && all[k] == c;
            if stands_at(s, from, seq![c]) {
                if k < with.len() {
                    assert(with.contains(with[k]));
                } else {
                    assert(rest.contains(rest[k - with.len()]));
                }
            } else if k >= 1 {
                assert(rest.contains(rest[k - 1]));
            }
        }
    }
}

/// A text with one character exchanged wherever it stands.
pub open spec fn swapped(s: Seq<char>, c: char, with: Seq<char>) -> Seq<char>
    decreases s.len(),
{
    if s.len() == 0 {
        Seq::empty()
    } else {
        (if s[0] == c {
            with
        } else {
            seq![s[0]]
        }) + swapped(s.drop_first(), c, with)
    }
}

/// Replacing a text of one character swaps that character.
pub proof fn replacing_one_swaps(s: Seq<char>, c: char, with: Seq<char>, from: int)
    requires
        0 <= from <= s.len(),
    ensures
        replaced_from(s, seq![c], with, from) == swapped(s.skip(from), c, with),
    decreases s.len() - from,
{
    if from < s.len() {
        replacing_one_swaps(s, c, with, from + 1);
        assert(s.skip(from).drop_first() =~= s.skip(from + 1));
        assert(s.skip(from)[0] == s[from]);
        assert(stands_at(s, from, seq![c]) == (s[from] == c)) by {
            assert(s.subrange(from, from + 1)[0] == s[from]);
            if s[from] == c {
                assert(s.subrange(from, from + 1) =~= seq![c]);
            } else if stands_at(s, from, seq![c]) {
                assert(seq![c][0] == c);
            }
        }
    } else {
        assert(s.skip(from) =~= Seq::empty());
    }
}

/// Swapping in two texts swaps in both.
pub proof fn swapped_joint(a: Seq<char>, b: Seq<char>, c: char, with: Seq<char>)
    ensures
        swapped(a + b, c, with) == swapped(a, c, with) + swapped(b, c, with),
    decreases a.len(),
{
    if a.len() == 0 {
        assert(a + b =~= b);
        assert(swapped(a, c, with) + swapped(b, c, with) =~= swapped(b, c, with));
    } else {
        swapped_joint(a.drop_first(), b, c, with);
        assert((a + b).drop_first() =~= a.drop_first() + b);
        assert((a + b)[0] == a[0]);
        assert(swapped(a + b, c, with) =~= swapped(a, c, with) + swapped(b, c, with));
    }
}

/// Swapping a character that is not there changes nothing.
pub proof fn swapped_absent(a: Seq<char>, c: char, with: Seq<char>)
    requires
        forall|i: int| 0 <= i < a.len() ==> #[trigger] a[i] != c,
    ensures
        swapped(a, c, with) == a,
    decreases a.len(),
{
    if a.len() > 0 {
        let t = a.drop_first();
        assert forall|i: int| 0 <= i < t.len() implies #[trigger] t[i] != c by {
            assert(t[i] == a[i + 1]);
        }
        swapped_absent(t, c, with);
        assert(seq![a[0]] + t =~= a);
    } else {
        assert(swapped(a, c, with) =~= a);
    }
}

/// A joined text holds only what its parts and the text between them hold.
pub proof fn join_holds(parts: Seq<Seq<char>>, between: Seq<char>, c: char)
    requires
        !between.contains(c),
        forall|i: int| 0 <= i < parts.len() ==> !(#[trigger] parts[i]).contains(c),
    ensures
        !join(parts, between).contains(c),
    decreases parts.len(),
{
    if parts.len() > 1 {
        let front = parts.drop_last();
        join_holds(front, between, c);
        let all = join(parts, between);
        let f = join(front, between);
        if all.contains(c) {
            let k = choose|k: int| 0 <= k < all.len() && all[k] == c;
            if k < f.len() {
                assert(f.contains(f[k]));
            } else if k < f.len() + between.len() {
                assert(between.contains(between[k - f.len()]));
            } else {
                assert(parts[parts.len() - 1].contains(parts.last()[k - f.len() - between.len()]));
            }
        }
    }
}

/// A line without the carriage return at its end.
pub open spec fn without_return(s: Seq<char>) -> Seq<char> {
    if s.len() > 0 && s.last() == '\r' {
        s.drop_last()
    } else {
        s
    }
}

/// The lines of the text from `from` on, without their endings. A text that ends with a line
/// feed has no empty line behind it.
pub open spec fn lines_from(s: Seq<char>, from: int) -> Seq<Seq<char>>
    decreases s.len() - from,
{
    if from < 0 || from >= s.len() {
        Seq::empty()
    } else {
        match char_from(s, '\n', from) {
            Some(i) => if from <= i < s.len() {
                seq![without_return(s.subrange(from, i))] + lines_from(s, i + 1)
            } else {
                seq![s.subrange(from, s.len() as int)]
            },
            None => seq![s.subrange(from, s.len() as int)],
        }
    }
}

/// The lines of a text.
pub open spec fn lines(s: Seq<char>) -> Seq<Seq<char>> {
    lines_from(s, 0)
}

/// Parts a text into its lines.
pub fn lines_of(s: &[char]) -> (r: Vec<Vec<char>>)
    ensures
        texts(r@) == lines(s@),
{
    let n = s.len();
    let mut out: Vec<Vec<char>> = Vec::new();
    let mut from: usize = 0;
    assert(texts(out@) =~= Seq::empty());
    assert(texts(out@) + lines_from(s@, 0) =~= lines(s@));
    while from < n
        invariant
            n == s@.len(),
            from <= n,
            lines(s@) == texts(out@) + lines_from(s@, from as int),
        decreases n - from,
    {
        let ghost before = out@;
        match find_char(s, '\n', from) {
            Some(i) => {
                let end: usize = if i > from && s[i - 1] == '\r' {
                    i - 1
                } else {
                    i
                };
                let line = part(s, from, end);
                assert(line@ =~= without_return(s@.subrange(from as int, i as int)));
                out.push(line);
                proof {
                    texts_push(before, line);
                }
                assert(texts(before) + (seq![line@] + lines_from(s@, i + 1)) =~= texts(out@)
                    + lines_from(s@, i + 1));
                from = i + 1;
            },
            None => {
                let line = part(s, from, n);
                out.push(line);
                proof {
                    texts_push(before, line);
                }
                assert(lines_from(s@, n as int) =~= Seq::empty());
                assert(texts(before) + seq![line@] =~= texts(out@) + lines_from(s@, n as int));
                from = n;
            },
        }
    }
    assert(texts(out@) + Seq::<Seq<char>>::empty() =~= texts(out@));
    out
}


/// Lines one after another, each with a line feed behind it and perhaps a carriage return before that.
pub open spec fn as_lines(rows: Seq<Seq<char>>, both: bool) -> Seq<char>
    decreases rows.len(),
{
    if rows.len() == 0 {
        Seq::empty()
    } else {
        rows[0] + (if both {
            seq!['\r', '\n']
        } else {
            seq!['\n']
        }) + as_lines(rows.skip(1), both)
    }
}

proof fn lines_go_on(front: Seq<char>, rows: Seq<Seq<char>>, both: bool)
    requires
        forall|i: int| 0 <= i < rows.len() ==> is_line(#[trigger] rows[i]),
    ensures
        lines_from(front + as_lines(rows, both), front.len() as int) == rows,
    decreases rows.len(),
{
    let s = front + as_lines(rows, both);
    if rows.len() > 0 {
        let row = rows[0];
        let end = if both {
            seq!['\r', '\n']
        } else {
            seq!['\n']
        };
        let more = rows.skip(1);
        assert(is_line(row));
        assert(s =~= (front + row + end) + as_lines(more, both));
        let at = front.len() as int;
        let k = at + row.len() + end.len() - 1;
        assert(s[k] == '\n');
        assert forall|j: int| at <= j < k implies s[j] != '\n' by {
            if j < at + row.len() {
                assert(s[j] == row[j - at]);
                assert(row.contains(row[j - at]));
            } else {
                assert(s[j] == '\r');
            }
        }
        char_from_is_first(s, '\n', at);
        let found = char_from(s, '\n', at).unwrap();
        if found < k {
            assert(s[found] != '\n');
        }
        assert forall|i: int| 0 <= i < more.len() implies is_line(#[trigger] more[i]) by {
            assert(more[i] == rows[i + 1]);
        }
        lines_go_on(front + row + end, more, both);
        let piece = s.subrange(at, k);
        if both {
            assert(piece.drop_last() =~= row);
            assert(piece.last() == '\r');
        } else {
            assert(piece =~= row);
        }
        assert(seq![row] + more =~= rows);
    } else {
        assert(rows =~= Seq::empty());
    }
}

/// A text that can be a line: without a line feed, and with no carriage return at its end.
pub open spec fn is_line(row: Seq<char>) -> bool {
    !row.contains('\n') && (row.len() > 0 ==> row.last() != '\r')
}

/// Lines are read as they were written, with either kind of ending: none is lost, empty ones included, and
/// none comes behind the last ending.
pub proof fn lines_are_read_as_written(rows: Seq<Seq<char>>, both: bool)
    requires
        forall|i: int| 0 <= i < rows.len() ==> is_line(#[trigger] rows[i]),
    ensures
        lines(as_lines(rows, both)) == rows,
{
    lines_go_on(Seq::empty(), rows, both);
    assert(Seq::<char>::empty() + as_lines(rows, both) =~= as_lines(rows, both));
}

} // verus!
