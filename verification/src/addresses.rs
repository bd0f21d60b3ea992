//! Addresses lead back to what they were made of.
use vstd::prelude::*;
use crate::parser::encoded_path;
use crate::text::{replacing_one_swaps, swapped, swapped_absent, swapped_joint};
use crate::transfer::{
    capital_digit, hex_value, is_plain, percent_byte, percent_bytes, percent_encoded,
    percent_undone,
};
use vstd::utf8::{
    char_is_scalar, encode_scalar, encode_utf8, is_ascii_chars_encode_utf8,
    last_continuation_byte, leading_byte_width_1, leading_byte_width_2, leading_byte_width_3, leading_byte_width_4,
    second_last_continuation_byte, third_last_continuation_byte,
};

verus! {

// ---------------------------------------------------------------------------
// Undoing, piece by piece
// ---------------------------------------------------------------------------

proof fn undone_behind(b: Seq<u8>, i: int, k: int)
    requires
        0 <= i,
        0 <= k,
        i + k <= b.len(),
    ensures
        percent_undone(b, i + k) == percent_undone(b.skip(i), k),
    decreases b.len() - i - k,
{
    let t = b.skip(i);
    if i + k < b.len() {
        assert(t[k] == b[i + k]);
        if k + 2 < t.len() {
            assert(t[k + 1] == b[i + k + 1]);
            assert(t[k + 2] == b[i + k + 2]);
        }
        if i + k + 3 <= b.len() {
            undone_behind(b, i, k + 3);
        }
        undone_behind(b, i, k + 1);
    }
}

proof fn undone_plain(c: u8, rest: Seq<u8>)
    requires
        c != 0x25,
    ensures
        percent_undone(seq![c] + rest, 0) == seq![c] + percent_undone(rest, 0),
{
    let b = seq![c] + rest;
    assert(b[0] == c);
    undone_behind(b, 1, 0);
    assert(b.skip(1) =~= rest);
}

proof fn undone_escape(h: u8, l: u8, rest: Seq<u8>)
    requires
        hex_value(h) is Some,
        hex_value(l) is Some,
    ensures
        percent_undone(seq![0x25u8, h, l] + rest, 0) == seq![
            (16 * hex_value(h).unwrap() + hex_value(l).unwrap()) as u8,
        ] + percent_undone(rest, 0),
{
    let b = seq![0x25u8, h, l] + rest;
    assert(b[0] == 0x25 && b[1] == h && b[2] == l);
    undone_behind(b, 3, 0);
    assert(b.skip(3) =~= rest);
}

proof fn undone_without_percent(a: Seq<u8>, rest: Seq<u8>)
    requires
        forall|i: int| 0 <= i < a.len() ==> #[trigger] a[i] != 0x25,
    ensures
        percent_undone(a + rest, 0) == a + percent_undone(rest, 0),
    decreases a.len(),
{
    if a.len() == 0 {
        assert(a + rest =~= rest);
        assert(a + percent_undone(rest, 0) =~= percent_undone(rest, 0));
    } else {
        let t = a.skip(1);
        assert forall|i: int| 0 <= i < t.len() implies #[trigger] t[i] != 0x25 by {
            assert(t[i] == a[i + 1]);
        }
        undone_without_percent(t, rest);
        undone_plain(a[0], t + rest);
        assert(a + rest =~= seq![a[0]] + (t + rest));
        assert(a + percent_undone(rest, 0) =~= seq![a[0]] + (t + percent_undone(rest, 0)));
    }
}

proof fn encoded_joint(a: Seq<char>, b: Seq<char>)
    ensures
        encode_utf8(a + b) == encode_utf8(a) + encode_utf8(b),
    decreases a.len(),
{
    if a.len() == 0 {
        assert(a + b =~= b);
        assert(encode_utf8(a) + encode_utf8(b) =~= encode_utf8(b));
    } else {
        encoded_joint(a.drop_first(), b);
        assert((a + b).drop_first() =~= a.drop_first() + b);
        assert((a + b)[0] == a[0]);
        assert(encode_utf8(a + b) =~= encode_utf8(a) + encode_utf8(b));
    }
}

proof fn encoded_ascii(s: Seq<char>, b: Seq<u8>)
    requires
        s.len() == b.len(),
        forall|i: int|
            0 <= i < s.len() ==> (#[trigger] s[i]) as u8 == b[i] && 0 <= (s[i] as int) < 128,
    ensures
        encode_utf8(s) == b,
{
    assert forall|i: int| 0 <= i < s.len() implies '\0' <= #[trigger] s[i] <= '\u{7f}' by {
        assert(0 <= (s[i] as int) < 128);
    }
    is_ascii_chars_encode_utf8(s);
    assert(encode_utf8(s) =~= b);
}

// ---------------------------------------------------------------------------
// Paths with every byte escaped that has a meaning
// ---------------------------------------------------------------------------

proof fn written_from_the_front(b: Seq<u8>)
    requires
        b.len() > 0,
    ensures
        percent_bytes(b) == percent_byte(b[0]) + percent_bytes(b.drop_first()),
    decreases b.len(),
{
    if b.len() == 1 {
        assert(b.drop_last() =~= Seq::empty());
        assert(b.drop_first() =~= Seq::empty());
        assert(percent_bytes(b) =~= percent_byte(b[0]) + percent_bytes(b.drop_first()));
    } else {
        written_from_the_front(b.drop_last());
        assert(b.drop_last().drop_first() =~= b.drop_first().drop_last());
        assert(b.drop_first().last() == b.last());
        assert(percent_bytes(b) =~= percent_byte(b[0]) + percent_bytes(b.drop_first()));
    }
}

proof fn one_byte_is_read_back(b: u8, rest: Seq<u8>)
    ensures
        percent_undone(encode_utf8(percent_byte(b)) + rest, 0) == seq![b] + percent_undone(rest, 0),
{
    if is_plain(b) {
        assert((b as char) as u8 == b && ((b as char) as int) < 128);
        encoded_ascii(percent_byte(b), seq![b]);
        undone_plain(b, rest);
    } else {
        let h = capital_digit(b as int / 16);
        let l = capital_digit(b as int % 16);
        let code = seq![0x25u8, h as u8, l as u8];
        assert(('%' as u32) == 0x25);
        encoded_ascii(percent_byte(b), code);
        assert(hex_value(h as u8) == Some(b as int / 16));
        assert(hex_value(l as u8) == Some(b as int % 16));
        undone_escape(h as u8, l as u8, rest);
        assert(16 * (b as int / 16) + b as int % 16 == b);
    }
}

proof fn bytes_are_read_back(b: Seq<u8>)
    ensures
        percent_undone(encode_utf8(percent_bytes(b)), 0) == b,
    decreases b.len(),
{
    if b.len() == 0 {
        assert(percent_bytes(b) =~= Seq::empty());
        assert(percent_undone(encode_utf8(percent_bytes(b)), 0) =~= b);
    } else {
        let rest = b.drop_first();
        bytes_are_read_back(rest);
        written_from_the_front(b);
        encoded_joint(percent_byte(b[0]), percent_bytes(rest));
        one_byte_is_read_back(b[0], encode_utf8(percent_bytes(rest)));
        assert(seq![b[0]] + rest =~= b);
    }
}

/// What stands in an address for a path gives the path back, whatever its characters.
pub proof fn a_path_is_read_back(path: Seq<char>)
    ensures
        percent_undone(encode_utf8(percent_encoded(path)), 0) == encode_utf8(path),
{
    bytes_are_read_back(encode_utf8(path));
}

// ---------------------------------------------------------------------------
// Paths with only what would break an address escaped
// ---------------------------------------------------------------------------

/// How one character is written in an address.
spec fn spelled(c: char) -> Seq<char> {
    if c == ' ' {
        "%20"@
    } else if c == '#' {
        "%23"@
    } else if c == '?' {
        "%3F"@
    } else if c == '\\' {
        "/"@
    } else {
        seq![c]
    }
}

spec fn all_swapped(s: Seq<char>) -> Seq<char> {
    swapped(
        swapped(swapped(swapped(s, ' ', "%20"@), '#', "%23"@), '?', "%3F"@),
        '\\',
        "/"@,
    )
}

proof fn encoding_swaps_all(p: Seq<char>)
    ensures
        encoded_path(p) == all_swapped(p),
{
    let a = swapped(p, ' ', "%20"@);
    let b = swapped(a, '#', "%23"@);
    let c = swapped(b, '?', "%3F"@);
    replacing_one_swaps(p, ' ', "%20"@, 0);
    assert(p.skip(0) =~= p);
    replacing_one_swaps(a, '#', "%23"@, 0);
    assert(a.skip(0) =~= a);
    replacing_one_swaps(b, '?', "%3F"@, 0);
    assert(b.skip(0) =~= b);
    replacing_one_swaps(c, '\\', "/"@, 0);
    assert(c.skip(0) =~= c);
}

proof fn one_is_spelled(c: char)
    ensures
        all_swapped(seq![c]) == spelled(c),
{
    reveal_strlit("%20");
    reveal_strlit("%23");
    reveal_strlit("%3F");
    reveal_strlit("/");
    let s = seq![c];
    let none = Seq::<char>::empty();
    assert(s.drop_first() =~= none);
    let first = swapped(s, ' ', "%20"@);
    assert(first =~= if c == ' ' {
        "%20"@
    } else {
        s
    }) by {
        assert(swapped(none, ' ', "%20"@) =~= none);
    }
    let second = swapped(first, '#', "%23"@);
    assert(second =~= if c == ' ' {
        "%20"@
    } else if c == '#' {
        "%23"@
    } else {
        s
    }) by {
        assert(swapped(none, '#', "%23"@) =~= none);
        if c == ' ' {
            swapped_absent(first, '#', "%23"@);
        }
    }
    let third = swapped(second, '?', "%3F"@);
    assert(third =~= if c == ' ' {
        "%20"@
    } else if c == '#' {
        "%23"@
    } else if c == '?' {
        "%3F"@
    } else {
        s
    }) by {
        assert(swapped(none, '?', "%3F"@) =~= none);
        if c == ' ' || c == '#' {
            swapped_absent(second, '?', "%3F"@);
        }
    }
    assert(swapped(third, '\\', "/"@) =~= spelled(c)) by {
        assert(swapped(none, '\\', "/"@) =~= none);
        if c == ' ' || c == '#' || c == '?' {
            swapped_absent(third, '\\', "/"@);
        }
    }
}

proof fn spelled_from_the_front(p: Seq<char>)
    requires
        p.len() > 0,
    ensures
        all_swapped(p) == spelled(p[0]) + all_swapped(p.drop_first()),
{
    let f = seq![p[0]];
    let r = p.drop_first();
    assert(p =~= f + r);
    swapped_joint(f, r, ' ', "%20"@);
    let f1 = swapped(f, ' ', "%20"@);
    let r1 = swapped(r, ' ', "%20"@);
    swapped_joint(f1, r1, '#', "%23"@);
    let f2 = swapped(f1, '#', "%23"@);
    let r2 = swapped(r1, '#', "%23"@);
    swapped_joint(f2, r2, '?', "%3F"@);
    let f3 = swapped(f2, '?', "%3F"@);
    let r3 = swapped(r2, '?', "%3F"@);
    swapped_joint(f3, r3, '\\', "/"@);
    one_is_spelled(p[0]);
}

proof fn wide_bytes_are_no_percent(c: u32)
    by (bit_vector)
    ensures
        leading_byte_width_2(c) != 0x25,
        leading_byte_width_3(c) != 0x25,
        leading_byte_width_4(c) != 0x25,
        last_continuation_byte(c) != 0x25,
        second_last_continuation_byte(c) != 0x25,
        third_last_continuation_byte(c) != 0x25,
        c <= 0x7f && c != 0x25 ==> leading_byte_width_1(c) != 0x25,
{
}

/// A path with slashes for backslashes.
pub open spec fn slashed(p: Seq<char>) -> Seq<char> {
    p.map_values(
        |c: char|
            if c == '\\' {
                '/'
            } else {
                c
            },
    )
}

proof fn one_character_is_read_back(c: char, rest: Seq<u8>)
    requires
        c != '%',
    ensures
        percent_undone(encode_utf8(spelled(c)) + rest, 0) == encode_utf8(slashed(seq![c]))
            + percent_undone(rest, 0),
{
    reveal_strlit("%20");
    reveal_strlit("%23");
    reveal_strlit("%3F");
    reveal_strlit("/");
    if c == ' ' {
        encoded_ascii("%20"@, seq![0x25u8, 0x32, 0x30]);
        undone_escape(0x32, 0x30, rest);
        encoded_ascii(slashed(seq![c]), seq![0x20u8]);
    } else if c == '#' {
        encoded_ascii("%23"@, seq![0x25u8, 0x32, 0x33]);
        undone_escape(0x32, 0x33, rest);
        encoded_ascii(slashed(seq![c]), seq![0x23u8]);
    } else if c == '?' {
        encoded_ascii("%3F"@, seq![0x25u8, 0x33, 0x46]);
        undone_escape(0x33, 0x46, rest);
        encoded_ascii(slashed(seq![c]), seq![0x3fu8]);
    } else if c == '\\' {
        encoded_ascii("/"@, seq![0x2fu8]);
        undone_plain(0x2f, rest);
        encoded_ascii(slashed(seq![c]), seq![0x2fu8]);
    } else {
        let code = encode_utf8(seq![c]);
        assert(slashed(seq![c]) =~= seq![c]);
        assert(seq![c].drop_first() =~= Seq::empty());
        assert(encode_utf8(Seq::<char>::empty()) =~= Seq::empty());
        assert(code =~= encode_scalar(c as u32));
        wide_bytes_are_no_percent(c as u32);
        char_is_scalar(c);
        assert forall|i: int| 0 <= i < code.len() implies #[trigger] code[i] != 0x25 by {}
        undone_without_percent(code, rest);
    }
}

/// What stands in an address for a path without percent signs gives the path back, with slashes
/// for backslashes.
pub proof fn a_plain_path_is_read_back(path: Seq<char>)
    requires
        !path.contains('%'),
    ensures
        percent_undone(encode_utf8(encoded_path(path)), 0) == encode_utf8(slashed(path)),
    decreases path.len(),
{
    encoding_swaps_all(path);
    if path.len() == 0 {
        assert(all_swapped(path) =~= Seq::empty());
        assert(slashed(path) =~= Seq::empty());
        assert(percent_undone(encode_utf8(all_swapped(path)), 0) =~= Seq::empty());
    } else {
        let f = seq![path[0]];
        let r = path.drop_first();
        assert(path.contains(path[0]));
        assert(!r.contains('%')) by {
            if r.contains('%') {
                let k = choose|k: int| 0 <= k < r.len() && r[k] == '%';
                assert(path[k + 1] == '%');
            }
        }
        a_plain_path_is_read_back(r);
        encoding_swaps_all(r);
        spelled_from_the_front(path);
        encoded_joint(spelled(path[0]), all_swapped(r));
        one_character_is_read_back(path[0], encode_utf8(all_swapped(r)));
        assert(slashed(path) =~= slashed(f) + slashed(r));
        encoded_joint(slashed(f), slashed(r));
    }
}

} // verus!
