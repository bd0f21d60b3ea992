//! Texts that were written as attributes are read back as they were.
use vstd::prelude::*;
use crate::parser::{entity, escaped, unescaped, unescaped_from};
use crate::text::{
    char_from, char_from_is_first, replacing_one_swaps, swapped, swapped_absent, swapped_joint,
};

verus! {

proof fn char_from_behind(s: Seq<char>, c: char, i: int, k: int)
    requires
        0 <= i,
        0 <= k,
        i + k <= s.len(),
    ensures
        char_from(s, c, i + k) == match char_from(s.skip(i), c, k) {
            Some(e) => Some(e + i),
            None => None,
        },
    decreases s.len() - i - k,
{
    if i + k < s.len() {
        assert(s.skip(i)[k] == s[i + k]);
        char_from_behind(s, c, i, k + 1);
    }
}

proof fn unescaped_behind(s: Seq<char>, i: int, k: int)
    requires
        0 <= i,
        0 <= k,
        i + k <= s.len(),
    ensures
        unescaped_from(s, i + k) == unescaped_from(s.skip(i), k),
    decreases s.len() - i - k,
{
    let t = s.skip(i);
    if i + k < s.len() {
        assert(t[k] == s[i + k]);
        unescaped_behind(s, i, k + 1);
        char_from_behind(s, ';', i, k);
        if let Some(e) = char_from(t, ';', k) {
            if k + 2 <= e && e < t.len() {
                assert(s.subrange(i + k + 1, e + i) =~= t.subrange(k + 1, e));
                unescaped_behind(s, i, e + 1);
            }
        }
    }
}

proof fn plain_is_read_back(c: char, rest: Seq<char>)
    requires
        c != '&',
    ensures
        unescaped(seq![c] + rest) == seq![c] + unescaped(rest),
{
    let s = seq![c] + rest;
    assert(s[0] == c);
    unescaped_behind(s, 1, 0);
    assert(s.skip(1) =~= rest);
}

proof fn entity_is_read_back(name: Seq<char>, c: char, rest: Seq<char>)
    requires
        1 <= name.len() <= 11,
        !name.contains(';'),
        entity(name) == Some(c),
    ensures
        unescaped(seq!['&'] + name + seq![';'] + rest) == seq![c] + unescaped(rest),
{
    let s = seq!['&'] + name + seq![';'] + rest;
    let e = name.len() + 1;
    assert(s[0] == '&');
    assert(s[e as int] == ';');
    char_from_is_first(s, ';', 0);
    if let Some(k) = char_from(s, ';', 0) {
        if 0 < k < e {
            assert(s[k] == name[k - 1]);
            assert(name.contains(name[k - 1]));
        }
    }
    assert(char_from(s, ';', 0) == Some(e as int));
    assert(s.subrange(1, e as int) =~= name);
    unescaped_behind(s, e as int + 1, 0);
    assert(s.skip(e as int + 1) =~= rest);
}

/// How one character is written in an attribute.
spec fn spelled(c: char) -> Seq<char> {
    if c == '&' {
        "&amp;"@
    } else if c == '<' {
        "&lt;"@
    } else if c == '>' {
        "&gt;"@
    } else if c == '"' {
        "&quot;"@
    } else {
        seq![c]
    }
}

spec fn all_swapped(s: Seq<char>) -> Seq<char> {
    swapped(
        swapped(swapped(swapped(s, '&', "&amp;"@), '<', "&lt;"@), '>', "&gt;"@),
        '"',
        "&quot;"@,
    )
}

proof fn escaping_swaps_all(p: Seq<char>)
    ensures
        escaped(p) == all_swapped(p),
{
    let a = swapped(p, '&', "&amp;"@);
    let b = swapped(a, '<', "&lt;"@);
    let c = swapped(b, '>', "&gt;"@);
    replacing_one_swaps(p, '&', "&amp;"@, 0);
    assert(p.skip(0) =~= p);
    replacing_one_swaps(a, '<', "&lt;"@, 0);
    assert(a.skip(0) =~= a);
    replacing_one_swaps(b, '>', "&gt;"@, 0);
    assert(b.skip(0) =~= b);
    replacing_one_swaps(c, '"', "&quot;"@, 0);
    assert(c.skip(0) =~= c);
}

proof fn one_is_spelled(c: char)
    ensures
        all_swapped(seq![c]) == spelled(c),
{
    reveal_strlit("&amp;");
    reveal_strlit("&lt;");
    reveal_strlit("&gt;");
    reveal_strlit("&quot;");
    let s = seq![c];
    let none = Seq::<char>::empty();
    assert(s.drop_first() =~= none);
    let first = swapped(s, '&', "&amp;"@);
    assert(first =~= if c == '&' {
        "&amp;"@
    } else {
        s
    }) by {
        assert(swapped(none, '&', "&amp;"@) =~= none);
    }
    let second = swapped(first, '<', "&lt;"@);
    assert(second =~= if c == '&' {
        "&amp;"@
    } else if c == '<' {
        "&lt;"@
    } else {
        s
    }) by {
        assert(swapped(none, '<', "&lt;"@) =~= none);
        if c == '&' {
            swapped_absent(first, '<', "&lt;"@);
        }
    }
    let third = swapped(second, '>', "&gt;"@);
    assert(third =~= if c == '&' {
        "&amp;"@
    } else if c == '<' {
        "&lt;"@
    } else if c == '>' {
        "&gt;"@
    } else {
        s
    }) by {
        assert(swapped(none, '>', "&gt;"@) =~= none);
        if c == '&' || c == '<' {
            swapped_absent(second, '>', "&gt;"@);
        }
    }
    assert(swapped(third, '"', "&quot;"@) =~= spelled(c)) by {
        assert(swapped(none, '"', "&quot;"@) =~= none);
        if c == '&' || c == '<' || c == '>' {
            swapped_absent(third, '"', "&quot;"@);
        }
    }
}

proof fn spelled_from_the_front(p: Seq<char>)
    requires
        p.len() > 0,
    ensures
        all_swapped(p) == spelled(p[0]) + all_swapped(p.drop_first()),
{
    let f = seq![p[0]];
    let r = p.drop_first();
    assert(p =~= f + r);
    swapped_joint(f, r, '&', "&amp;"@);
    let f1 = swapped(f, '&', "&amp;"@);
    let r1 = swapped(r, '&', "&amp;"@);
    swapped_joint(f1, r1, '<', "&lt;"@);
    let f2 = swapped(f1, '<', "&lt;"@);
    let r2 = swapped(r1, '<', "&lt;"@);
    swapped_joint(f2, r2, '>', "&gt;"@);
    let f3 = swapped(f2, '>', "&gt;"@);
    let r3 = swapped(r2, '>', "&gt;"@);
    swapped_joint(f3, r3, '"', "&quot;"@);
    one_is_spelled(p[0]);
}

proof fn one_is_read_back(c: char, rest: Seq<char>)
    ensures
        unescaped(spelled(c) + rest) == seq![c] + unescaped(rest),
{
    reveal_strlit("&amp;");
    reveal_strlit("&lt;");
    reveal_strlit("&gt;");
    reveal_strlit("&quot;");
    reveal_strlit("amp");
    reveal_strlit("lt");
    reveal_strlit("gt");
    reveal_strlit("quot");
    if c == '&' {
        entity_is_read_back("amp"@, c, rest);
        assert(seq!['&'] + "amp"@ + seq![';'] =~= "&amp;"@);
    } else if c == '<' {
        assert("lt"@.len() != "amp"@.len());
        entity_is_read_back("lt"@, c, rest);
        assert(seq!['&'] + "lt"@ + seq![';'] =~= "&lt;"@);
    } else if c == '>' {
        assert("gt"@.len() != "amp"@.len());
        assert("gt"@[0] != "lt"@[0]);
        entity_is_read_back("gt"@, c, rest);
        assert(seq!['&'] + "gt"@ + seq![';'] =~= "&gt;"@);
    } else if c == '"' {
        assert("quot"@.len() != "amp"@.len());
        assert("quot"@.len() != "lt"@.len());
        assert("quot"@.len() != "gt"@.len());
        entity_is_read_back("quot"@, c, rest);
        assert(seq!['&'] + "quot"@ + seq![';'] =~= "&quot;"@);
    } else {
        plain_is_read_back(c, rest);
    }
}

/// Texts are escaped piece by piece, and white space stays as it is.
pub proof fn escaping_goes_piece_by_piece(a: Seq<char>, b: Seq<char>)
    ensures
        escaped(a + b) == escaped(a) + escaped(b),
        escaped(seq![' ']) == seq![' '],
        escaped(Seq::empty()) == Seq::<char>::empty(),
{
    escaping_swaps_all(a + b);
    escaping_swaps_all(a);
    escaping_swaps_all(b);
    escaping_swaps_all(seq![' ']);
    escaping_swaps_all(Seq::empty());
    one_is_spelled(' ');
    swapped_joint(a, b, '&', "&amp;"@);
    let a1 = swapped(a, '&', "&amp;"@);
    let b1 = swapped(b, '&', "&amp;"@);
    swapped_joint(a1, b1, '<', "&lt;"@);
    let a2 = swapped(a1, '<', "&lt;"@);
    let b2 = swapped(b1, '<', "&lt;"@);
    swapped_joint(a2, b2, '>', "&gt;"@);
    let a3 = swapped(a2, '>', "&gt;"@);
    let b3 = swapped(b2, '>', "&gt;"@);
    swapped_joint(a3, b3, '"', "&quot;"@);
    assert(all_swapped(Seq::empty()) =~= Seq::empty());
}

/// A text that was written as the value of an attribute is read back as it was.
pub proof fn what_is_escaped_is_read_back(s: Seq<char>)
    ensures
        unescaped(escaped(s)) == s,
    decreases s.len(),
{
    escaping_swaps_all(s);
    if s.len() == 0 {
        assert(all_swapped(s) =~= Seq::empty());
        assert(unescaped(all_swapped(s)) =~= s);
    } else {
        let r = s.drop_first();
        what_is_escaped_is_read_back(r);
        escaping_swaps_all(r);
        spelled_from_the_front(s);
        one_is_read_back(s[0], all_swapped(r));
        assert(seq![s[0]] + r =~= s);
    }
}

/// No mark that would end an attribute, or begin a tag, is left in a text that was escaped.
pub proof fn no_quote_is_left(s: Seq<char>)
    ensures
        !escaped(s).contains('"'),
        !escaped(s).contains('<'),
        !escaped(s).contains('>'),
    decreases s.len(),
{
    escaping_swaps_all(s);
    reveal_strlit("&amp;");
    reveal_strlit("&lt;");
    reveal_strlit("&gt;");
    reveal_strlit("&quot;");
    if s.len() == 0 {
        assert(all_swapped(s) =~= Seq::empty());
    } else {
        let r = s.drop_first();
        no_quote_is_left(r);
        escaping_swaps_all(r);
        spelled_from_the_front(s);
        let f = spelled(s[0]);
        let all = f + all_swapped(r);
        assert forall|i: int| 0 <= i < all.len() implies all[i] != '"' && all[i] != '<' && all[i]
            != '>' by {
            if i >= f.len() {
                assert(all[i] == all_swapped(r)[i - f.len()]);
                assert(all_swapped(r).contains(all_swapped(r)[i - f.len()]));
            } else {
                assert(all[i] == f[i]);
            }
        }
    }
}

} // verus!
