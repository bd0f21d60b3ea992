//! Numbers as text: writing them in a radix and reading them back.
use vstd::prelude::*;
use vstd::arithmetic::div_mod::lemma_fundamental_div_mod;

verus! {

/// The value of a digit in a radix of at most 36, letters counting on from ten in either case.
pub open spec fn digit_value(c: char, radix: int) -> Option<int> {
    let v: int = if '0' <= c <= '9' {
        c as int - 48
    } else if 'a' <= c <= 'z' {
        c as int - 87
    } else if 'A' <= c <= 'Z' {
        c as int - 55
    } else {
        radix
    };
    if v < radix {
        Some(v)
    } else {
        None
    }
}

/// The digit that stands for `v`, small letters following nine.
pub open spec fn digit_char(v: int) -> char {
    if 0 <= v < 10 {
        (v + 48) as char
    } else if v < 36 {
        (v + 87) as char
    } else {
        '0'
    }
}

/// Every character is a digit in the radix.
pub open spec fn all_digits(s: Seq<char>, radix: int) -> bool {
    forall|i: int| 0 <= i < s.len() ==> digit_value(#[trigger] s[i], radix) is Some
}

/// The number that a row of digits stands for, the most significant first.
pub open spec fn number(s: Seq<char>, radix: int) -> int
    decreases s.len(),
{
    if s.len() == 0 {
        0
    } else {
        number(s.drop_last(), radix) * radix + digit_value(s.last(), radix).unwrap()
    }
}

/// The text without one plus sign at its start.
pub open spec fn unsigned_part(s: Seq<char>) -> Seq<char> {
    if s.len() > 0 && s[0] == '+' {
        s.skip(1)
    } else {
        s
    }
}

/// The number a text stands for: digits in the radix, at least one, a plus sign before them
/// allowed, and no more than `max`.
pub open spec fn parsed(s: Seq<char>, radix: int, max: int) -> Option<int> {
    let d = unsigned_part(s);
    if d.len() > 0 && all_digits(d, radix) && number(d, radix) <= max {
        Some(number(d, radix))
    } else {
        None
    }
}

/// The digits of `n`, without leading zeros.
pub open spec fn written(n: int, radix: int) -> Seq<char>
    decreases n,
{
    if n < radix || radix < 2 {
        seq![digit_char(n)]
    } else {
        proof {
            vstd::arithmetic::div_mod::lemma_div_decreases(n, radix);
            vstd::arithmetic::div_mod::lemma_div_pos_is_pos(n, radix);
        }
        written(n / radix, radix).push(digit_char(n % radix))
    }
}

/// The digits of `n` in radix ten.
pub open spec fn decimal(n: int) -> Seq<char> {
    written(n, 10)
}

/// The text with `fill` put before it until it is `width` long.
pub open spec fn padded(s: Seq<char>, fill: char, width: int) -> Seq<char> {
    if s.len() < width {
        Seq::new((width - s.len()) as nat, |i: int| fill) + s
    } else {
        s
    }
}

proof fn number_bounds(s: Seq<char>, radix: int)
    requires
        1 <= radix,
        all_digits(s, radix),
    ensures
        number(s, radix) >= 0,
    decreases s.len(),
{
    if s.len() > 0 {
        assert(all_digits(s.drop_last(), radix)) by {
            assert forall|i: int| 0 <= i < s.drop_last().len() implies digit_value(
                #[trigger] s.drop_last()[i],
                radix,
            ) is Some by {
                assert(s.drop_last()[i] == s[i]);
            }
        }
        number_bounds(s.drop_last(), radix);
        let a = number(s.drop_last(), radix);
        assert(a * radix >= 0) by (nonlinear_arith)
            requires
                a >= 0,
                radix >= 1,
        ;
        assert(digit_value(s[s.len() - 1], radix) is Some);
    }
}

/// A number never falls as digits are put behind it.
proof fn number_grows(s: Seq<char>, k: int, radix: int)
    requires
        1 <= radix,
        0 <= k <= s.len(),
        all_digits(s, radix),
    ensures
        number(s.take(k), radix) <= number(s, radix),
    decreases s.len() - k,
{
    if k < s.len() {
        number_grows(s, k + 1, radix);
        let t = s.take(k + 1);
        assert(t.drop_last() =~= s.take(k));
        assert(t.last() == s[k]);
        assert(all_digits(s.take(k), radix)) by {
            assert forall|i: int| 0 <= i < k implies digit_value(
                #[trigger] s.take(k)[i],
                radix,
            ) is Some by {
                assert(s.take(k)[i] == s[i]);
            }
        }
        number_bounds(s.take(k), radix);
        let a = number(s.take(k), radix);
        assert(a * radix >= a) by (nonlinear_arith)
            requires
                a >= 0,
                radix >= 1,
        ;
        assert(digit_value(s[k], radix) is Some);
    } else {
        assert(s.take(k) =~= s);
    }
}

/// The value of a digit.
pub fn value_of(c: char, radix: u32) -> (r: Option<u32>)
    requires
        2 <= radix <= 36,
    ensures
        match r {
            Some(v) => digit_value(c, radix as int) == Some(v as int) && v < radix,
            None => digit_value(c, radix as int) is None,
        },
{
    let v: u32 = if '0' <= c && c <= '9' {
        c as u32 - 48
    } else if 'a' <= c && c <= 'z' {
        c as u32 - 87
    } else if 'A' <= c && c <= 'Z' {
        c as u32 - 55
    } else {
        radix
    };
    if v < radix {
        Some(v)
    } else {
        None
    }
}

/// Reads a number, refusing what is empty, holds anything but digits, or exceeds `max`.
pub fn parse(s: &[char], radix: u32, max: u64) -> (r: Option<u64>)
    requires
        2 <= radix <= 36,
    ensures
        match r {
            Some(v) => parsed(s@, radix as int, max as int) == Some(v as int) && v <= max,
            None => parsed(s@, radix as int, max as int) is None,
        },
{
    let start: usize = if s.len() > 0 && s[0] == '+' {
        1
    } else {
        0
    };
    let ghost d = unsigned_part(s@);
    assert(d =~= s@.skip(start as int));
    if start == s.len() {
        return None;
    }
    let mut acc: u64 = 0;
    let mut i: usize = start;
    assert(d.take(0).len() == 0);
    while i < s.len()
        invariant
            start <= i <= s.len(),
            2 <= radix <= 36,
            d == s@.skip(start as int),
            d == unsigned_part(s@),
            forall|k: int| 0 <= k < i - start ==> digit_value(#[trigger] d[k], radix as int) is Some,
            acc == number(d.take(i - start), radix as int),
            acc <= max,
        decreases s.len() - i,
    {
        let ghost k = i - start;
        assert(d[k] == s@[i as int]);
        match value_of(s[i], radix) {
            None => {
                return None;
            },
            Some(v) => {
                assert(d.take(k + 1).drop_last() =~= d.take(k));
                assert(d.take(k + 1).last() == d[k]);
                assert(0 <= acc * radix <= 0xffff_ffff_ffff_ffff * 36) by (nonlinear_arith)
                    requires
                        0 <= acc <= 0xffff_ffff_ffff_ffff,
                        0 <= radix <= 36,
                ;
                let wide: u128 = (acc as u128) * (radix as u128) + v as u128;
                assert(wide == number(d.take(k + 1), radix as int));
                if wide > max as u128 {
                    proof {
                        if all_digits(d, radix as int) {
                            number_grows(d, k + 1, radix as int);
                        }
                    }
                    return None;
                }
                acc = wide as u64;
                i = i + 1;
            },
        }
    }
    assert(d.take(i - start) =~= d);
    Some(acc)
}

/// Reads a decimal number of at most `max`.
pub fn parse_decimal(s: &[char], max: u64) -> (r: Option<u64>)
    ensures
        match r {
            Some(v) => parsed(s@, 10, max as int) == Some(v as int) && v <= max,
            None => parsed(s@, 10, max as int) is None,
        },
{
    parse(s, 10, max)
}

/// Writes a number in a radix.
pub fn write_number(n: u64, radix: u64) -> (r: Vec<char>)
    requires
        2 <= radix <= 36,
    ensures
        r@ == written(n as int, radix as int),
    decreases n,
{
    let d: u32 = (n % radix) as u32;
    let c: char = if d < 10 {
        (48 + d) as u8 as char
    } else {
        (87 + d) as u8 as char
    };
    assert(c == digit_char((n % radix) as int));
    if n < radix {
        let mut out: Vec<char> = Vec::new();
        proof {
            vstd::arithmetic::div_mod::lemma_small_mod(n as nat, radix as nat);
        }
        out.push(c);
        assert(out@ =~= seq![digit_char(n as int)]);
        out
    } else {
        proof {
            vstd::arithmetic::div_mod::lemma_div_decreases(n as int, radix as int);
        }
        let mut out = write_number(n / radix, radix);
        out.push(c);
        out
    }
}

/// Writes a number in radix ten.
pub fn write_decimal(n: u64) -> (r: Vec<char>)
    ensures
        r@ == decimal(n as int),
{
    write_number(n, 10)
}

/// Writes a number of any size in radix ten.
pub fn write_wide(n: u128) -> (r: Vec<char>)
    ensures
        r@ == decimal(n as int),
    decreases n,
{
    if n <= 0xffff_ffff_ffff_ffff {
        write_decimal(n as u64)
    } else {
        let mut out = write_wide(n / 10);
        let d: u32 = (n % 10) as u32;
        let c: char = (48 + d) as u8 as char;
        assert(c == digit_char((n % 10) as int));
        out.push(c);
        out
    }
}

/// Puts `fill` before a text until it is `width` long.
pub fn pad(s: &[char], fill: char, width: usize) -> (r: Vec<char>)
    ensures
        r@ == padded(s@, fill, width as int),
{
    let mut out: Vec<char> = Vec::new();
    let mut i: usize = s.len();
    while i < width
        invariant
            s.len() <= i,
            i <= width || i == s.len(),
            out@ == Seq::new((i - s.len()) as nat, |k: int| fill),
        decreases width - i,
    {
        out.push(fill);
        i = i + 1;
        assert(out@ =~= Seq::new((i - s.len()) as nat, |k: int| fill));
    }
    let ghost filled = out@;
    crate::text::push_all(&mut out, s);
    if s.len() >= width {
        assert(filled =~= Seq::empty());
        assert(out@ =~= s@);
    }
    out
}

proof fn digit_back(v: int, radix: int)
    requires
        0 <= v < radix <= 36,
    ensures
        digit_value(digit_char(v), radix) == Some(v),
        digit_char(v) != '+',
{
}

/// A number is written in digits that stand for it.
pub proof fn written_digits(n: int, radix: int)
    requires
        0 <= n,
        2 <= radix <= 36,
    ensures
        written(n, radix).len() > 0,
        all_digits(written(n, radix), radix),
        number(written(n, radix), radix) == n,
        written(n, radix)[0] != '+',
    decreases n,
{
    if n < radix {
        digit_back(n, radix);
        let s = written(n, radix);
        assert(s.drop_last() =~= Seq::empty());
        assert(number(s.drop_last(), radix) == 0);
    } else {
        lemma_fundamental_div_mod(n, radix);
        vstd::arithmetic::div_mod::lemma_mod_bound(n, radix);
        vstd::arithmetic::div_mod::lemma_div_decreases(n, radix);
        vstd::arithmetic::div_mod::lemma_div_pos_is_pos(n, radix);
        written_digits(n / radix, radix);
        digit_back(n % radix, radix);
        let s = written(n, radix);
        let t = written(n / radix, radix);
        assert(s.drop_last() =~= t);
        assert(s.last() == digit_char(n % radix));
        assert forall|i: int| 0 <= i < s.len() implies digit_value(
            #[trigger] s[i],
            radix,
        ) is Some by {
            if i < t.len() {
                assert(s[i] == t[i]);
            }
        }
        assert(s[0] == t[0]);
        assert((n / radix) * radix == radix * (n / radix)) by (nonlinear_arith);
    }
}

/// What is written in a radix is read back as the same number.
pub proof fn reading_undoes_writing(n: int, radix: int, max: int)
    requires
        0 <= n <= max,
        2 <= radix <= 36,
    ensures
        parsed(written(n, radix), radix, max) == Some(n),
{
    written_digits(n, radix);
}

} // verus!
