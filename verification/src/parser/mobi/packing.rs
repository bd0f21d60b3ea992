//! What PalmDOC compression is for: the text comes back as it was packed.
use vstd::prelude::*;
use crate::parser::mobi::compress::{copied, palm, palm_from};

verus! {

// ---------------------------------------------------------------------------
// Codes
// ---------------------------------------------------------------------------

/// One step of a packed text.
#[verifier::ext_equal]
pub enum Code {
    /// A byte that stands for itself: zero, or one from 9 to 127.
    Plain(u8),
    /// One to eight bytes of any value.
    Run(Seq<u8>),
    /// So many bytes again, the first of them so far back.
    Again { distance: int, length: int },
    /// A blank and a character from 64 to 127.
    Blank(u8),
}

/// The code is one that can be written.
pub open spec fn code_ok(c: Code) -> bool {
    match c {
        Code::Plain(b) => b == 0 || 9 <= b <= 127,
        Code::Run(s) => 1 <= s.len() <= 8,
        Code::Again { distance, length } => 1 <= distance <= 2047 && 3 <= length <= 10,
        Code::Blank(b) => 64 <= b <= 127,
    }
}

/// The bytes that a code is written as. A repetition takes sixteen bits: the two highest are 1 and
/// 0, the next eleven are the distance and the last three the length less three.
pub open spec fn code_bytes(c: Code) -> Seq<u8> {
    match c {
        Code::Plain(b) => seq![b],
        Code::Run(s) => seq![s.len() as u8] + s,
        Code::Again { distance, length } => seq![
            (128 + distance / 32) as u8,
            (8 * (distance % 32) + (length - 3)) as u8,
        ],
        Code::Blank(b) => seq![(b + 128) as u8],
    }
}

/// What a code makes of the text before it. A repetition from before the start of the text adds
/// nothing; any other adds its length, each byte being that which stands the distance before it.
pub open spec fn code_adds(c: Code, before: Seq<u8>, after: Seq<u8>) -> bool {
    match c {
        Code::Plain(b) => after == before + seq![b],
        Code::Run(s) => after == before + s,
        Code::Again { distance, length } => if distance > before.len() {
            after == before
        } else {
            &&& after.len() == before.len() + length
            &&& after.take(before.len() as int) == before
            &&& forall|k: int|
                before.len() <= k < after.len() ==> #[trigger] after[k] == after[k - distance]
        },
        Code::Blank(b) => after == before + seq![0x20u8, b],
    }
}

/// The bytes of codes, one behind the other.
pub open spec fn codes_bytes(codes: Seq<Code>) -> Seq<u8>
    decreases codes.len(),
{
    if codes.len() == 0 {
        Seq::empty()
    } else {
        codes_bytes(codes.drop_last()) + code_bytes(codes.last())
    }
}

/// The texts between codes: they start with nothing, and each code leads from one to the next.
pub open spec fn steps_ok(codes: Seq<Code>, texts: Seq<Seq<u8>>) -> bool {
    &&& texts.len() == codes.len() + 1
    &&& texts[0] == Seq::<u8>::empty()
    &&& forall|k: int|
        0 <= k < codes.len() ==> code_ok(#[trigger] codes[k]) && code_adds(
            codes[k],
            texts[k],
            texts[k + 1],
        )
}

// ---------------------------------------------------------------------------
// Reading codes
// ---------------------------------------------------------------------------

proof fn copying_repeats(before: Seq<u8>, base: int, n: int)
    requires
        0 <= base < before.len(),
        0 <= n,
    ensures
        ({
            let after = copied(before, base, n);
            &&& after.len() == before.len() + n
            &&& after.take(before.len() as int) == before
            &&& forall|k: int|
                before.len() <= k < after.len() ==> #[trigger] after[k] == after[k - (before.len()
                    - base)]
        }),
    decreases n,
{
    let after = copied(before, base, n);
    if n > 0 {
        let next = before.push(before[base]);
        copying_repeats(next, base + 1, n - 1);
        assert(after.take(next.len() as int) == next);
        assert(after.take(before.len() as int) =~= next.take(before.len() as int));
        assert(next.take(before.len() as int) =~= before);
        assert forall|k: int| before.len() <= k < after.len() implies #[trigger] after[k] == after[k
            - (before.len() - base)] by {
            if k == before.len() {
                assert(after[k] == after.take(next.len() as int)[k]);
                assert(after[base] == after.take(next.len() as int)[base]);
            }
        }
    } else {
        assert(after.take(before.len() as int) =~= before);
    }
}

proof fn repeating_is_one(a: Seq<u8>, b: Seq<u8>, n: int, distance: int, k: int)
    requires
        a.len() == b.len(),
        1 <= distance <= n <= a.len(),
        a.take(n) == b.take(n),
        forall|k: int| n <= k < a.len() ==> #[trigger] a[k] == a[k - distance],
        forall|k: int| n <= k < b.len() ==> #[trigger] b[k] == b[k - distance],
        0 <= k < a.len(),
    ensures
        a[k] == b[k],
    decreases k,
{
    if k < n {
        assert(a.take(n)[k] == a[k]);
        assert(b.take(n)[k] == b[k]);
    } else {
        repeating_is_one(a, b, n, distance, k - distance);
        assert(a[k] == a[k - distance]);
        assert(b[k] == b[k - distance]);
    }
}

proof fn one_code_is_read(c: Code, head: Seq<u8>, rest: Seq<u8>, before: Seq<u8>, after: Seq<u8>)
    requires
        code_ok(c),
        code_adds(c, before, after),
    ensures
        palm_from(head + code_bytes(c) + rest, head.len() as int, before) == palm_from(
            head + code_bytes(c) + rest,
            head.len() as int + code_bytes(c).len(),
            after,
        ),
{
    let a = head + code_bytes(c) + rest;
    let i = head.len() as int;
    assert(a[i] == code_bytes(c)[0]);
    match c {
        Code::Plain(b) => {
            assert(before + seq![b] =~= before.push(b));
        },
        Code::Run(s) => {
            assert(a.subrange(i + 1, i + 1 + s.len()) =~= s);
        },
        Code::Again { distance, length } => {
            assert(a[i + 1] == code_bytes(c)[1]);
            let pair = a[i] * 256 + a[i + 1];
            assert(pair == 0x8000 + 8 * distance + (length - 3));
            assert((pair % 0x4000) / 8 == distance);
            assert(pair % 8 + 3 == length);
            if distance <= before.len() {
                copying_repeats(before, before.len() - distance, length);
                let got = copied(before, before.len() - distance, length);
                assert forall|k: int| 0 <= k < got.len() implies got[k] == after[k] by {
                    repeating_is_one(got, after, before.len() as int, distance, k);
                }
                assert(got =~= after);
            }
        },
        Code::Blank(b) => {
            assert(before + seq![0x20u8, b] =~= before.push(0x20).push(b));
        },
    }
}

proof fn codes_are_read(codes: Seq<Code>, texts: Seq<Seq<u8>>, tail: Seq<u8>, k: int)
    requires
        steps_ok(codes, texts),
        0 <= k <= codes.len(),
    ensures
        palm(codes_bytes(codes) + tail) == palm_from(
            codes_bytes(codes) + tail,
            codes_bytes(codes.take(k)).len() as int,
            texts[k],
        ),
    decreases k,
{
    let all = codes_bytes(codes) + tail;
    let here = codes_bytes(codes.take(k));
    prefix_of_bytes(codes, k);
    assert(all.take(here.len() as int) =~= here);
    if k == 0 {
        assert(codes.take(0) =~= Seq::empty());
    } else {
        codes_are_read(codes, texts, tail, k - 1);
        let head = codes_bytes(codes.take(k - 1));
        let c = codes[k - 1];
        assert(codes.take(k).drop_last() =~= codes.take(k - 1));
        assert(codes.take(k).last() == c);
        let rest = all.skip(here.len() as int);
        assert(all =~= head + code_bytes(c) + rest) by {
            assert(all =~= all.take(here.len() as int) + rest);
        }
        one_code_is_read(c, head, rest, texts[k - 1], texts[k]);
    }
}

proof fn prefix_of_bytes(codes: Seq<Code>, k: int)
    requires
        0 <= k <= codes.len(),
    ensures
        codes_bytes(codes.take(k)).len() <= codes_bytes(codes).len(),
        codes_bytes(codes).take(codes_bytes(codes.take(k)).len() as int) == codes_bytes(
            codes.take(k),
        ),
    decreases codes.len() - k,
{
    if k == codes.len() {
        assert(codes.take(k) =~= codes);
        assert(codes_bytes(codes).take(codes_bytes(codes).len() as int) =~= codes_bytes(codes));
    } else {
        prefix_of_bytes(codes, k + 1);
        assert(codes.take(k + 1).drop_last() =~= codes.take(k));
        let a = codes_bytes(codes.take(k));
        let b = codes_bytes(codes.take(k + 1));
        assert(b == a + code_bytes(codes[k]));
        assert(codes_bytes(codes).take(a.len() as int) =~= codes_bytes(codes).take(
            b.len() as int,
        ).take(a.len() as int));
        assert(b.take(a.len() as int) =~= a);
    }
}

/// Undoing the compression reads what was written: the bytes of any codes give the text that the
/// codes lead to.
pub proof fn codes_give_their_text(codes: Seq<Code>, texts: Seq<Seq<u8>>)
    requires
        steps_ok(codes, texts),
    ensures
        palm(codes_bytes(codes)) == Some(texts[codes.len() as int]),
{
    codes_are_read(codes, texts, Seq::empty(), codes.len() as int);
    assert(codes_bytes(codes) + Seq::<u8>::empty() =~= codes_bytes(codes));
    assert(codes.take(codes.len() as int) =~= codes);
}

/// A record that breaks off keeps what it has: of a run of `n` bytes those that are there, of half a
/// repetition nothing. A repetition over no distance at all is refused.
pub proof fn what_breaks_off_is_kept(
    codes: Seq<Code>,
    texts: Seq<Seq<u8>>,
    n: u8,
    some: Seq<u8>,
    half: u8,
    length: u8,
)
    requires
        steps_ok(codes, texts),
        1 <= n <= 8,
        some.len() < n,
        0x80 <= half <= 0xbf,
        3 <= length <= 10,
    ensures
        palm(codes_bytes(codes) + (seq![n] + some)) == Some(texts[codes.len() as int] + some),
        palm(codes_bytes(codes) + seq![half]) == Some(texts[codes.len() as int]),
        palm(codes_bytes(codes) + seq![0x80u8, (length - 3) as u8]) is None,
{
    let m = codes.len() as int;
    let text = texts[m];
    let i = codes_bytes(codes).len() as int;
    assert(codes.take(m) =~= codes);
    let first = seq![n] + some;
    codes_are_read(codes, texts, first, m);
    let a = codes_bytes(codes) + first;
    assert(a[i] == n);
    assert(a.subrange(i + 1, a.len() as int) =~= some);
    assert(palm_from(a, a.len() as int, text + some) == Some(text + some));
    codes_are_read(codes, texts, seq![half], m);
    assert((codes_bytes(codes) + seq![half])[i] == half);
    let zero = seq![0x80u8, (length - 3) as u8];
    codes_are_read(codes, texts, zero, m);
    let c = codes_bytes(codes) + zero;
    assert(c[i] == 0x80 && c[i + 1] == length - 3);
}

// ---------------------------------------------------------------------------
// Packing a text
// ---------------------------------------------------------------------------

/// The codes of a text: a blank and a character behind it are one code, every other byte is a code
/// of its own.
pub open spec fn codes_of(text: Seq<u8>) -> Seq<Code>
    decreases text.len(),
{
    if text.len() == 0 {
        Seq::empty()
    } else if text.len() >= 2 && text[text.len() - 2] == 0x20 && 64 <= text.last() <= 127 {
        codes_of(text.take(text.len() - 2)).push(Code::Blank(text.last()))
    } else {
        codes_of(text.drop_last()).push(
            if text.last() == 0 || 9 <= text.last() <= 127 {
                Code::Plain(text.last())
            } else {
                Code::Run(seq![text.last()])
            },
        )
    }
}

/// The bytes that a text is packed into.
pub open spec fn packed(text: Seq<u8>) -> Seq<u8> {
    codes_bytes(codes_of(text))
}

proof fn text_steps(text: Seq<u8>) -> (texts: Seq<Seq<u8>>)
    ensures
        steps_ok(codes_of(text), texts),
        texts[codes_of(text).len() as int] == text,
    decreases text.len(),
{
    let codes = codes_of(text);
    if text.len() == 0 {
        assert(text =~= Seq::empty());
        seq![Seq::<u8>::empty()]
    } else if text.len() >= 2 && text[text.len() - 2] == 0x20 && 64 <= text.last() <= 127 {
        let less = text.take(text.len() - 2);
        let before = text_steps(less);
        assert(text =~= less + seq![0x20u8, text.last()]);
        let texts = before.push(text);
        assert forall|k: int| 0 <= k < codes.len() implies code_ok(#[trigger] codes[k])
            && code_adds(codes[k], texts[k], texts[k + 1]) by {
            if k < codes.len() - 1 {
                assert(codes[k] == codes_of(less)[k]);
                assert(texts[k] == before[k]);
                assert(texts[k + 1] == before[k + 1]);
            }
        }
        texts
    } else {
        let less = text.drop_last();
        let before = text_steps(less);
        assert(text =~= less + seq![text.last()]);
        let texts = before.push(text);
        assert forall|k: int| 0 <= k < codes.len() implies code_ok(#[trigger] codes[k])
            && code_adds(codes[k], texts[k], texts[k + 1]) by {
            if k < codes.len() - 1 {
                assert(codes[k] == codes_of(less)[k]);
                assert(texts[k] == before[k]);
                assert(texts[k + 1] == before[k + 1]);
            }
        }
        texts
    }
}

/// Undoing the compression gives back every text that was packed.
pub proof fn what_is_packed_comes_back(text: Seq<u8>)
    ensures
        palm(packed(text)) == Some(text),
{
    let texts = text_steps(text);
    codes_give_their_text(codes_of(text), texts);
}

} // verus!
