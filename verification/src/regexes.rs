//! Regular expressions: the patterns the library uses, where they match, and what follows from
//! a list of matches.
use vstd::prelude::*;
use crate::text::{byte_len, byte_len_position, part, push_all, string_of, texts, walk_bytes};

verus! {

pub const PAGEBREAK_BYTES: &'static str = r"(?i)<\s*(?:mbp:)?pagebreak[^>]*>";

pub const FILEPOS_BYTES: &'static str = r#"(?i)<[^<>]+filepos=['"]{0,1}?(\d+)[^<>]*>"#;

pub const FRAG_ANCHOR: &'static str = r#"(?i)\s(id|name|aid)\s*=\s*['"]([^'"]*)['"]"#;

pub const REFERENCE_TAG: &'static str = r#"(?is)<reference\b[^>]*>"#;

pub const TYPE_ATTR: &'static str = r#"(?i)type\s*=\s*["']([^"']*)["']"#;

pub const FILEPOS_ATTR: &'static str = r#"(?i)filepos\s*=\s*["']?(\d+)"#;

pub const GUIDE_ANCHOR: &'static str = r#"(?is)<a\b[^>]*filepos\s*=\s*["']?(\d+)[^>]*>(.*?)</a>"#;

pub const ANY_TAG: &'static str = r"(?is)<[^>]*>";

pub const HEADING: &'static str = r#"(?is)<h[1-6][^>]*>([\s\S]{0,120}?)</h[1-6]>"#;

pub const PAGEBREAK_TAG: &'static str = r"(?i)<\s*/?\s*(?:mbp:)?pagebreak[^>]*>";

pub const KINDLE_EMBED: &'static str = r#"kindle:embed:([0-9A-Fa-f]+)(?:\?mime=[^"'\s>]+)?"#;

pub const RECINDEX: &'static str = r#"(?i)\brecindex\s*=\s*["']?(\d+)["']?"#;

pub const CSS_DANGER: &'static str =
    r"(?i)expression\s*\(|behavior\s*:|-moz-binding|javascript\s*:";

pub const NAV_BLOCK: &'static str = r"(?is)<nav\b[^>]*>(.*?)</nav>";

pub const NAV_ANCHOR: &'static str =
    r#"(?is)<a\b[^>]*?\bhref\s*=\s*(?:"([^"]*)"|'([^']*)')[^>]*>(.*?)</a>"#;

pub const NAMED_TAG: &'static str = r"(?is)<(/?)([a-z][a-z0-9-]*)[^>]*>";

pub const IMAGE_SRC: &'static str = r#"(?is)<img\b[^>]*?\bsrc\s*=\s*(?:"([^"]*)"|'([^']*)')"#;

pub const STYLE_BLOCK: &'static str = r"(?is)<style\b[^>]*>(.*?)</style>";

pub const LINK_TAG: &'static str = r"(?is)<link\b[^>]*>";

pub const REL_ATTR: &'static str = r#"(?is)\brel\s*=\s*["']?([^"'>]*)["']?"#;

pub const HREF_ATTR: &'static str = r#"(?is)\bhref\s*=\s*["']([^"']*)["']"#;

pub const CSS_IMPORT: &'static str = r#"(?is)@import\s+(?:url\s*\(\s*|["'])([^"')\n;]+)[^;]*;"#;

pub const CSS_URL: &'static str = r#"(?i)url\s*\(\s*["']?([^"'\n)]*?)\s*["']?\s*\)"#;

pub const FONT_FACE: &'static str = r"(?is)@font-face\s*\{[^{}]*\}";

pub const FONT_FAMILY: &'static str = r"(?is)(font-family\s*:\s*)([^;{}]+)";

pub const TXT_HEADING: &'static str =
    r"(?m)^([ \t\u{3000}]*第\s*[0-9零一二三四五六七八九十百千万两〇]+\s*[章回节卷部集篇][^\n]{0,48}|[ \t\u{3000}]*卷\s*[0-9一二三四五六七八九十百千万两〇]+[^\n]{0,48}|[ \t]*(?:Chapter|CHAPTER)\s+\d+[^\n]{0,48}|[ \t\u{3000}]*(?:序章|序言|序|楔子|前言|自序|凡例|后记|后序|尾声|终章|终局|番外)[^\n]{0,48})[ \t\u{3000}]*$";

pub const BARE_HEADING: &'static str = r"<h([1-6])>";

pub const FB2_IMAGE: &'static str =
    r#"(?is)<image\b[^>]*?\bxlink:href\s*=\s*["']#([^"']+)["'][^>]*>"#;

pub const FB2_COVER: &'static str =
    r#"(?is)<coverpage[\s\S]*?<image[^>]*href\s*=\s*["']#([^"']+)["']"#;

pub const FB2_BINARY: &'static str =
    r#"(?is)<binary\b[^>]*\bid\s*=\s*["']([^"']+)["'][^>]*\bcontent-type\s*=\s*["']([^"']+)["'][^>]*>([\s\S]*?)</binary>"#;

pub const FB2_TITLE: &'static str = r"(?is)<title\b[^>]*>([\s\S]*?)</title>";

pub const FB2_PARAGRAPH: &'static str = r"(?is)<p\b[^>]*>([\s\S]*?)</p>";

pub const FB2_SECTION_ID: &'static str =
    r#"(?is)<section\b[^>]*?\bid\s*=\s*["']([^"']+)["'][^>]*>"#;

pub const ANCHOR_TAG: &'static str = r"(?is)<a\b[^>]*>";

pub const FB2_HREF: &'static str = r#"(?i)\bl:href\s*=\s*("([^"]*)"|'([^']*)')"#;

/// The pattern is one of the library's own, and so is well-formed.
pub open spec fn is_pattern(p: Seq<char>) -> bool {
    ||| p == FRAG_ANCHOR@
    ||| p == REFERENCE_TAG@
    ||| p == TYPE_ATTR@
    ||| p == FILEPOS_ATTR@
    ||| p == GUIDE_ANCHOR@
    ||| p == ANY_TAG@
    ||| p == HEADING@
    ||| p == PAGEBREAK_TAG@
    ||| p == KINDLE_EMBED@
    ||| p == RECINDEX@
    ||| p == CSS_DANGER@
    ||| p == NAV_BLOCK@
    ||| p == NAV_ANCHOR@
    ||| p == NAMED_TAG@
    ||| p == IMAGE_SRC@
    ||| p == STYLE_BLOCK@
    ||| p == LINK_TAG@
    ||| p == REL_ATTR@
    ||| p == HREF_ATTR@
    ||| p == CSS_IMPORT@
    ||| p == CSS_URL@
    ||| p == FONT_FACE@
    ||| p == FONT_FAMILY@
    ||| p == TXT_HEADING@
    ||| p == BARE_HEADING@
    ||| p == FB2_IMAGE@
    ||| p == FB2_COVER@
    ||| p == FB2_BINARY@
    ||| p == FB2_TITLE@
    ||| p == FB2_PARAGRAPH@
    ||| p == FB2_SECTION_ID@
    ||| p == ANCHOR_TAG@
    ||| p == FB2_HREF@
}

/// The pattern is one of those that are applied to bytes.
pub open spec fn is_byte_pattern(p: Seq<char>) -> bool {
    ||| p == PAGEBREAK_BYTES@
    ||| p == FILEPOS_BYTES@
}

/// The groups of one match: the whole match first, then each group that took part.
pub type Groups = Seq<Option<(int, int)>>;

/// Where a pattern matches a text, in positions of characters.
pub uninterp spec fn regex_spans(pattern: Seq<char>, text: Seq<char>) -> Seq<
    Seq<Option<(int, int)>>,
>;

/// Where a pattern matches a row of bytes.
pub uninterp spec fn regex_byte_spans(pattern: Seq<char>, bytes: Seq<u8>) -> Seq<
    Seq<Option<(int, int)>>,
>;

/// A list of matches in a text of the given length: each has a whole, the groups lie within it,
/// and no two matches overlap.
pub open spec fn in_order(spans: Seq<Groups>, len: int) -> bool {
    &&& forall|i: int|
        0 <= i < spans.len() ==> (#[trigger] spans[i]).len() >= 1 && spans[i][0] is Some
    &&& forall|i: int, g: int|
        0 <= i < spans.len() && 0 <= g < spans[i].len() && (#[trigger] spans[i][g]) is Some ==> {
            &&& 0 <= spans[i][0].unwrap().0 <= spans[i][g].unwrap().0
            &&& spans[i][g].unwrap().0 <= spans[i][g].unwrap().1
            &&& spans[i][g].unwrap().1 <= spans[i][0].unwrap().1 <= len
        }
    &&& forall|i: int, j: int|
        #![trigger spans[i], spans[j]]
        0 <= i < j < spans.len() ==> spans[i][0].unwrap().1 <= spans[j][0].unwrap().0
}

/// No match of a list is empty.
pub open spec fn none_empty(spans: Seq<Groups>) -> bool {
    forall|i: int|
        0 <= i < spans.len() ==> (#[trigger] spans[i])[0].unwrap().0 < spans[i][0].unwrap().1
}

/// Matches as they are held in memory.
pub open spec fn ints(v: Seq<Vec<Option<(usize, usize)>>>) -> Seq<Groups> {
    Seq::new(
        v.len(),
        |i: int|
            Seq::new(
                v[i]@.len(),
                |g: int|
                    match v[i]@[g] {
                        Some(p) => Some((p.0 as int, p.1 as int)),
                        None => None,
                    },
            ),
    )
}

/// The offsets say, in bytes, what the spans say in characters.
pub open spec fn offsets_of(
    offsets: Seq<Vec<Option<(usize, usize)>>>,
    spans: Seq<Groups>,
    text: Seq<char>,
) -> bool {
    &&& offsets.len() == spans.len()
    &&& in_order(spans, text.len() as int)
    &&& forall|i: int| 0 <= i < spans.len() ==> (#[trigger] offsets[i])@.len() == spans[i].len()
    &&& forall|i: int, g: int|
        0 <= i < spans.len() && 0 <= g < spans[i].len() ==> match #[trigger] spans[i][g] {
            Some((s, e)) => offsets[i]@[g] matches Some((a, b)) && a == byte_len(text.take(s)) && b
                == byte_len(text.take(e)),
            None => offsets[i]@[g] is None,
        }
}

/// `regex::Regex::captures_iter`: every match of the pattern in the text from left to right,
/// each with the byte offsets of its groups. The offsets fall on character boundaries, the
/// groups lie within their match, and matches do not overlap. Which they are is left to the
/// name `regex_spans`. Every branch of `CSS_DANGER` starts with a character that has to be there,
/// so no match of it is empty.
#[verifier::external_body]
fn match_offsets(pattern: &str, text: &str) -> (r: Vec<Vec<Option<(usize, usize)>>>)
    requires
        is_pattern(pattern@),
    ensures
        offsets_of(r@, regex_spans(pattern@, text@), text@),
        pattern@ == CSS_DANGER@ ==> forall|i: int|
            0 <= i < r@.len() ==> ((#[trigger] r@[i])@[0] matches Some((a, b)) && a < b),
{
    let re = regex::Regex::new(pattern).expect("a pattern of the library");
    re.captures_iter(text)
        .map(|c| c.iter().map(|g| g.map(|m| (m.start(), m.end()))).collect())
        .collect()
}

/// `regex::bytes::Regex::captures_iter`: every match of the pattern in the bytes from left to
/// right, each with the offsets of its groups. Which they are is left to the name
/// `regex_byte_spans`.
#[verifier::external_body]
pub(crate) fn byte_matches(pattern: &str, bytes: &[u8]) -> (r: Vec<Vec<Option<(usize, usize)>>>)
    requires
        is_byte_pattern(pattern@),
    ensures
        ints(r@) == regex_byte_spans(pattern@, bytes@),
        in_order(ints(r@), bytes@.len() as int),
{
    let re = regex::bytes::Regex::new(pattern).expect("a pattern of the library");
    re.captures_iter(bytes)
        .map(|c| c.iter().map(|g| g.map(|m| (m.start(), m.end()))).collect())
        .collect()
}

/// Where a pattern matches a text.
pub fn spans(pattern: &str, text: &[char]) -> (r: Vec<Vec<Option<(usize, usize)>>>)
    requires
        is_pattern(pattern@),
    ensures
        ints(r@) == regex_spans(pattern@, text@),
        in_order(ints(r@), text@.len() as int),
        pattern@ == CSS_DANGER@ ==> none_empty(regex_spans(pattern@, text@)),
{
    let s = string_of(text);
    let offsets = match_offsets(pattern, s.as_str());
    let ghost sp = regex_spans(pattern@, text@);
    proof {
        if pattern@ == CSS_DANGER@ {
            assert forall|i: int| 0 <= i < sp.len() implies (#[trigger] sp[i])[0].unwrap().0
                < sp[i][0].unwrap().1 by {
                assert(sp[i][0] is Some);
                assert(offsets@[i]@[0] is Some);
            }
        }
    }
    let mut out: Vec<Vec<Option<(usize, usize)>>> = Vec::new();
    let mut i: usize = 0;
    let mut k: usize = 0;
    let mut at: u128 = 0;
    assert(text@.take(0) =~= Seq::empty());
    while i < offsets.len()
        invariant
            i <= offsets@.len(),
            offsets_of(offsets@, sp, text@),
            out@.len() == i,
            forall|j: int| 0 <= j < i ==> ints(out@)[j] == sp[j],
            k <= text@.len(),
            at == byte_len(text@.take(k as int)),
            i < sp.len() ==> k <= sp[i as int][0].unwrap().0,
        decreases offsets@.len() - i,
    {
        let ghost here = sp[i as int];
        let row = &offsets[i];
        assert(row@.len() == here.len());
        assert(here[0] is Some);
        let mut cells: Vec<Option<(usize, usize)>> = Vec::new();
        let mut start_k: usize = k;
        let mut start_at: u128 = at;
        let mut end_k: usize = k;
        let mut end_at: u128 = at;
        let mut g: usize = 0;
        while g < row.len()
            invariant
                g <= row@.len(),
                i < offsets@.len(),
                row == offsets@[i as int],
                here == sp[i as int],
                row@.len() == here.len(),
                here.len() >= 1,
                here[0] is Some,
                offsets_of(offsets@, sp, text@),
                cells@.len() == g,
                start_k <= text@.len(),
                start_k <= here[0].unwrap().0,
                start_at == byte_len(text@.take(start_k as int)),
                g > 0 ==> start_k == here[0].unwrap().0 && end_k == here[0].unwrap().1,
                end_k <= text@.len(),
                end_at == byte_len(text@.take(end_k as int)),
                forall|j: int|
                    0 <= j < g ==> match #[trigger] here[j] {
                        Some((s, e)) => cells@[j] matches Some((a, b)) && a == s && b == e,
                        None => cells@[j] is None,
                    },
            decreases row@.len() - g,
        {
            assert(sp[i as int][g as int] == here[g as int]);
            match row[g] {
                None => {
                    cells.push(None);
                },
                Some((a, b)) => {
                    let ghost s0 = here[g as int].unwrap().0;
                    let ghost e0 = here[g as int].unwrap().1;
                    assert(byte_len(text@.take(s0)) == a);
                    let (x, xb) = walk_bytes(text, start_k, start_at, a as u128);
                    proof {
                        byte_len_position(text@, x as int, s0);
                    }
                    assert(byte_len(text@.take(e0)) == b);
                    let (y, yb) = walk_bytes(text, x, xb, b as u128);
                    proof {
                        byte_len_position(text@, y as int, e0);
                    }
                    cells.push(Some((x, y)));
                    if g == 0 {
                        start_k = x;
                        start_at = xb;
                        end_k = y;
                        end_at = yb;
                    }
                },
            }
            g = g + 1;
        }
        let ghost before = out@;
        out.push(cells);
        assert(ints(out@)[i as int] =~= here);
        assert forall|j: int| 0 <= j < i + 1 implies ints(out@)[j] == sp[j] by {
            if j < i {
                assert(out@[j] == before[j]);
                assert(ints(before)[j] == sp[j]);
                assert(ints(out@)[j] =~= ints(before)[j]);
            }
        }
        assert(i + 1 < sp.len() ==> sp[i as int][0].unwrap().1 <= sp[i + 1][0].unwrap().0);
        k = end_k;
        at = end_at;
        i = i + 1;
    }
    assert(ints(out@) =~= sp);
    out
}

/// The text of a group, where it took part in the match.
pub open spec fn group_text(text: Seq<char>, m: Groups, g: int) -> Option<Seq<char>> {
    if 0 <= g < m.len() && m[g] is Some {
        Some(text.subrange(m[g].unwrap().0, m[g].unwrap().1))
    } else {
        None
    }
}

/// The groups of one match as they are held in memory.
pub open spec fn row_ints(v: Seq<Option<(usize, usize)>>) -> Groups {
    Seq::new(
        v.len(),
        |g: int|
            match v[g] {
                Some(p) => Some((p.0 as int, p.1 as int)),
                None => None,
            },
    )
}

/// The groups of one match lie within the text.
pub open spec fn row_within(m: Groups, len: int) -> bool {
    &&& m.len() >= 1
    &&& m[0] is Some
    &&& forall|g: int|
        0 <= g < m.len() && (#[trigger] m[g]) is Some ==> 0 <= m[0].unwrap().0
            <= m[g].unwrap().0 <= m[g].unwrap().1 <= m[0].unwrap().1 <= len
}

/// One row of a list of matches in order lies within the text.
pub proof fn row_of(v: Seq<Vec<Option<(usize, usize)>>>, i: int, len: int)
    requires
        in_order(ints(v), len),
        0 <= i < v.len(),
    ensures
        ints(v)[i] == row_ints(v[i]@),
        row_within(ints(v)[i], len),
{
    assert(ints(v)[i] =~= row_ints(v[i]@));
    let m = ints(v)[i];
    assert forall|g: int| 0 <= g < m.len() && (#[trigger] m[g]) is Some implies 0
        <= m[0].unwrap().0 <= m[g].unwrap().0 <= m[g].unwrap().1 <= m[0].unwrap().1 <= len by {
        assert(ints(v)[i][g] is Some);
    }
}

/// The text of a group, where it took part in the match.
pub fn group(text: &[char], row: &Vec<Option<(usize, usize)>>, g: usize) -> (r: Option<Vec<char>>)
    requires
        row_within(row_ints(row@), text@.len() as int),
    ensures
        match r {
            Some(t) => group_text(text@, row_ints(row@), g as int) == Some(t@),
            None => group_text(text@, row_ints(row@), g as int) is None,
        },
{
    if g >= row.len() {
        return None;
    }
    assert(row_ints(row@)[g as int] is Some == row@[g as int] is Some);
    match row[g] {
        None => None,
        Some((a, b)) => Some(part(text, a, b)),
    }
}

/// The text with the part of each match exchanged, from the `i`-th match on and from position
/// `from` on.
pub open spec fn spliced_from(
    text: Seq<char>,
    spans: Seq<Groups>,
    with: Seq<Seq<char>>,
    i: int,
    from: int,
) -> Seq<char>
    decreases spans.len() - i,
{
    if i < 0 || i >= spans.len() {
        text.subrange(from, text.len() as int)
    } else {
        text.subrange(from, spans[i][0].unwrap().0) + with[i] + spliced_from(
            text,
            spans,
            with,
            i + 1,
            spans[i][0].unwrap().1,
        )
    }
}

/// The text with each match exchanged for the text that stands for it.
pub open spec fn spliced(text: Seq<char>, spans: Seq<Groups>, with: Seq<Seq<char>>) -> Seq<char> {
    spliced_from(text, spans, with, 0, 0)
}

/// Exchanges each match for the text that stands for it.
pub fn splice(text: &[char], rows: &Vec<Vec<Option<(usize, usize)>>>, with: &Vec<Vec<char>>) -> (r:
    Vec<char>)
    requires
        in_order(ints(rows@), text@.len() as int),
        with@.len() == rows@.len(),
    ensures
        r@ == spliced(text@, ints(rows@), texts(with@)),
{
    let ghost sp = ints(rows@);
    let ghost w = texts(with@);
    let mut out: Vec<char> = Vec::new();
    let mut from: usize = 0;
    let mut i: usize = 0;
    while i < rows.len()
        invariant
            i <= rows@.len(),
            with@.len() == rows@.len(),
            sp == ints(rows@),
            w == texts(with@),
            in_order(sp, text@.len() as int),
            from <= text@.len(),
            i < sp.len() ==> from <= sp[i as int][0].unwrap().0,
            spliced(text@, sp, w) == out@ + spliced_from(text@, sp, w, i as int, from as int),
        decreases rows@.len() - i,
    {
        proof {
            row_of(rows@, i as int, text@.len() as int);
            assert(sp[i as int][0] is Some);
        }
        let row = &rows[i];
        assert(row@[0] is Some);
        if let Some((a, b)) = row[0] {
            let ghost before = out@;
            let gap = part(text, from, a);
            push_all(&mut out, &gap);
            push_all(&mut out, &with[i]);
            assert(sp[i as int][0].unwrap() == (a as int, b as int));
            assert(w[i as int] == with@[i as int]@);
            assert(before + (text@.subrange(from as int, a as int) + w[i as int] + spliced_from(
                text@,
                sp,
                w,
                i + 1,
                b as int,
            )) =~= out@ + spliced_from(text@, sp, w, i + 1, b as int));
            assert(i + 1 < sp.len() ==> sp[i as int][0].unwrap().1 <= sp[i + 1][0].unwrap().0);
            from = b;
        }
        i = i + 1;
    }
    let rest = part(text, from, text.len());
    push_all(&mut out, &rest);
    out
}

/// The text with every match of a pattern taken out.
pub open spec fn without(text: Seq<char>, spans: Seq<Groups>) -> Seq<char> {
    spliced(text, spans, Seq::new(spans.len(), |i: int| Seq::empty()))
}

proof fn without_from_is_shorter(text: Seq<char>, spans: Seq<Groups>, i: int, from: int)
    requires
        in_order(spans, text.len() as int),
        none_empty(spans),
        0 <= i <= spans.len(),
        0 <= from <= text.len(),
        i < spans.len() ==> from <= spans[i][0].unwrap().0,
    ensures
        ({
            let rest = spliced_from(
                text,
                spans,
                Seq::new(spans.len(), |k: int| Seq::empty()),
                i,
                from,
            );
            &&& rest.len() <= text.len() - from
            &&& i < spans.len() ==> rest.len() < text.len() - from
        }),
    decreases spans.len() - i,
{
    if i < spans.len() {
        let m = spans[i];
        assert(spans[i][0] is Some);
        assert(m[0].unwrap().1 <= text.len());
        assert(i + 1 < spans.len() ==> spans[i][0].unwrap().1 <= spans[i + 1][0].unwrap().0);
        without_from_is_shorter(text, spans, i + 1, m[0].unwrap().1);
    }
}

/// Taking out matches that are not empty makes a text shorter, where there are any, and leaves it
/// as it is where there are none.
pub proof fn without_is_shorter(text: Seq<char>, spans: Seq<Groups>)
    requires
        in_order(spans, text.len() as int),
        none_empty(spans),
    ensures
        spans.len() > 0 ==> without(text, spans).len() < text.len(),
        spans.len() == 0 ==> without(text, spans) == text,
{
    without_from_is_shorter(text, spans, 0, 0);
    assert(text.subrange(0, text.len() as int) =~= text);
}

/// Takes every match out of the text.
pub fn cut_out(text: &[char], rows: &Vec<Vec<Option<(usize, usize)>>>) -> (r: Vec<char>)
    requires
        in_order(ints(rows@), text@.len() as int),
    ensures
        r@ == without(text@, ints(rows@)),
{
    let mut with: Vec<Vec<char>> = Vec::new();
    let mut i: usize = 0;
    while i < rows.len()
        invariant
            i <= rows@.len(),
            with@.len() == i,
            forall|j: int| 0 <= j < i ==> (#[trigger] with@[j])@.len() == 0,
        decreases rows@.len() - i,
    {
        with.push(Vec::new());
        i = i + 1;
    }
    assert(texts(with@) =~= Seq::new(ints(rows@).len(), |i: int| Seq::<char>::empty())) by {
        assert forall|j: int| 0 <= j < rows@.len() implies texts(with@)[j] == Seq::<
            char,
        >::empty() by {
            assert(with@[j]@ =~= Seq::<char>::empty());
        }
    }
    splice(text, rows, &with)
}

/// Takes every match of a pattern out of a text.
pub fn remove(pattern: &str, text: &[char]) -> (r: Vec<char>)
    requires
        is_pattern(pattern@),
    ensures
        r@ == without(text@, regex_spans(pattern@, text@)),
{
    let rows = spans(pattern, text);
    cut_out(text, &rows)
}

/// A group of the first match of a pattern in a text; empty where there is none.
pub open spec fn first_group(pattern: Seq<char>, text: Seq<char>, g: int) -> Option<Seq<char>> {
    let found = regex_spans(pattern, text);
    if found.len() == 0 {
        None
    } else {
        group_text(text, found[0], g)
    }
}

/// A group of the first match of a pattern in a text.
pub fn find_group(pattern: &str, text: &[char], g: usize) -> (r: Option<Vec<char>>)
    requires
        is_pattern(pattern@),
    ensures
        match r {
            Some(t) => first_group(pattern@, text@, g as int) == Some(t@),
            None => first_group(pattern@, text@, g as int) is None,
        },
{
    let rows = spans(pattern, text);
    if rows.len() == 0 {
        return None;
    }
    proof {
        row_of(rows@, 0, text@.len() as int);
    }
    group(text, &rows[0], g)
}

} // verus!
