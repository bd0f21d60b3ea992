//! Fonts that stand in where those of a book are not installed.
use vstd::prelude::*;
use crate::decoding::{lowercase, to_lowercase};
use crate::numbers::{decimal, write_decimal};
use crate::parser::is_word;
use crate::regexes::{
    group, group_text, in_order, ints, regex_spans, row_of, spans, splice, spliced, Groups,
    FONT_FACE, FONT_FAMILY,
};
use crate::text::{
    chars_of, contains, ends, ends_with, find_char, join, join_all, occurs, part, push_all,
    push_str, replace, replaced, same, split, split_at, string_of, strip, stripped, texts,
    texts_push, trim, trim_end, trimmed, trimmed_end,
};

verus! {

/// Sans-serif fonts for Chinese, in the order of preference.
pub const HEITI_FALLBACKS: &'static str =
    "Microsoft YaHei,微软雅黑,SimHei,黑体,思源黑体,Source Han Sans SC,Noto Sans CJK SC,WenQuanYi Zen Hei";

/// Serif fonts for Chinese, in the order of preference.
pub const SONG_FALLBACKS: &'static str =
    "Noto Serif SC,思源宋体,Source Han Serif SC,Noto Serif CJK SC,SimSun,宋体";

/// Regular script fonts for Chinese, in the order of preference.
pub const KAI_FALLBACKS: &'static str = "KaiTi,楷体,STKaiti,楷体_GB2312";

/// A text has a character.
pub open spec fn has_char(s: Seq<char>, c: char) -> bool {
    crate::text::char_from(s, c, 0) is Some
}

/// The name of a font as it is compared: without quotes, in small letters.
pub open spec fn font_key(s: Seq<char>) -> Seq<char> {
    lowercase(stripped(stripped(trimmed(s), '"'), '\''))
}

/// The fonts that a list names, as they are compared.
pub open spec fn font_keys(v: Seq<char>) -> Seq<Seq<char>> {
    split(v, ',').map_values(|s: Seq<char>| font_key(s))
}

/// A name as it is put into a list: one word is quoted where the list uses quotes.
pub open spec fn font_written(name: Seq<char>, quotes: bool) -> Seq<char> {
    if quotes && !has_char(name, ' ') {
        "\""@ + name + "\""@
    } else {
        name
    }
}

/// The fonts of a chain that a list does not name, among the first `k`, as they are put into it.
pub open spec fn missing_fonts(
    chain: Seq<Seq<char>>,
    keys: Seq<Seq<char>>,
    quotes: bool,
    k: int,
) -> Seq<Seq<char>>
    decreases k,
{
    if k <= 0 || k > chain.len() {
        Seq::empty()
    } else if keys.contains(lowercase(chain[k - 1])) {
        missing_fonts(chain, keys, quotes, k - 1)
    } else {
        missing_fonts(chain, keys, quotes, k - 1).push(font_written(chain[k - 1], quotes))
    }
}

/// A value that says nothing of fonts by name.
pub open spec fn names_no_font(low: Seq<char>) -> bool {
    low == "inherit"@ || low == "initial"@ || low == "unset"@ || low == "revert"@ || occurs(
        low,
        "var("@,
    )
}

/// How long the generic keyword is that a list ends with; 0 where it ends with none.
pub open spec fn keyword_len(low: Seq<char>) -> int {
    if ends(low, "sans-serif"@) {
        10
    } else if ends(low, "serif"@) {
        5
    } else {
        0
    }
}

/// The last `n` characters of a list are one entry of it, and not the end of the name of a font.
pub open spec fn is_last_entry(v: Seq<char>, n: int) -> bool {
    let head = trimmed_end(v.take(v.len() - n));
    head.len() == 0 || head.last() == ','
}

/// The fonts that stand in for those of a list: regular script first where the list asks for it,
/// then the fonts of the class that its keyword names.
pub open spec fn chain_for(v: Seq<char>, low: Seq<char>) -> Seq<Seq<char>> {
    let class = if ends(low, "sans-serif"@) {
        split(HEITI_FALLBACKS@, ',')
    } else {
        split(SONG_FALLBACKS@, ',')
    };
    if occurs(low, "kai"@) || has_char(v, '楷') {
        split(KAI_FALLBACKS@, ',') + class
    } else {
        class
    }
}

/// The fonts that are put into a list.
pub open spec fn added_fonts(v: Seq<char>) -> Seq<Seq<char>> {
    let chain = chain_for(v, lowercase(v));
    missing_fonts(chain, font_keys(v), has_char(v, '"'), chain.len() as int)
}

/// A list of fonts with others put in before the generic keyword at its end. None where it is to
/// stay as it is: it names no fonts, ends with no keyword, or lacks none.
pub open spec fn augmented_family(value: Seq<char>) -> Option<Seq<char>> {
    let v = trimmed(value);
    let low = lowercase(v);
    let n = keyword_len(low);
    if v.len() == 0 || names_no_font(low) || n == 0 || n > v.len() || !is_last_entry(v, n)
        || added_fonts(v).len() == 0 {
        None
    } else {
        Some(v.take(v.len() - n) + join(added_fonts(v), ","@) + ","@ + v.skip(v.len() - n))
    }
}

/// What is put into a list stands between what it names and the keyword it ends with, both of
/// which stay as they are.
pub proof fn the_keyword_stays_last(value: Seq<char>)
    ensures
        augmented_family(value) matches Some(out) ==> {
            let v = trimmed(value);
            let n = keyword_len(lowercase(v));
            &&& 0 < n <= v.len()
            &&& out.take(v.len() - n) == v.take(v.len() - n)
            &&& out.skip(out.len() - n) == v.skip(v.len() - n)
        },
{
    if let Some(out) = augmented_family(value) {
        let v = trimmed(value);
        let n = keyword_len(lowercase(v));
        assert(out.take(v.len() - n) =~= v.take(v.len() - n));
        assert(out.skip(out.len() - n) =~= v.skip(v.len() - n));
    }
}

/// Every font put into a list is one of the chain that the list did not name.
pub proof fn added_fonts_are_new(
    chain: Seq<Seq<char>>,
    keys: Seq<Seq<char>>,
    quotes: bool,
    k: int,
)
    requires
        0 <= k <= chain.len(),
    ensures
        forall|i: int|
            0 <= i < missing_fonts(chain, keys, quotes, k).len() ==> exists|j: int|
                0 <= j < k && !keys.contains(lowercase(#[trigger] chain[j])) && (
                #[trigger] missing_fonts(chain, keys, quotes, k)[i]) == font_written(
                    chain[j],
                    quotes,
                ),
    decreases k,
{
    if k > 0 {
        added_fonts_are_new(chain, keys, quotes, k - 1);
        let rest = missing_fonts(chain, keys, quotes, k - 1);
        let all = missing_fonts(chain, keys, quotes, k);
        assert forall|i: int| 0 <= i < all.len() implies exists|j: int|
            0 <= j < k && !keys.contains(lowercase(#[trigger] chain[j])) && (#[trigger] all[i])
                == font_written(chain[j], quotes) by {
            if i < rest.len() {
                assert(all[i] == rest[i]);
                let j = choose|j: int|
                    0 <= j < k - 1 && !keys.contains(lowercase(#[trigger] chain[j])) && rest[i]
                        == font_written(chain[j], quotes);
                assert(all[i] == font_written(chain[j], quotes));
            } else {
                assert(all[i] == font_written(chain[k - 1], quotes));
            }
        }
    }
}

fn lower(s: &[char]) -> (r: Vec<char>)
    ensures
        r@ == lowercase(s@),
{
    let t = string_of(s);
    chars_of(to_lowercase(t.as_str()).as_str())
}

fn read_font_keys(v: &[char]) -> (r: Vec<Vec<char>>)
    ensures
        texts(r@) == font_keys(v@),
{
    let names = split_at(v, ',');
    let ghost all = texts(names@);
    let mut out: Vec<Vec<char>> = Vec::new();
    let mut i: usize = 0;
    while i < names.len()
        invariant
            i <= names@.len(),
            all == texts(names@),
            out@.len() == i,
            forall|j: int| 0 <= j < i ==> (#[trigger] out@[j])@ == font_key(all[j]),
        decreases names@.len() - i,
    {
        let a = trim(&names[i]);
        let b = strip(a, '"');
        let c = strip(b, '\'');
        out.push(lower(c));
        i = i + 1;
    }
    assert(texts(out@) =~= font_keys(v@));
    out
}

fn holds(list: &Vec<Vec<char>>, s: &[char]) -> (r: bool)
    ensures
        r == texts(list@).contains(s@),
{
    let mut i: usize = 0;
    while i < list.len()
        invariant
            i <= list@.len(),
            forall|j: int| 0 <= j < i ==> texts(list@)[j] != s@,
        decreases list@.len() - i,
    {
        if same(&list[i], s) {
            assert(texts(list@)[i as int] == s@);
            return true;
        }
        i = i + 1;
    }
    false
}

fn write_font(name: &[char], quotes: bool) -> (r: Vec<char>)
    ensures
        r@ == font_written(name@, quotes),
{
    if quotes && find_char(name, ' ', 0).is_none() {
        let mut out = chars_of("\"");
        push_all(&mut out, name);
        push_str(&mut out, "\"");
        out
    } else {
        let r = part(name, 0, name.len());
        assert(r@ =~= name@);
        r
    }
}

fn push_missing(
    out: &mut Vec<Vec<char>>,
    chain: &Vec<Vec<char>>,
    keys: &Vec<Vec<char>>,
    quotes: bool,
)
    ensures
        texts(final(out)@) == texts(old(out)@) + missing_fonts(
            texts(chain@),
            texts(keys@),
            quotes,
            chain@.len() as int,
        ),
{
    let ghost start = texts(out@);
    let ghost names = texts(chain@);
    let ghost known = texts(keys@);
    assert(start + Seq::<Seq<char>>::empty() =~= start);
    let mut i: usize = 0;
    while i < chain.len()
        invariant
            i <= chain@.len(),
            names == texts(chain@),
            known == texts(keys@),
            texts(out@) == start + missing_fonts(names, known, quotes, i as int),
        decreases chain@.len() - i,
    {
        let key = lower(&chain[i]);
        assert(names[i as int] == chain@[i as int]@);
        if !holds(keys, &key) {
            let w = write_font(&chain[i], quotes);
            let ghost before = out@;
            let ghost done = missing_fonts(names, known, quotes, i as int);
            out.push(w);
            proof {
                texts_push(before, w);
                assert((start + done).push(w@) =~= start + done.push(w@));
            }
        }
        i = i + 1;
    }
}

/// Missing fonts of one chain and then of another are those of both together.
proof fn missing_of_both(
    a: Seq<Seq<char>>,
    b: Seq<Seq<char>>,
    keys: Seq<Seq<char>>,
    quotes: bool,
    k: int,
)
    requires
        0 <= k <= b.len(),
    ensures
        missing_fonts(a + b, keys, quotes, a.len() + k) == missing_fonts(
            a,
            keys,
            quotes,
            a.len() as int,
        ) + missing_fonts(b, keys, quotes, k),
    decreases k,
{
    if k == 0 {
        missing_of_front(a, b, keys, quotes, a.len() as int);
        assert(missing_fonts(a, keys, quotes, a.len() as int) + Seq::<Seq<char>>::empty()
            =~= missing_fonts(a, keys, quotes, a.len() as int));
    } else {
        missing_of_both(a, b, keys, quotes, k - 1);
        assert((a + b)[a.len() + k - 1] == b[k - 1]);
        assert(missing_fonts(a + b, keys, quotes, a.len() + k) =~= missing_fonts(
            a,
            keys,
            quotes,
            a.len() as int,
        ) + missing_fonts(b, keys, quotes, k));
    }
}

proof fn missing_of_front(
    a: Seq<Seq<char>>,
    b: Seq<Seq<char>>,
    keys: Seq<Seq<char>>,
    quotes: bool,
    k: int,
)
    requires
        0 <= k <= a.len(),
    ensures
        missing_fonts(a + b, keys, quotes, k) == missing_fonts(a, keys, quotes, k),
    decreases k,
{
    if k > 0 {
        missing_of_front(a, b, keys, quotes, k - 1);
        assert((a + b)[k - 1] == a[k - 1]);
    }
}

fn is_or_has(low: &[char]) -> (r: bool)
    ensures
        r == names_no_font(low@),
{
    let var = chars_of("var(");
    is_word(low, "inherit") || is_word(low, "initial") || is_word(low, "unset") || is_word(
        low,
        "revert",
    ) || contains(low, &var)
}

/// Puts fonts into a list.
pub fn augment_family(value: &[char]) -> (r: Option<Vec<char>>)
    ensures
        match r {
            Some(t) => augmented_family(value@) == Some(t@),
            None => augmented_family(value@) is None,
        },
{
    let v = trim(value);
    if v.len() == 0 {
        return None;
    }
    let low = lower(v);
    if is_or_has(&low) {
        return None;
    }
    let sans = ends_with(&low, &chars_of("sans-serif"));
    let serif = ends_with(&low, &chars_of("serif"));
    if !sans && !serif {
        return None;
    }
    let n: usize = if sans {
        10
    } else {
        5
    };
    if n > v.len() {
        return None;
    }
    let front = part(v, 0, v.len() - n);
    assert(front@ =~= v@.take(v@.len() - n));
    let head = trim_end(&front);
    if head.len() > 0 && head[head.len() - 1] != ',' {
        return None;
    }
    let keys = read_font_keys(v);
    let quotes = find_char(v, '"', 0).is_some();
    let kai = contains(&low, &chars_of("kai")) || find_char(v, '楷', 0).is_some();
    let mut extra: Vec<Vec<char>> = Vec::new();
    assert(texts(extra@) =~= Seq::empty());
    let class = if sans {
        split_at(&chars_of(HEITI_FALLBACKS), ',')
    } else {
        split_at(&chars_of(SONG_FALLBACKS), ',')
    };
    let ghost ks = texts(keys@);
    let ghost cl = texts(class@);
    let ghost kc = split(KAI_FALLBACKS@, ',');
    if kai {
        let first = split_at(&chars_of(KAI_FALLBACKS), ',');
        push_missing(&mut extra, &first, &keys, quotes);
        assert(texts(extra@) =~= missing_fonts(kc, ks, quotes, kc.len() as int));
    }
    push_missing(&mut extra, &class, &keys, quotes);
    proof {
        if kai {
            missing_of_both(kc, cl, ks, quotes, cl.len() as int);
            assert((kc + cl).len() == kc.len() + cl.len());
        } else {
            assert(texts(extra@) =~= missing_fonts(cl, ks, quotes, cl.len() as int));
        }
    }
    assert(texts(extra@) == added_fonts(v@));
    if extra.len() == 0 {
        return None;
    }
    let cut = v.len() - n;
    let mut out = part(v, 0, cut);
    let list = join_all(&extra, &chars_of(","));
    push_all(&mut out, &list);
    push_str(&mut out, ",");
    let tail = part(v, cut, v.len());
    push_all(&mut out, &tail);
    assert(v@.subrange(0, cut as int) =~= v@.take(cut as int));
    assert(tail@ =~= v@.skip(cut as int));
    Some(out)
}

/// Puts fonts into a list.
pub fn augment_one_family(value: &str) -> (r: Option<String>)
    ensures
        r.deep_view() == augmented_family(value@),
{
    let cs = chars_of(value);
    match augment_family(&cs) {
        Some(t) => Some(string_of(&t)),
        None => None,
    }
}

// ---------------------------------------------------------------------------
// A whole style sheet
// ---------------------------------------------------------------------------

/// What stands for the `i`-th definition of a font while lists are changed.
pub open spec fn face_mark(i: int) -> Seq<char> {
    "\u{1}FACE"@ + decimal(i) + "\u{1}"@
}

/// The marks for as many definitions.
pub open spec fn face_marks(n: nat) -> Seq<Seq<char>> {
    Seq::new(n, |i: int| face_mark(i))
}

/// A declaration with fonts put into its list.
pub open spec fn augmented_rule(css: Seq<char>, m: Groups) -> Seq<char> {
    let prefix = match group_text(css, m, 1) {
        Some(t) => t,
        None => Seq::empty(),
    };
    let value = match group_text(css, m, 2) {
        Some(t) => t,
        None => Seq::empty(),
    };
    match augmented_family(value) {
        Some(v) => prefix + v,
        None => group_text(css, m, 0).unwrap(),
    }
}

/// The declarations with fonts put into their lists.
pub open spec fn augmented_rules(css: Seq<char>, found: Seq<Groups>) -> Seq<Seq<char>> {
    Seq::new(found.len(), |i: int| augmented_rule(css, found[i]))
}

/// The style sheet with the marks from the `i`-th on exchanged for the definitions.
pub open spec fn faces_back(
    out: Seq<char>,
    css: Seq<char>,
    faces: Seq<Groups>,
    i: int,
) -> Seq<char>
    decreases faces.len() - i,
{
    if i < 0 || i >= faces.len() {
        out
    } else {
        faces_back(
            replaced(out, face_mark(i), group_text(css, faces[i], 0).unwrap()),
            css,
            faces,
            i + 1,
        )
    }
}

/// A style sheet with fonts put into its lists. The definitions of fonts are set aside before,
/// and put back after.
pub open spec fn augmented_css(css: Seq<char>) -> Seq<char> {
    let faces = regex_spans(FONT_FACE@, css);
    let bare = spliced(css, faces, face_marks(faces.len()));
    let found = regex_spans(FONT_FAMILY@, bare);
    faces_back(spliced(bare, found, augmented_rules(bare, found)), css, faces, 0)
}

fn mark(i: usize) -> (r: Vec<char>)
    ensures
        r@ == face_mark(i as int),
        r@.len() > 0,
{
    let mut out = chars_of("\u{1}FACE");
    proof {
        reveal_strlit("\u{1}FACE");
    }
    let d = write_decimal(i as u64);
    push_all(&mut out, &d);
    push_str(&mut out, "\u{1}");
    out
}

fn whole(css: &[char], row: &Vec<Option<(usize, usize)>>) -> (r: Vec<char>)
    requires
        crate::regexes::row_within(crate::regexes::row_ints(row@), css@.len() as int),
    ensures
        group_text(css@, crate::regexes::row_ints(row@), 0) == Some(r@),
{
    match group(css, row, 0) {
        Some(t) => t,
        None => Vec::new(),
    }
}

fn rules_of(css: &[char], rows: &Vec<Vec<Option<(usize, usize)>>>) -> (r: Vec<Vec<char>>)
    requires
        in_order(ints(rows@), css@.len() as int),
    ensures
        texts(r@) == augmented_rules(css@, ints(rows@)),
        r@.len() == rows@.len(),
{
    let ghost found = ints(rows@);
    let mut with: Vec<Vec<char>> = Vec::new();
    let mut i: usize = 0;
    while i < rows.len()
        invariant
            i <= rows@.len(),
            found == ints(rows@),
            in_order(found, css@.len() as int),
            with@.len() == i,
            forall|j: int| 0 <= j < i ==> (#[trigger] with@[j])@ == augmented_rule(css@, found[j]),
        decreases rows@.len() - i,
    {
        proof {
            row_of(rows@, i as int, css@.len() as int);
        }
        let mut piece = match group(css, &rows[i], 1) {
            Some(t) => t,
            None => Vec::new(),
        };
        let value = match group(css, &rows[i], 2) {
            Some(t) => t,
            None => Vec::new(),
        };
        match augment_family(&value) {
            Some(v) => {
                push_all(&mut piece, &v);
            },
            None => {
                piece = whole(css, &rows[i]);
            },
        }
        assert(piece@ =~= augmented_rule(css@, found[i as int]));
        with.push(piece);
        i = i + 1;
    }
    assert(texts(with@) =~= augmented_rules(css@, found));
    with
}

/// Puts fonts into the lists of a style sheet.
pub fn augment_css(css: &[char]) -> (r: Vec<char>)
    ensures
        r@ == augmented_css(css@),
{
    let faces = spans(FONT_FACE, css);
    let ghost fs = ints(faces@);
    let mut marks: Vec<Vec<char>> = Vec::new();
    let mut i: usize = 0;
    while i < faces.len()
        invariant
            i <= faces@.len(),
            marks@.len() == i,
            forall|j: int| 0 <= j < i ==> (#[trigger] marks@[j])@ == face_mark(j),
        decreases faces@.len() - i,
    {
        marks.push(mark(i));
        i = i + 1;
    }
    assert(texts(marks@) =~= face_marks(fs.len()));
    let bare = splice(css, &faces, &marks);
    let rows = spans(FONT_FAMILY, &bare);
    let with = rules_of(&bare, &rows);
    let mut out = splice(&bare, &rows, &with);
    let mut k: usize = 0;
    while k < faces.len()
        invariant
            k <= faces@.len(),
            fs == ints(faces@),
            in_order(fs, css@.len() as int),
            augmented_css(css@) == faces_back(out@, css@, fs, k as int),
        decreases faces@.len() - k,
    {
        proof {
            row_of(faces@, k as int, css@.len() as int);
        }
        let face = whole(css, &faces[k]);
        let m = mark(k);
        out = replace(&out, &m, &face);
        k = k + 1;
    }
    out
}

/// Puts fonts into the lists of a style sheet.
pub fn augment_font_fallbacks(css: &str) -> (r: String)
    ensures
        r@ == augmented_css(css@),
{
    let cs = chars_of(css);
    let out = augment_css(&cs);
    string_of(&out)
}


// ---------------------------------------------------------------------------
// What is put in
// ---------------------------------------------------------------------------

/// No font of a chain is left out: each that a list does not name is put into it, in the order of the chain.
/// The result gives the fonts of the chain that are put in.
pub proof fn every_missing_font_is_added(
    chain: Seq<Seq<char>>,
    keys: Seq<Seq<char>>,
    quotes: bool,
    k: int,
) -> (of: Seq<int>)
    requires
        0 <= k <= chain.len(),
    ensures
        of.len() == missing_fonts(chain, keys, quotes, k).len(),
        forall|i: int|
            0 <= i < of.len() ==> 0 <= #[trigger] of[i] < k && missing_fonts(chain, keys, quotes, k)[i]
                == font_written(chain[of[i]], quotes),
        forall|i: int, j: int|
            #![trigger of[i], of[j]]
            0 <= i < j < of.len() ==> of[i] < of[j],
        forall|j: int|
            0 <= j < k && !keys.contains(lowercase(#[trigger] chain[j])) ==> of.contains(j),
    decreases k,
{
    if k == 0 {
        Seq::empty()
    } else {
        let before = every_missing_font_is_added(chain, keys, quotes, k - 1);
        if keys.contains(lowercase(chain[k - 1])) {
            before
        } else {
            let of = before.push(k - 1);
            assert forall|j: int|
                0 <= j < k && !keys.contains(lowercase(#[trigger] chain[j])) implies of.contains(j) by {
                if j == k - 1 {
                    assert(of[before.len() as int] == k - 1);
                } else {
                    assert(before.contains(j));
                    let i = choose|i: int| 0 <= i < before.len() && before[i] == j;
                    assert(of[i] == j);
                }
            }
            of
        }
    }
}

/// Fonts without serifs stand in where a list ends with that keyword, fonts with serifs where it ends with the
/// other, and those of regular script come first where the list asks for them.
pub proof fn fonts_of_a_kind_stand_in(v: Seq<char>, low: Seq<char>)
    ensures
        ({
            let kai = split("KaiTi,楷体,STKaiti,楷体_GB2312"@, ',');
            let sans = split(
                "Microsoft YaHei,微软雅黑,SimHei,黑体,思源黑体,Source Han Sans SC,Noto Sans CJK SC,WenQuanYi Zen Hei"@,
                ',',
            );
            let serif = split(
                "Noto Serif SC,思源宋体,Source Han Serif SC,Noto Serif CJK SC,SimSun,宋体"@,
                ',',
            );
            let asks = occurs(low, "kai"@) || has_char(v, '楷');
            &&& ends(low, "sans-serif"@) && !asks ==> chain_for(v, low) == sans
            &&& ends(low, "sans-serif"@) && asks ==> chain_for(v, low) == kai + sans
            &&& !ends(low, "sans-serif"@) && !asks ==> chain_for(v, low) == serif
            &&& !ends(low, "sans-serif"@) && asks ==> chain_for(v, low) == kai + serif
        }),
{
}

/// What is put into a list that ends with a keyword goes right before it, whatever the list names before: the
/// keyword must be an entry of its own.
pub proof fn fonts_go_before_the_keyword(head: Seq<char>, sans: bool)
    requires
        ({
            let word = if sans {
                "sans-serif"@
            } else {
                "serif"@
            };
            let v = head + word;
            &&& lowercase(v) == v
            &&& trimmed(v) == v
            &&& trimmed_end(head).len() == 0 || trimmed_end(head).last() == ','
            &&& !sans ==> !ends(v, "sans-serif"@)
            &&& !names_no_font(v)
            &&& added_fonts(v).len() > 0
        }),
    ensures
        ({
            let word = if sans {
                "sans-serif"@
            } else {
                "serif"@
            };
            augmented_family(head + word) == Some(head + join(added_fonts(head + word), ","@) + ","@ + word)
        }),
{
    reveal_strlit("sans-serif");
    reveal_strlit("serif");
    let word = if sans {
        "sans-serif"@
    } else {
        "serif"@
    };
    let v = head + word;
    let n = word.len() as int;
    assert(v.subrange(v.len() - n, v.len() as int) =~= word);
    assert(v.take(v.len() - n) =~= head);
    assert(v.skip(v.len() - n) =~= word);
}

} // verus!
