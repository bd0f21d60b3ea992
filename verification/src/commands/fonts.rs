//! The fonts that a text can be set in.
use vstd::prelude::*;
use crate::decoding::{lowercase, to_lowercase};
use crate::keyed::{deep_update, find_key, place_of, place_of_is_first};
use crate::paths::{extension_of, lower_extension};
use crate::text::{chars_of, contains_word, has_word, trim, trimmed};
use crate::views::{deep_empty, deep_push};

verus! {

/// The name of a font as it was meant to be shown.
pub const NAME_ID_TYPOGRAPHIC_FAMILY: u16 = 16;

/// The name of a font.
pub const NAME_ID_FAMILY: u16 = 1;

/// American English.
pub const LANG_EN_US: u16 = 0x0409;

/// Simplified Chinese.
pub const LANG_ZH_CN: u16 = 0x0804;

/// The platform whose names are read.
pub const PLATFORM_WINDOWS: u8 = 3;

/// The extensions of font files.
pub const FONT_EXTS: &'static str = "ttf otf ttc";

/// A font: the name that styles use, and the name that is shown.
#[derive(Debug, Clone)]
pub struct SystemFont {
    pub family: String,
    pub display: String,
}

impl DeepView for SystemFont {
    type V = (Seq<char>, Seq<char>);

    open spec fn deep_view(&self) -> (Seq<char>, Seq<char>) {
        (self.family@, self.display@)
    }
}

/// A name in a font: the platform it is for, what it names, its language, and its text where that
/// can be read.
pub struct NameRecord {
    pub platform: u8,
    pub name_id: u16,
    pub language: u16,
    pub text: Option<String>,
}

/// `NameRecord` over sequences.
#[verifier::ext_equal]
pub struct FaceName {
    pub platform: u8,
    pub name_id: u16,
    pub language: u16,
    pub text: Option<Seq<char>>,
}

impl DeepView for NameRecord {
    type V = FaceName;

    open spec fn deep_view(&self) -> FaceName {
        FaceName {
            platform: self.platform,
            name_id: self.name_id,
            language: self.language,
            text: self.text.deep_view(),
        }
    }
}

// ---------------------------------------------------------------------------
// What font files hold
// ---------------------------------------------------------------------------

/// How many fonts a collection says that it has; none where the bytes are no collection.
pub uninterp spec fn collection_size(data: Seq<u8>) -> Option<u32>;

/// The names of a font in a file; none where it cannot be read.
pub uninterp spec fn face_records(data: Seq<u8>, index: u32) -> Option<Seq<FaceName>>;

/// The number of the shape that a font in a file has for a character.
pub uninterp spec fn face_glyph(data: Seq<u8>, index: u32, c: char) -> Option<u16>;

/// `ttf_parser::fonts_in_collection`: the number that the head of a font collection gives, none
/// for other files, under the name `collection_size`. That the file holds so many fonts is not
/// said.
#[verifier::external_body]
pub(crate) fn fonts_in_collection(data: &[u8]) -> (r: Option<u32>)
    ensures
        r == collection_size(data@),
{
    ttf_parser::fonts_in_collection(data)
}

/// `ttf_parser::Face::parse` and the names of the font, each with its text by
/// `ttf_parser::name::Name::to_string`, under the name `face_records`. Platforms are numbered as
/// in font files.
#[verifier::external_body]
pub(crate) fn read_face_records(data: &[u8], index: u32) -> (r: Option<Vec<NameRecord>>)
    ensures
        match r {
            Some(v) => face_records(data@, index) == Some(v.deep_view()),
            None => face_records(data@, index) is None,
        },
{
    let face = ttf_parser::Face::parse(data, index).ok()?;
    let mut out = Vec::new();
    for n in face.names() {
        let platform = match n.platform_id {
            ttf_parser::PlatformId::Unicode => 0,
            ttf_parser::PlatformId::Macintosh => 1,
            ttf_parser::PlatformId::Iso => 2,
            ttf_parser::PlatformId::Windows => 3,
            ttf_parser::PlatformId::Custom => 4,
        };
        out.push(NameRecord { platform, name_id: n.name_id, language: n.language_id, text: n.to_string() });
    }
    Some(out)
}

/// `ttf_parser::Face::parse` and `ttf_parser::Face::glyph_index`: the number of the shape, none
/// where the font has none for the character or cannot be read, under the name `face_glyph`.
#[verifier::external_body]
pub(crate) fn read_face_glyph(data: &[u8], index: u32, c: char) -> (r: Option<u16>)
    ensures
        r == face_glyph(data@, index, c),
{
    ttf_parser::Face::parse(data, index).ok()?.glyph_index(c).map(|g| g.0)
}

// ---------------------------------------------------------------------------
// The name of a font
// ---------------------------------------------------------------------------

/// A name that was picked: whether it is the one meant to be shown, and its text.
pub type Picked = Option<(bool, Seq<char>)>;

/// The better of a name that was picked and another: one meant to be shown is always taken, the
/// plain one only where there is none.
pub open spec fn better(cur: Picked, name_id: u16, text: Seq<char>) -> Picked {
    if name_id == NAME_ID_TYPOGRAPHIC_FAMILY {
        Some((true, text))
    } else if cur is None {
        Some((false, text))
    } else {
        cur
    }
}

/// Picks the better of two names.
pub fn pick_name(cur: Option<(bool, String)>, name_id: u16, text: &str) -> (r: Option<
    (bool, String),
>)
    ensures
        picked(r) == better(picked(cur), name_id, text@),
{
    if name_id == NAME_ID_TYPOGRAPHIC_FAMILY {
        Some((true, text.to_owned()))
    } else if cur.is_none() {
        Some((false, text.to_owned()))
    } else {
        cur
    }
}

/// A name that was picked, over sequences.
pub open spec fn picked(p: Option<(bool, String)>) -> Picked {
    match p {
        Some((shown, text)) => Some((shown, text@)),
        None => None,
    }
}

/// A record names the font in a language, and not with nothing.
pub open spec fn names_face(r: FaceName, language: u16) -> bool {
    &&& r.platform == PLATFORM_WINDOWS
    &&& r.name_id == NAME_ID_TYPOGRAPHIC_FAMILY || r.name_id == NAME_ID_FAMILY
    &&& r.language == language
    &&& r.text matches Some(t) && trimmed(t).len() > 0
}

/// The name that the first `n` records give in a language.
pub open spec fn best_name(records: Seq<FaceName>, language: u16, n: int) -> Picked
    decreases n,
{
    if n <= 0 || n > records.len() {
        None
    } else {
        let cur = best_name(records, language, n - 1);
        let r = records[n - 1];
        if names_face(r, language) {
            better(cur, r.name_id, r.text.unwrap())
        } else {
            cur
        }
    }
}

/// The name that styles use and the name that is shown: English for the one, Chinese for the
/// other, and each for the other where it is missing.
pub open spec fn named_face(records: Seq<FaceName>) -> Option<(Seq<char>, Seq<char>)> {
    let en = best_name(records, LANG_EN_US, records.len() as int);
    let zh = best_name(records, LANG_ZH_CN, records.len() as int);
    match (en, zh) {
        (Some((_, e)), Some((_, z))) => Some((e, z)),
        (Some((_, e)), None) => Some((e, e)),
        (None, Some((_, z))) => Some((z, z)),
        (None, None) => None,
    }
}

/// The name that styles use and the name that is shown.
pub fn face_names(records: &Vec<NameRecord>) -> (r: Option<(String, String)>)
    ensures
        match r {
            Some((f, d)) => named_face(records.deep_view()) == Some((f@, d@)),
            None => named_face(records.deep_view()) is None,
        },
{
    let ghost all = records.deep_view();
    let mut en: Option<(bool, String)> = None;
    let mut zh: Option<(bool, String)> = None;
    let mut i: usize = 0;
    while i < records.len()
        invariant
            i <= records@.len(),
            all == records.deep_view(),
            picked(en) == best_name(all, LANG_EN_US, i as int),
            picked(zh) == best_name(all, LANG_ZH_CN, i as int),
        decreases records@.len() - i,
    {
        let r = &records[i];
        assert(all[i as int] == records@[i as int].deep_view());
        if r.platform == PLATFORM_WINDOWS && (r.name_id == NAME_ID_TYPOGRAPHIC_FAMILY || r.name_id
            == NAME_ID_FAMILY) {
            if let Some(text) = &r.text {
                let letters = chars_of(text);
                if trim(&letters).len() > 0 {
                    if r.language == LANG_EN_US {
                        en = pick_name(en, r.name_id, text);
                    } else if r.language == LANG_ZH_CN {
                        zh = pick_name(zh, r.name_id, text);
                    }
                }
            }
        }
        i = i + 1;
    }
    match (en, zh) {
        (Some((_, e)), Some((_, z))) => Some((e, z)),
        (Some((_, e)), None) => {
            let d = e.clone();
            Some((e, d))
        },
        (None, Some((_, z))) => {
            let d = z.clone();
            Some((z, d))
        },
        (None, None) => None,
    }
}

/// A font has Chinese characters, as far as two of them show it.
pub open spec fn has_cjk(data: Seq<u8>, index: u32) -> bool {
    face_glyph(data, index, '中') is Some && face_glyph(data, index, '文') is Some
}

/// Whether a font has Chinese characters.
pub fn face_has_cjk(data: &[u8], index: u32) -> (r: bool)
    ensures
        r == has_cjk(data@, index),
{
    read_face_glyph(data, index, '中').is_some() && read_face_glyph(data, index, '文').is_some()
}

// ---------------------------------------------------------------------------
// All fonts
// ---------------------------------------------------------------------------

/// A font: the name that styles use, the name that is shown, whether it has Chinese characters.
pub type FontRow = (Seq<char>, (Seq<char>, bool));

/// The fonts with one more: of the same name there is one, with Chinese characters where any of
/// them has them.
pub open spec fn font_added(
    list: Seq<FontRow>,
    family: Seq<char>,
    display: Seq<char>,
    cjk: bool,
) -> Seq<FontRow> {
    match place_of(list, family, 0) {
        Some(i) => list.update(i, (list[i].0, (list[i].1.0, list[i].1.1 || cjk))),
        None => list.push((family, (display, cjk))),
    }
}

/// Adds a font.
pub fn add_font(list: &mut Vec<(String, (String, bool))>, family: &str, display: &str, cjk: bool)
    ensures
        final(list).deep_view() == font_added(old(list).deep_view(), family@, display@, cjk),
{
    let ghost before = *list;
    match find_key(list, family) {
        Some(i) => {
            let item = (list[i].0.clone(), (list[i].1.0.clone(), list[i].1.1 || cjk));
            assert(list.deep_view()[i as int] == list@[i as int].deep_view());
            list.set(i, item);
            proof {
                deep_update(before, i as int, item, *list);
            }
        },
        None => {
            let item = (family.to_owned(), (display.to_owned(), cjk));
            list.push(item);
            proof {
                deep_push(before, item, *list);
            }
        },
    }
}

/// The fonts with the first `n` of a file added; one that cannot be read or has no name is passed
/// over.
pub open spec fn file_added(list: Seq<FontRow>, data: Seq<u8>, n: int) -> Seq<FontRow>
    decreases n,
{
    if n <= 0 {
        list
    } else {
        let rest = file_added(list, data, n - 1);
        match face_records(data, (n - 1) as u32) {
            Some(records) => match named_face(records) {
                Some((family, display)) => font_added(
                    rest,
                    family,
                    display,
                    has_cjk(data, (n - 1) as u32),
                ),
                None => rest,
            },
            None => rest,
        }
    }
}

/// How many fonts are looked for in a file.
pub open spec fn face_count(data: Seq<u8>) -> int {
    match collection_size(data) {
        Some(n) => n as int,
        None => 1,
    }
}

/// Adds the fonts of a file.
pub fn add_font_file(list: &mut Vec<(String, (String, bool))>, data: &[u8])
    ensures
        final(list).deep_view() == file_added(old(list).deep_view(), data@, face_count(data@)),
{
    let n: u32 = match fonts_in_collection(data) {
        Some(n) => n,
        None => 1,
    };
    let ghost first = list.deep_view();
    let mut i: u32 = 0;
    while i < n
        invariant
            i <= n,
            n == face_count(data@),
            list.deep_view() == file_added(first, data@, i as int),
        decreases n - i,
    {
        if let Some(records) = read_face_records(data, i) {
            if let Some((family, display)) = face_names(&records) {
                let cjk = face_has_cjk(data, i);
                add_font(list, &family, &display, cjk);
            }
        }
        i = i + 1;
    }
}

/// Whether a file is one of fonts, by its extension.
pub fn is_font_file(windows: bool, path: &str) -> (r: bool)
    ensures
        r == has_word(FONT_EXTS@, lower_extension(windows, path@)),
{
    contains_word(&chars_of(FONT_EXTS), &extension_of(windows, &chars_of(path)))
}

/// No name occurs twice.
pub open spec fn fonts_distinct(list: Seq<FontRow>) -> bool {
    forall|i: int, j: int|
        #![trigger list[i], list[j]]
        0 <= i < j < list.len() ==> list[i].0 != list[j].0
}

/// Each font is listed once, whatever is added.
pub proof fn fonts_stay_distinct(
    list: Seq<FontRow>,
    family: Seq<char>,
    display: Seq<char>,
    cjk: bool,
)
    requires
        fonts_distinct(list),
    ensures
        fonts_distinct(font_added(list, family, display, cjk)),
{
    place_of_is_first(list, family, 0);
    let out = font_added(list, family, display, cjk);
    assert forall|i: int, j: int|
        #![trigger out[i], out[j]]
        0 <= i < j < out.len() implies out[i].0 != out[j].0 by {
        assert(out[i].0 == list[i].0);
        if j < list.len() {
            assert(out[j].0 == list[j].0);
        }
    }
}

// ---------------------------------------------------------------------------
// Their order
// ---------------------------------------------------------------------------

/// From position `i` on, the text `a` comes before `b` or is the same, character by character.
pub open spec fn not_behind(a: Seq<char>, b: Seq<char>, i: int) -> bool
    decreases a.len() - i,
{
    if i < 0 || i >= a.len() {
        true
    } else if i >= b.len() {
        false
    } else if a[i] != b[i] {
        (a[i] as int) < (b[i] as int)
    } else {
        not_behind(a, b, i + 1)
    }
}

fn is_not_behind(a: &[char], b: &[char]) -> (r: bool)
    ensures
        r == not_behind(a@, b@, 0),
{
    let mut i: usize = 0;
    while i < a.len()
        invariant
            i <= a@.len(),
            not_behind(a@, b@, 0) == not_behind(a@, b@, i as int),
        decreases a@.len() - i,
    {
        if i >= b.len() {
            return false;
        }
        if a[i] != b[i] {
            return a[i] < b[i];
        }
        i = i + 1;
    }
    true
}

proof fn one_is_not_behind(a: Seq<char>, b: Seq<char>, i: int)
    requires
        0 <= i,
    ensures
        not_behind(a, b, i) || not_behind(b, a, i),
    decreases a.len() - i,
{
    if i < a.len() && i < b.len() && a[i] == b[i] {
        one_is_not_behind(a, b, i + 1);
    }
}

proof fn not_behind_goes_on(a: Seq<char>, b: Seq<char>, c: Seq<char>, i: int)
    requires
        0 <= i,
        not_behind(a, b, i),
        not_behind(b, c, i),
    ensures
        not_behind(a, c, i),
    decreases a.len() - i,
{
    if i < a.len() && i < b.len() && i < c.len() && a[i] == b[i] && b[i] == c[i] {
        not_behind_goes_on(a, b, c, i + 1);
    }
}

/// The font `a` can stand before `b`: those with Chinese characters come first, and of each kind
/// they go by the names that are shown, without regard to case.
pub open spec fn font_fits(a: FontRow, b: FontRow) -> bool {
    if a.1.1 != b.1.1 {
        a.1.1
    } else {
        not_behind(lowercase(a.1.0), lowercase(b.1.0), 0)
    }
}

fn fits_before(a: &(String, (String, bool)), b: &(String, (String, bool))) -> (r: bool)
    ensures
        r == font_fits(a.deep_view(), b.deep_view()),
{
    if a.1.1 != b.1.1 {
        a.1.1
    } else {
        is_not_behind(&chars_of(&to_lowercase(&a.1.0)), &chars_of(&to_lowercase(&b.1.0)))
    }
}

proof fn fits_goes_on(a: FontRow, b: FontRow, c: FontRow)
    requires
        font_fits(a, b),
        font_fits(b, c),
    ensures
        font_fits(a, c),
{
    if a.1.1 == b.1.1 && b.1.1 == c.1.1 {
        not_behind_goes_on(lowercase(a.1.0), lowercase(b.1.0), lowercase(c.1.0), 0);
    }
}

proof fn one_fits(a: FontRow, b: FontRow)
    ensures
        font_fits(a, b) || font_fits(b, a),
{
    one_is_not_behind(lowercase(a.1.0), lowercase(b.1.0), 0);
}

/// A font put into a row in order, behind those that it need not go before.
pub open spec fn with_font(s: Seq<FontRow>, x: FontRow) -> Seq<FontRow>
    decreases s.len(),
{
    if s.len() == 0 || font_fits(s.last(), x) {
        s.push(x)
    } else {
        with_font(s.drop_last(), x).push(s.last())
    }
}

/// The fonts in order; those that are alike stay as they were.
pub open spec fn fonts_in_order(s: Seq<FontRow>) -> Seq<FontRow>
    decreases s.len(),
{
    if s.len() == 0 {
        s
    } else {
        with_font(fonts_in_order(s.drop_last()), s.last())
    }
}

/// Each font of the row can stand before those behind it.
pub open spec fn fonts_ordered(s: Seq<FontRow>) -> bool {
    forall|i: int, j: int|
        #![trigger s[i], s[j]]
        0 <= i < j < s.len() ==> font_fits(s[i], s[j])
}

spec fn all_fit(s: Seq<FontRow>, x: FontRow) -> bool {
    forall|i: int| 0 <= i < s.len() ==> font_fits(#[trigger] s[i], x)
}

proof fn with_font_ordered(s: Seq<FontRow>, x: FontRow)
    requires
        fonts_ordered(s),
    ensures
        fonts_ordered(with_font(s, x)),
        with_font(s, x).to_multiset() == s.push(x).to_multiset(),
        forall|y: FontRow|
            #![trigger all_fit(with_font(s, x), y)]
            all_fit(s, y) && font_fits(x, y) ==> all_fit(with_font(s, x), y),
    decreases s.len(),
{
    broadcast use vstd::seq_lib::group_to_multiset_ensures;

    if s.len() == 0 || font_fits(s.last(), x) {
        let w = s.push(x);
        assert forall|i: int, j: int|
            #![trigger w[i], w[j]]
            0 <= i < j < w.len() implies font_fits(w[i], w[j]) by {
            assert(w[i] == s[i]);
            if j < s.len() {
                assert(w[j] == s[j]);
            } else if i < s.len() - 1 {
                assert(font_fits(s[i], s[s.len() - 1]));
                fits_goes_on(s[i], s.last(), x);
            }
        }
    } else {
        let d = s.drop_last();
        let l = s.last();
        with_font_ordered(d, x);
        let w = with_font(d, x);
        one_fits(l, x);
        assert(all_fit(d, l)) by {
            assert forall|i: int| 0 <= i < d.len() implies font_fits(#[trigger] d[i], l) by {
                assert(d[i] == s[i] && l == s[s.len() - 1]);
            }
        }
        assert(all_fit(w, l));
        let out = w.push(l);
        assert forall|i: int, j: int|
            #![trigger out[i], out[j]]
            0 <= i < j < out.len() implies font_fits(out[i], out[j]) by {
            assert(out[i] == w[i]);
            if j < w.len() {
                assert(out[j] == w[j]);
            }
        }
        assert(s =~= d.push(l));
        assert(out.to_multiset() == s.push(x).to_multiset()) by {
            assert(out.to_multiset() =~= w.to_multiset().insert(l));
            assert(s.push(x).to_multiset() =~= s.to_multiset().insert(x));
            assert(s.to_multiset() =~= d.to_multiset().insert(l));
            assert(d.push(x).to_multiset() =~= d.to_multiset().insert(x));
        }
        assert forall|y: FontRow| all_fit(s, y) && font_fits(x, y) implies #[trigger] all_fit(
            out,
            y,
        ) by {
            assert(all_fit(d, y)) by {
                assert forall|i: int| 0 <= i < d.len() implies font_fits(#[trigger] d[i], y) by {
                    assert(d[i] == s[i]);
                }
            }
            assert(all_fit(w, y));
            assert(font_fits(s[s.len() - 1], y));
        }
    }
}

/// Fonts with Chinese characters come first, names in order within each kind, and none is lost.
pub proof fn fonts_come_in_order(s: Seq<FontRow>)
    ensures
        fonts_ordered(fonts_in_order(s)),
        fonts_in_order(s).to_multiset() == s.to_multiset(),
    decreases s.len(),
{
    broadcast use vstd::seq_lib::group_to_multiset_ensures;

    if s.len() > 0 {
        let d = s.drop_last();
        fonts_come_in_order(d);
        with_font_ordered(fonts_in_order(d), s.last());
        assert(s =~= d.push(s.last()));
        assert(fonts_in_order(d).push(s.last()).to_multiset() =~= fonts_in_order(
            d,
        ).to_multiset().insert(s.last()));
        assert(s.to_multiset() =~= d.to_multiset().insert(s.last()));
    }
}

fn insert_font(v: &mut Vec<(String, (String, bool))>, x: (String, (String, bool)))
    ensures
        final(v).deep_view() == with_font(old(v).deep_view(), x.deep_view()),
{
    let ghost s = v.deep_view();
    let ghost before = *v;
    let ghost xv = x.deep_view();
    let mut i: usize = v.len();
    assert(s.take(i as int) =~= s);
    assert(s.skip(i as int) =~= Seq::empty());
    assert(with_font(s, xv) =~= with_font(s.take(i as int), xv) + s.skip(i as int));
    while i > 0 && !fits_before(&v[i - 1], &x)
        invariant
            *v == before,
            s == v.deep_view(),
            xv == x.deep_view(),
            i <= s.len(),
            with_font(s, xv) == with_font(s.take(i as int), xv) + s.skip(i as int),
        decreases i,
    {
        assert(s[i - 1] == v@[i - 1].deep_view());
        assert(s.take(i as int).drop_last() =~= s.take(i - 1));
        assert(with_font(s.take(i - 1), xv).push(s[i - 1]) + s.skip(i as int) =~= with_font(
            s.take(i - 1),
            xv,
        ) + s.skip(i - 1));
        i = i - 1;
    }
    proof {
        if i > 0 {
            assert(s[i - 1] == v@[i - 1].deep_view());
        }
    }
    v.insert(i, x);
    proof {
        let w = v.deep_view();
        assert forall|k: int| 0 <= k < w.len() implies w[k] == (s.take(i as int).push(xv) + s.skip(
            i as int,
        ))[k] by {
            if k < i {
                assert(v@[k] == before@[k]);
            } else if k > i {
                assert(v@[k] == before@[k - 1]);
            }
        }
        assert(w =~= s.take(i as int).push(xv) + s.skip(i as int));
    }
}

/// The fonts as they are offered.
pub open spec fn offered(s: Seq<FontRow>) -> Seq<(Seq<char>, Seq<char>)> {
    fonts_in_order(s).map_values(|f: FontRow| (f.0, f.1.0))
}

/// The fonts as they are offered.
pub fn offer_fonts(list: &Vec<(String, (String, bool))>) -> (r: Vec<SystemFont>)
    ensures
        r.deep_view() == offered(list.deep_view()),
{
    let ghost s = list.deep_view();
    let mut rows: Vec<(String, (String, bool))> = Vec::new();
    proof {
        deep_empty(rows);
        assert(s.take(0) =~= Seq::empty());
    }
    let mut i: usize = 0;
    while i < list.len()
        invariant
            i <= list@.len(),
            s == list.deep_view(),
            rows.deep_view() == fonts_in_order(s.take(i as int)),
        decreases list@.len() - i,
    {
        assert(s.take(i + 1).drop_last() =~= s.take(i as int));
        assert(s[i as int] == list@[i as int].deep_view());
        let item = (list[i].0.clone(), (list[i].1.0.clone(), list[i].1.1));
        insert_font(&mut rows, item);
        i = i + 1;
    }
    assert(s.take(i as int) =~= s);
    let mut out: Vec<SystemFont> = Vec::new();
    proof {
        deep_empty(out);
    }
    let ghost all = rows.deep_view();
    let mut k: usize = 0;
    assert(out.deep_view() =~= all.take(0).map_values(|f: FontRow| (f.0, f.1.0)));
    while k < rows.len()
        invariant
            k <= rows@.len(),
            all == rows.deep_view(),
            out.deep_view() == all.take(k as int).map_values(|f: FontRow| (f.0, f.1.0)),
        decreases rows@.len() - k,
    {
        let font = SystemFont { family: rows[k].0.clone(), display: rows[k].1.0.clone() };
        let ghost before = out;
        out.push(font);
        proof {
            deep_push(before, font, out);
            assert(all[k as int] == rows@[k as int].deep_view());
            assert(out.deep_view() =~= all.take(k + 1).map_values(|f: FontRow| (f.0, f.1.0)));
        }
        k = k + 1;
    }
    assert(all.take(k as int) =~= all);
    out
}


proof fn names_up_to(records: Seq<FaceName>, language: u16, k: int, n: int)
    requires
        0 <= k < n <= records.len(),
        names_face(records[k], language),
        records[k].name_id == 16,
        forall|j: int|
            k < j < n ==> !((#[trigger] records[j]).name_id == 16 && names_face(records[j], language)),
    ensures
        best_name(records, language, n) == Some((true, records[k].text.unwrap())),
    decreases n,
{
    if n - 1 > k {
        names_up_to(records, language, k, n - 1);
        assert(!(records[n - 1].name_id == 16 && names_face(records[n - 1], language)));
    }
}

proof fn no_name_before(records: Seq<FaceName>, language: u16, n: int)
    requires
        0 <= n <= records.len(),
        forall|j: int| 0 <= j < n ==> !names_face(#[trigger] records[j], language),
    ensures
        best_name(records, language, n) is None,
    decreases n,
{
    if n > 0 {
        no_name_before(records, language, n - 1);
        assert(!names_face(records[n - 1], language));
    }
}

proof fn plain_names_up_to(records: Seq<FaceName>, language: u16, k: int, n: int)
    requires
        0 <= k < n <= records.len(),
        names_face(records[k], language),
        records[k].name_id == 1,
        forall|j: int| 0 <= j < k ==> !names_face(#[trigger] records[j], language),
        forall|j: int|
            k < j < n ==> !((#[trigger] records[j]).name_id == 16 && names_face(records[j], language)),
    ensures
        best_name(records, language, n) == Some((false, records[k].text.unwrap())),
    decreases n,
{
    if n - 1 > k {
        plain_names_up_to(records, language, k, n - 1);
        assert(!(records[n - 1].name_id == 16 && names_face(records[n - 1], language)));
    } else {
        no_name_before(records, language, k);
    }
}

/// A record is the one that names a font in a language: the last that gives the name meant to be shown, or,
/// where none does, the first that gives the plain one.
pub open spec fn names_it(records: Seq<FaceName>, language: u16, k: int) -> bool {
    &&& 0 <= k < records.len()
    &&& names_face(records[k], language)
    &&& forall|j: int|
        k < j < records.len() ==> !((#[trigger] records[j]).name_id == 16 && names_face(
            records[j],
            language,
        ))
    &&& records[k].name_id == 16 || (records[k].name_id == 1 && forall|j: int|
        0 <= j < k ==> !names_face(#[trigger] records[j], language))
}

/// Styles use the English name of a font, and its Chinese name is shown; where one of them is missing, the
/// other serves for both.
pub proof fn a_font_goes_by_its_names(records: Seq<FaceName>, e: int, z: int)
    requires
        names_it(records, 0x0409, e) || forall|j: int|
            0 <= j < records.len() ==> !names_face(#[trigger] records[j], 0x0409),
        names_it(records, 0x0804, z) || forall|j: int|
            0 <= j < records.len() ==> !names_face(#[trigger] records[j], 0x0804),
    ensures
        names_it(records, 0x0409, e) && names_it(records, 0x0804, z) ==> named_face(records) == Some(
            (records[e].text.unwrap(), records[z].text.unwrap()),
        ),
        names_it(records, 0x0409, e) && !names_it(records, 0x0804, z) ==> named_face(records) == Some(
            (records[e].text.unwrap(), records[e].text.unwrap()),
        ),
        !names_it(records, 0x0409, e) && names_it(records, 0x0804, z) ==> named_face(records) == Some(
            (records[z].text.unwrap(), records[z].text.unwrap()),
        ),
        !names_it(records, 0x0409, e) && !names_it(records, 0x0804, z) ==> named_face(records) is None,
{
    let n = records.len() as int;
    if names_it(records, 0x0409, e) {
        if records[e].name_id == 16 {
            names_up_to(records, 0x0409, e, n);
        } else {
            plain_names_up_to(records, 0x0409, e, n);
        }
    } else {
        no_name_before(records, 0x0409, n);
    }
    if names_it(records, 0x0804, z) {
        if records[z].name_id == 16 {
            names_up_to(records, 0x0804, z, n);
        } else {
            plain_names_up_to(records, 0x0804, z, n);
        }
    } else {
        no_name_before(records, 0x0804, n);
    }
}

/// A font that is met again adds no row, but what it can write counts: the row says that there are Chinese
/// characters if any font of the name has them.
pub proof fn fonts_of_one_name_are_one(list: Seq<FontRow>, family: Seq<char>, display: Seq<char>, cjk: bool)
    ensures
        ({
            let after = font_added(list, family, display, cjk);
            let known = exists|i: int| 0 <= i < list.len() && (#[trigger] list[i]).0 == family;
            &&& after.len() == list.len() + if known {
                0int
            } else {
                1int
            }
            &&& forall|i: int|
                0 <= i < list.len() ==> (#[trigger] after[i]).0 == list[i].0 && after[i].1.0 == list[i].1.0
                    && (list[i].1.1 ==> after[i].1.1)
            &&& forall|i: int|
                0 <= i < list.len() && (#[trigger] list[i]).0 != family ==> after[i] == list[i]
            &&& exists|i: int|
                0 <= i < after.len() && (#[trigger] after[i]).0 == family && (cjk ==> after[i].1.1)
        }),
{
    place_of_is_first(list, family, 0);
    let after = font_added(list, family, display, cjk);
    match place_of(list, family, 0) {
        Some(i) => {
            assert(list[i].0 == family);
            assert(after[i].0 == family);
        },
        None => {
            assert(after[list.len() as int].0 == family);
        },
    }
}

} // verus!
