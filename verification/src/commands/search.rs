//! Looking a text up in a whole book.
//!
//! White space counts as one space, a block of the page sets words apart as a space does, and case
//! is ignored, also where a letter becomes several when it is made small.
use vstd::prelude::*;
use crate::decoding::{lower_expansion, lower_letters};
use crate::error::{around_number, Failure};
use crate::model::{Chapter, ChapterContent, ChapterKind};
use crate::numbers::decimal;
use crate::parser::session::BookSession;
use crate::parser::{unescape, unescaped};
use crate::state::LoadedBook;
use crate::text::{
    char_from, chars_of, collapse, collapsed, contains_word, find, find_char, find_from,
    find_from_is_first, has_word, lower_ascii, part, push_all, push_str, stands_at, string_of,
    to_lower_ascii, trim, trimmed,
};
use crate::views::{deep_empty, deep_push};

verus! {

/// How many hits are described; those beyond are only counted.
pub const MAX_SEARCH_MATCHES: usize = 500;

/// How many characters of a query are looked at.
pub const MAX_QUERY_CHARS: usize = 100;

/// How many characters beside a hit tell it from others.
pub const FINGERPRINT_CHARS: usize = 12;

/// How many characters beside a hit are shown with it.
pub const CONTEXT_CHARS: usize = 40;

/// The tags that set what is before them apart from what is behind.
pub const BLOCK_TAGS: &'static str =
    "p div br hr h1 h2 h3 h4 h5 h6 li tr td th blockquote table section article aside figure figcaption pre ul ol dl dt dd";

/// One hit.
#[derive(Debug, Clone)]
pub struct SearchMatch {
    pub chapter_index: u32,
    pub chapter_title: String,
    pub quote: String,
    pub prefix: String,
    pub suffix: String,
    pub pre: String,
    pub post: String,
}

/// One hit.
#[verifier::ext_equal]
pub struct Hit {
    pub chapter_index: u32,
    pub chapter_title: Seq<char>,
    pub quote: Seq<char>,
    pub prefix: Seq<char>,
    pub suffix: Seq<char>,
    pub pre: Seq<char>,
    pub post: Seq<char>,
}

impl DeepView for SearchMatch {
    type V = Hit;

    open spec fn deep_view(&self) -> Hit {
        Hit {
            chapter_index: self.chapter_index,
            chapter_title: self.chapter_title@,
            quote: self.quote@,
            prefix: self.prefix@,
            suffix: self.suffix@,
            pre: self.pre@,
            post: self.post@,
        }
    }
}

/// What was found.
#[derive(Debug, Clone)]
pub struct SearchResult {
    pub matches: Vec<SearchMatch>,
    pub total: usize,
    pub truncated: bool,
}

// ---------------------------------------------------------------------------
// The text that is looked through
// ---------------------------------------------------------------------------

/// One space for every run of white space, none at the ends.
pub fn collapse_ws(s: &str) -> (r: String)
    ensures
        r@ == collapsed(s@),
{
    string_of(&collapse(&chars_of(s)))
}

/// A tag without the marks of a closing tag, a declaration or an instruction.
pub open spec fn bare_tag(inner: Seq<char>) -> Seq<char>
    decreases inner.len(),
{
    if inner.len() > 0 && (inner[0] == '/' || inner[0] == '!' || inner[0] == '?') {
        bare_tag(inner.skip(1))
    } else {
        inner
    }
}

/// An ASCII letter or digit.
pub open spec fn is_alnum(c: char) -> bool {
    ('a' <= c && c <= 'z') || ('A' <= c && c <= 'Z') || ('0' <= c && c <= '9')
}

/// How far a name goes.
pub open spec fn name_end(s: Seq<char>, i: int) -> int
    decreases s.len() - i,
{
    if 0 <= i < s.len() && is_alnum(s[i]) {
        name_end(s, i + 1)
    } else {
        i
    }
}

/// The name of a tag, in small letters.
pub open spec fn named_tag(inner: Seq<char>) -> Seq<char> {
    let s = bare_tag(inner);
    lower_ascii(s.take(name_end(s, 0)))
}

/// The name of the tag that stands between the brackets.
pub fn tag_name(inner: &[char]) -> (r: Vec<char>)
    ensures
        r@ == named_tag(inner@),
{
    let n = inner.len();
    let mut i: usize = 0;
    assert(inner@.skip(0) =~= inner@);
    while i < n && (inner[i] == '/' || inner[i] == '!' || inner[i] == '?')
        invariant
            n == inner@.len(),
            i <= n,
            bare_tag(inner@) == bare_tag(inner@.skip(i as int)),
        decreases n - i,
    {
        assert(inner@.skip(i as int).skip(1) =~= inner@.skip(i as int + 1));
        i = i + 1;
    }
    let ghost s = inner@.skip(i as int);
    assert(bare_tag(inner@) == s);
    let mut e: usize = i;
    while e < n && (('a' <= inner[e] && inner[e] <= 'z') || ('A' <= inner[e] && inner[e] <= 'Z')
        || ('0' <= inner[e] && inner[e] <= '9'))
        invariant
            n == inner@.len(),
            i <= e <= n,
            s == inner@.skip(i as int),
            name_end(s, 0) == name_end(s, e - i),
        decreases n - e,
    {
        assert(s[e - i] == inner@[e as int]);
        e = e + 1;
    }
    assert(name_end(s, 0) == e - i) by {
        if e < n {
            assert(s[e - i] == inner@[e as int]);
        }
    }
    let name = part(inner, i, e);
    assert(name@ =~= s.take(e - i));
    to_lower_ascii(&name)
}

/// Whether a tag of this name sets apart.
pub open spec fn is_block(name: Seq<char>) -> bool {
    has_word(BLOCK_TAGS@, name)
}

/// Whether a tag of this name sets apart.
pub fn is_block_tag(name: &[char]) -> (r: bool)
    ensures
        r == is_block(name@),
{
    contains_word(&chars_of(BLOCK_TAGS), name)
}

/// A page from position `i` on without its tags: one that sets apart leaves a space. A tag that
/// does not end takes the rest with it.
pub open spec fn tagless_from(s: Seq<char>, i: int) -> Seq<char>
    decreases s.len() - i,
{
    if i < 0 || i >= s.len() {
        Seq::empty()
    } else if s[i] != '<' {
        seq![s[i]] + tagless_from(s, i + 1)
    } else {
        match char_from(s, '>', i) {
            None => Seq::empty(),
            Some(e) => if i < e < s.len() {
                (if is_block(named_tag(s.subrange(i + 1, e))) {
                    seq![' ']
                } else {
                    Seq::empty()
                }) + tagless_from(s, e + 1)
            } else {
                Seq::empty()
            },
        }
    }
}

/// The words of a page, one space apart.
pub open spec fn page_text(html: Seq<char>) -> Seq<char> {
    collapsed(unescaped(tagless_from(html, 0)))
}

/// The words of a page, one space apart.
pub fn html_to_plain_text(html: &str) -> (r: String)
    ensures
        r@ == page_text(html@),
{
    let s = chars_of(html);
    let n = s.len();
    let mut out: Vec<char> = Vec::new();
    let mut i: usize = 0;
    assert(out@ + tagless_from(s@, 0) =~= tagless_from(s@, 0));
    loop
        invariant
            n == s@.len(),
            i <= n,
            out@ + tagless_from(s@, i as int) == tagless_from(s@, 0),
        ensures
            out@ == tagless_from(s@, 0),
        decreases n - i,
    {
        let ghost before = out@;
        if i >= n {
            assert(out@ + tagless_from(s@, i as int) =~= out@);
            break;
        }
        if s[i] != '<' {
            out.push(s[i]);
            assert(out@ + tagless_from(s@, i as int + 1) =~= before + tagless_from(s@, i as int));
            i = i + 1;
        } else {
            match find_char(&s, '>', i) {
                None => {
                    assert(out@ + tagless_from(s@, i as int) =~= out@);
                    break;
                },
                Some(e) => {
                    proof {
                        crate::text::char_from_is_first(s@, '>', i as int);
                    }
                    let inner = part(&s, i + 1, e);
                    if is_block_tag(&tag_name(&inner)) {
                        out.push(' ');
                    }
                    assert(out@ + tagless_from(s@, e as int + 1) =~= before + tagless_from(
                        s@,
                        i as int,
                    ));
                    i = e + 1;
                },
            }
        }
    }
    string_of(&collapse(&unescape(&out)))
}

/// The text of a chapter that is looked through.
pub open spec fn searched_text(c: Chapter) -> Seq<char> {
    match c.kind {
        ChapterKind::Text => match c.text {
            Some(t) => collapsed(t),
            None => Seq::empty(),
        },
        ChapterKind::Html => match c.html {
            Some(h) => page_text(h),
            None => Seq::empty(),
        },
        ChapterKind::Images => Seq::empty(),
    }
}

fn text_to_search(c: &ChapterContent) -> (r: Vec<char>)
    ensures
        r@ == searched_text(c.deep_view()),
{
    match c.kind {
        ChapterKind::Text => match &c.text {
            Some(t) => chars_of(&collapse_ws(t)),
            None => Vec::new(),
        },
        ChapterKind::Html => match &c.html {
            Some(h) => chars_of(&html_to_plain_text(h)),
            None => Vec::new(),
        },
        ChapterKind::Images => Vec::new(),
    }
}

// ---------------------------------------------------------------------------
// Small letters, and where they come from
// ---------------------------------------------------------------------------

/// The first `n` characters of a text, made small.
pub open spec fn folded(s: Seq<char>, n: int) -> Seq<char>
    decreases n,
{
    if n <= 0 || n > s.len() {
        Seq::empty()
    } else {
        folded(s, n - 1) + lower_expansion(s[n - 1])
    }
}

/// For each small letter of the first `n` characters, the place of the character it comes from.
pub open spec fn sources(s: Seq<char>, n: int) -> Seq<int>
    decreases n,
{
    if n <= 0 || n > s.len() {
        Seq::empty()
    } else {
        sources(s, n - 1) + Seq::new(lower_expansion(s[n - 1]).len(), |k: int| n - 1)
    }
}

/// For each small letter of a text, and for the end, the place it comes from.
pub open spec fn source_map(s: Seq<char>) -> Seq<int> {
    sources(s, s.len() as int).push(s.len() as int)
}

spec fn whole(v: Seq<usize>) -> Seq<int> {
    Seq::new(v.len(), |i: int| v[i] as int)
}

/// A text made small, and for each of its letters, and for the end, the place it comes from.
pub fn fold_with_map(hay: &[char]) -> (r: (Vec<char>, Vec<usize>))
    ensures
        r.0@ == folded(hay@, hay@.len() as int),
        r.1@.len() == source_map(hay@).len(),
        forall|i: int| 0 <= i < r.1@.len() ==> #[trigger] r.1@[i] == source_map(hay@)[i],
{
    let mut lower: Vec<char> = Vec::new();
    let mut map: Vec<usize> = Vec::new();
    let n = hay.len();
    let mut i: usize = 0;
    assert(whole(map@) =~= sources(hay@, 0));
    while i < n
        invariant
            n == hay@.len(),
            i <= n,
            lower@ == folded(hay@, i as int),
            whole(map@) == sources(hay@, i as int),
        decreases n - i,
    {
        let more = lower_letters(hay[i]);
        push_all(&mut lower, &more);
        let ghost before = map@;
        let mut k: usize = 0;
        assert(map@ =~= before + Seq::new(0, |j: int| i));
        while k < more.len()
            invariant
                k <= more@.len(),
                map@ == before + Seq::new(k as nat, |j: int| i),
            decreases more@.len() - k,
        {
            map.push(i);
            k = k + 1;
            assert(map@ =~= before + Seq::new(k as nat, |j: int| i));
        }
        assert(whole(map@) =~= sources(hay@, i as int) + Seq::new(
            lower_expansion(hay@[i as int]).len(),
            |j: int| i as int,
        ));
        assert(Seq::new(lower_expansion(hay@[i as int]).len(), |j: int| i as int) =~= Seq::new(
            lower_expansion(hay@[i + 1 - 1]).len(),
            |j: int| i + 1 - 1,
        ));
        i = i + 1;
    }
    let ghost done = map@;
    map.push(n);
    assert(whole(map@) =~= source_map(hay@)) by {
        assert(whole(done) == sources(hay@, n as int));
    }
    assert forall|k: int| 0 <= k < map@.len() implies #[trigger] map@[k] == source_map(
        hay@,
    )[k] by {
        assert(whole(map@)[k] == map@[k]);
    }
    (lower, map)
}

proof fn sources_rise(s: Seq<char>, n: int)
    requires
        0 <= n <= s.len(),
    ensures
        sources(s, n).len() == folded(s, n).len(),
        forall|i: int| 0 <= i < sources(s, n).len() ==> 0 <= #[trigger] sources(s, n)[i] < n,
        forall|i: int, j: int|
            #![trigger sources(s, n)[i], sources(s, n)[j]]
            0 <= i < j < sources(s, n).len() ==> sources(s, n)[i] <= sources(s, n)[j],
    decreases n,
{
    if n > 0 {
        sources_rise(s, n - 1);
        let a = sources(s, n - 1);
        let b = Seq::new(lower_expansion(s[n - 1]).len(), |k: int| n - 1);
        assert(sources(s, n) == a + b);
        assert forall|i: int| 0 <= i < sources(s, n).len() implies 0 <= #[trigger] sources(
            s,
            n,
        )[i] < n by {
            if i < a.len() {
                assert(sources(s, n)[i] == a[i]);
            } else {
                assert(sources(s, n)[i] == b[i - a.len()]);
            }
        }
        assert forall|i: int, j: int|
            #![trigger sources(s, n)[i], sources(s, n)[j]]
            0 <= i < j < sources(s, n).len() implies sources(s, n)[i] <= sources(s, n)[j] by {
            if j < a.len() {
                assert(sources(s, n)[i] == a[i] && sources(s, n)[j] == a[j]);
            } else {
                assert(sources(s, n)[j] == b[j - a.len()]);
                if i < a.len() {
                    assert(sources(s, n)[i] == a[i]);
                } else {
                    assert(sources(s, n)[i] == b[i - a.len()]);
                }
            }
        }
    }
}

proof fn map_rises(s: Seq<char>)
    ensures
        source_map(s).len() == folded(s, s.len() as int).len() + 1,
        forall|i: int| 0 <= i < source_map(s).len() ==> 0 <= #[trigger] source_map(s)[i] <= s.len(),
        forall|i: int, j: int|
            #![trigger source_map(s)[i], source_map(s)[j]]
            0 <= i <= j < source_map(s).len() ==> source_map(s)[i] <= source_map(s)[j],
{
    sources_rise(s, s.len() as int);
    let a = sources(s, s.len() as int);
    let m = source_map(s);
    assert forall|i: int| 0 <= i < m.len() implies 0 <= #[trigger] m[i] <= s.len() by {
        if i < a.len() {
            assert(m[i] == a[i]);
        }
    }
    assert forall|i: int, j: int|
        #![trigger m[i], m[j]]
        0 <= i <= j < m.len() implies m[i] <= m[j] by {
        if i < a.len() {
            assert(m[i] == a[i]);
        }
        if j < a.len() {
            assert(m[j] == a[j]);
        }
    }
}

// ---------------------------------------------------------------------------
// Hits
// ---------------------------------------------------------------------------

/// No character has small letters on both sides of the place `l`.
pub open spec fn on_edge(map: Seq<int>, l: int) -> bool {
    l == 0 || l == map.len() - 1 || map[l] != map[l - 1]
}

/// Where a query stands in a text, from the small letter `from` on: each hit begins behind the one
/// before, and none begins or ends within a character.
pub open spec fn hits_from(low: Seq<char>, map: Seq<int>, query: Seq<char>, from: int) -> Seq<
    (int, int),
>
    decreases low.len() - from,
{
    match find_from(low, query, from) {
        None => Seq::empty(),
        Some(p) => if p < from || query.len() == 0 || p + query.len() > low.len() {
            Seq::empty()
        } else if on_edge(map, p) && on_edge(map, p + query.len()) {
            seq![(map[p], map[p + query.len()])] + hits_from(low, map, query, p + query.len())
        } else {
            hits_from(low, map, query, p + 1)
        },
    }
}

/// Where a query that was made small stands in a text.
pub open spec fn hits(hay: Seq<char>, query: Seq<char>) -> Seq<(int, int)> {
    hits_from(folded(hay, hay.len() as int), source_map(hay), query, 0)
}

/// The last characters of a text, `n` at most.
pub open spec fn tail_of(s: Seq<char>, n: int) -> Seq<char> {
    if s.len() <= n {
        s
    } else {
        s.skip(s.len() - n)
    }
}

/// The first of a sequence, `n` at most.
pub open spec fn head_of<T>(s: Seq<T>, n: int) -> Seq<T> {
    if s.len() <= n {
        s
    } else {
        s.take(n)
    }
}

/// What is shown before a hit: where it is cut off, three dots stand for the rest.
pub open spec fn lead_in(before: Seq<char>, n: int) -> Seq<char> {
    if before.len() > n {
        "…"@ + tail_of(before, n)
    } else {
        before
    }
}

/// What is shown behind a hit: where it is cut off, three dots stand for the rest.
pub open spec fn lead_out(behind: Seq<char>, n: int) -> Seq<char> {
    if behind.len() > n {
        head_of(behind, n) + "…"@
    } else {
        behind
    }
}

/// The last characters of a text.
pub fn char_tail(s: &[char], n: usize) -> (r: Vec<char>)
    ensures
        r@ == tail_of(s@, n as int),
{
    let len = s.len();
    if len <= n {
        let r = part(s, 0, len);
        assert(r@ =~= s@);
        r
    } else {
        let r = part(s, len - n, len);
        assert(r@ =~= s@.skip(len - n));
        r
    }
}

/// The first characters of a text.
pub fn char_head(s: &[char], n: usize) -> (r: Vec<char>)
    ensures
        r@ == head_of(s@, n as int),
{
    let len = s.len();
    if len <= n {
        let r = part(s, 0, len);
        assert(r@ =~= s@);
        r
    } else {
        let r = part(s, 0, n);
        assert(r@ =~= s@.take(n as int));
        r
    }
}

/// What is shown before and behind a hit.
pub fn excerpt(hay: &[char], start: usize, end: usize, ctx: usize) -> (r: (String, String))
    requires
        start <= end <= hay@.len(),
    ensures
        r.0@ == lead_in(hay@.take(start as int), ctx as int),
        r.1@ == lead_out(hay@.skip(end as int), ctx as int),
{
    let before = part(hay, 0, start);
    let behind = part(hay, end, hay.len());
    assert(before@ =~= hay@.take(start as int));
    assert(behind@ =~= hay@.skip(end as int));
    let pre = if before.len() > ctx {
        let mut out = chars_of("…");
        push_all(&mut out, &char_tail(&before, ctx));
        string_of(&out)
    } else {
        string_of(&before)
    };
    let post = if behind.len() > ctx {
        let mut out = char_head(&behind, ctx);
        push_str(&mut out, "…");
        string_of(&out)
    } else {
        string_of(&behind)
    };
    (pre, post)
}

/// What a chapter is called where hits are listed.
pub open spec fn hit_title(title: Seq<char>, index: int) -> Seq<char> {
    if trimmed(title).len() == 0 {
        "第 "@ + decimal(index + 1) + " 章"@
    } else {
        title
    }
}

/// A hit in a text.
pub open spec fn described(hay: Seq<char>, at: (int, int), title: Seq<char>, index: int) -> Hit {
    Hit {
        chapter_index: index as u32,
        chapter_title: title,
        quote: hay.subrange(at.0, at.1),
        prefix: tail_of(hay.take(at.0), FINGERPRINT_CHARS as int),
        suffix: head_of(hay.skip(at.1), FINGERPRINT_CHARS as int),
        pre: lead_in(hay.take(at.0), CONTEXT_CHARS as int),
        post: lead_out(hay.skip(at.1), CONTEXT_CHARS as int),
    }
}

/// The hits in a text, described.
pub open spec fn all_described(
    hay: Seq<char>,
    at: Seq<(int, int)>,
    title: Seq<char>,
    index: int,
) -> Seq<Hit> {
    at.map_values(|a: (int, int)| described(hay, a, title, index))
}

/// The hits in a chapter; one that cannot be read has none.
pub open spec fn chapter_hits(c: Result<Chapter, Failure>, index: int, query: Seq<char>) -> Seq<
    Hit,
> {
    match c {
        Ok(c) => all_described(
            searched_text(c),
            hits(searched_text(c), query),
            hit_title(c.title, index),
            index,
        ),
        Err(_) => Seq::empty(),
    }
}

/// The hits in the first `n` chapters of a book, in the order of the book.
pub open spec fn book_hits<S: BookSession>(book: S, n: int, query: Seq<char>) -> Seq<Hit>
    decreases n,
{
    if n <= 0 {
        Seq::empty()
    } else {
        book_hits(book, n - 1, query) + chapter_hits(book.chapter_at(n - 1, false), n - 1, query)
    }
}

/// A query as it is looked for.
pub open spec fn asked(raw: Seq<char>) -> Seq<char> {
    let q = head_of(collapsed(raw), MAX_QUERY_CHARS as int);
    folded(q, q.len() as int)
}

/// All hits of a query in a book.
pub open spec fn all_hits<S: BookSession>(book: S, raw: Seq<char>) -> Seq<Hit> {
    if asked(raw).len() == 0 {
        Seq::empty()
    } else {
        book_hits(book, book.chapters(), asked(raw))
    }
}

/// A number no larger than what can be counted.
pub open spec fn counted(n: int) -> int {
    if n > usize::MAX {
        usize::MAX as int
    } else {
        n
    }
}

/// The hits that are described with more behind them, while there is room.
pub open spec fn with_hits(list: Seq<Hit>, more: Seq<Hit>) -> Seq<Hit> {
    if list.len() >= MAX_SEARCH_MATCHES {
        list
    } else {
        head_of(list + more, MAX_SEARCH_MATCHES as int)
    }
}

proof fn all_described_push(
    hay: Seq<char>,
    at: Seq<(int, int)>,
    a: (int, int),
    title: Seq<char>,
    index: int,
)
    ensures
        all_described(hay, at.push(a), title, index) == all_described(
            hay,
            at,
            title,
            index,
        ).push(described(hay, a, title, index)),
{
    assert(all_described(hay, at.push(a), title, index) =~= all_described(
        hay,
        at,
        title,
        index,
    ).push(described(hay, a, title, index)));
}

/// Looks a query that was made small up in a chapter: what is found is described, while there is
/// room, and counted.
pub fn search_in_chapter<S: BookSession>(
    book: &LoadedBook<S>,
    index: usize,
    lower_query: &[char],
    matches: &mut Vec<SearchMatch>,
    total: &mut usize,
)
    requires
        book.wf(),
        index < usize::MAX,
    ensures
        final(matches).deep_view() == with_hits(
            old(matches).deep_view(),
            chapter_hits(
                book.source().chapter_at(index as int, false),
                index as int,
                lower_query@,
            ),
        ),
        *final(total) == counted(
            *old(total) + chapter_hits(
                book.source().chapter_at(index as int, false),
                index as int,
                lower_query@,
            ).len(),
        ),
{
    let ghost first = matches.deep_view();
    let ghost none: Seq<Hit> = Seq::empty();
    assert(first + none =~= first);
    let ch = match book.chapter_for_search(index) {
        Ok(c) => c,
        Err(_) => {
            return;
        },
    };
    let hay = text_to_search(&ch);
    let title_chars = chars_of(&ch.title);
    let title = if trim(&title_chars).len() == 0 {
        around_number("第 ", index as u64 + 1, " 章")
    } else {
        ch.title
    };
    let (low, map) = fold_with_map(&hay);
    let n = low.len();
    let q = lower_query.len();
    let ghost smap = source_map(hay@);
    let ghost mut done: Seq<(int, int)> = Seq::empty();
    proof {
        map_rises(hay@);
        assert(all_described(hay@, done, title@, index as int) =~= none);
        assert(done + hits(hay@, lower_query@) =~= hits(hay@, lower_query@));
    }
    if q == 0 {
        assert(hits(hay@, lower_query@) =~= Seq::empty());
        return;
    }
    let mut from: usize = 0;
    loop
        invariant
            n == low@.len(),
            q == lower_query@.len(),
            q > 0,
            from <= n,
            low@ == folded(hay@, hay@.len() as int),
            smap == source_map(hay@),
            map@.len() == smap.len(),
            smap.len() == n + 1,
            forall|i: int| 0 <= i < map@.len() ==> #[trigger] map@[i] == smap[i],
            forall|i: int| 0 <= i < smap.len() ==> 0 <= #[trigger] smap[i] <= hay@.len(),
            forall|i: int, j: int|
                #![trigger smap[i], smap[j]]
                0 <= i <= j < smap.len() ==> smap[i] <= smap[j],
            done + hits_from(low@, smap, lower_query@, from as int) == hits(hay@, lower_query@),
            first == old(matches).deep_view(),
            matches.deep_view() == with_hits(
                first,
                all_described(hay@, done, title@, index as int),
            ),
            *total == counted(*old(total) + done.len()),
        ensures
            done == hits(hay@, lower_query@),
        decreases n - from,
    {
        let pos = find(&low, lower_query, from);
        proof {
            find_from_is_first(low@, lower_query@, from as int);
        }
        match pos {
            None => {
                assert(done + hits_from(low@, smap, lower_query@, from as int) =~= done);
                break;
            },
            Some(p) => {
                let e = p + q;
                let start_ok = p == 0 || map[p] != map[p - 1];
                let end_ok = e == n || map[e] != map[e - 1];
                assert(start_ok == on_edge(smap, p as int)) by {
                    if p > 0 {
                        assert(map@[p as int] == smap[p as int]);
                        assert(map@[p - 1] == smap[p - 1]);
                    }
                }
                assert(end_ok == on_edge(smap, e as int)) by {
                    if e < n {
                        assert(map@[e as int] == smap[e as int]);
                        assert(map@[e - 1] == smap[e - 1]);
                    }
                }
                if !start_ok || !end_ok {
                    from = p + 1;
                    continue;
                }
                let start = map[p];
                let end = map[e];
                assert(start == smap[p as int] && end == smap[e as int]);
                let ghost at = (start as int, end as int);
                let ghost before = all_described(hay@, done, title@, index as int);
                let ghost hit = described(hay@, at, title@, index as int);
                let ghost was = matches.deep_view();
                proof {
                    all_described_push(hay@, done, at, title@, index as int);
                    assert(first + before.push(hit) =~= (first + before).push(hit));
                    assert(done + (seq![at] + hits_from(low@, smap, lower_query@, e as int))
                        =~= done.push(at) + hits_from(low@, smap, lower_query@, e as int));
                }
                *total = if *total == usize::MAX {
                    *total
                } else {
                    *total + 1
                };
                if matches.len() < MAX_SEARCH_MATCHES {
                    let head = part(&hay, 0, start);
                    let rest = part(&hay, end, hay.len());
                    assert(head@ =~= hay@.take(start as int));
                    assert(rest@ =~= hay@.skip(end as int));
                    let (pre, post) = excerpt(&hay, start, end, CONTEXT_CHARS);
                    let m = SearchMatch {
                        chapter_index: index as u32,
                        chapter_title: title.clone(),
                        quote: string_of(&part(&hay, start, end)),
                        prefix: string_of(&char_tail(&head, FINGERPRINT_CHARS)),
                        suffix: string_of(&char_head(&rest, FINGERPRINT_CHARS)),
                        pre,
                        post,
                    };
                    assert(m.deep_view() =~= hit);
                    let ghost v = *matches;
                    matches.push(m);
                    proof {
                        deep_push(v, m, *matches);
                    }
                }
                proof {
                    done = done.push(at);
                    assert(matches.deep_view() =~= with_hits(first, before.push(hit)));
                }
                from = e;
            },
        }
    }
}

proof fn more_hits(list: Seq<Hit>, more: Seq<Hit>)
    ensures
        with_hits(head_of(list, MAX_SEARCH_MATCHES as int), more) == head_of(
            list + more,
            MAX_SEARCH_MATCHES as int,
        ),
{
    assert(with_hits(head_of(list, MAX_SEARCH_MATCHES as int), more) =~= head_of(
        list + more,
        MAX_SEARCH_MATCHES as int,
    ));
}

/// Looks a query up in a whole book.
pub fn search_in_book<S: BookSession>(book: &LoadedBook<S>, raw_query: &str) -> (r: SearchResult)
    requires
        book.wf(),
    ensures
        r.matches.deep_view() == head_of(
            all_hits(book.source(), raw_query@),
            MAX_SEARCH_MATCHES as int,
        ),
        r.total == counted(all_hits(book.source(), raw_query@).len() as int),
        r.truncated == (all_hits(book.source(), raw_query@).len() > MAX_SEARCH_MATCHES),
{
    let query = char_head(&collapse(&chars_of(raw_query)), MAX_QUERY_CHARS);
    let (lower_query, _) = fold_with_map(&query);
    assert(lower_query@ == asked(raw_query@));
    let mut matches: Vec<SearchMatch> = Vec::new();
    let mut total: usize = 0;
    proof {
        deep_empty(matches);
    }
    if lower_query.len() > 0 {
        let n = book.chapter_count();
        let mut index: usize = 0;
        assert(matches.deep_view() =~= head_of(
            book_hits(book.source(), 0, lower_query@),
            MAX_SEARCH_MATCHES as int,
        ));
        while index < n
            invariant
                book.wf(),
                n == book.source().chapters(),
                index <= n,
                matches.deep_view() == head_of(
                    book_hits(book.source(), index as int, lower_query@),
                    MAX_SEARCH_MATCHES as int,
                ),
                total == counted(
                    book_hits(book.source(), index as int, lower_query@).len() as int,
                ),
            decreases n - index,
        {
            proof {
                more_hits(
                    book_hits(book.source(), index as int, lower_query@),
                    chapter_hits(
                        book.source().chapter_at(index as int, false),
                        index as int,
                        lower_query@,
                    ),
                );
            }
            search_in_chapter(book, index, &lower_query, &mut matches, &mut total);
            index = index + 1;
        }
    }
    let truncated = total > MAX_SEARCH_MATCHES;
    SearchResult { matches, total, truncated }
}

// ---------------------------------------------------------------------------
// What holds of hits
// ---------------------------------------------------------------------------

proof fn folded_grows(s: Seq<char>, a: int, b: int)
    requires
        0 <= a <= b <= s.len(),
    ensures
        folded(s, b) == folded(s, a) + folded(s.subrange(a, b), b - a),
    decreases b - a,
{
    if a == b {
        assert(folded(s, b) =~= folded(s, a) + Seq::empty());
    } else {
        folded_grows(s, a, b - 1);
        let t = s.subrange(a, b);
        folded_of_part(t, s.subrange(a, b - 1), b - 1 - a);
        assert(t[b - a - 1] == s[b - 1]);
        assert(folded(s, b) =~= folded(s, a) + folded(t, b - a));
    }
}

proof fn folded_of_part(s: Seq<char>, t: Seq<char>, n: int)
    requires
        0 <= n <= s.len(),
        n <= t.len(),
        forall|i: int| 0 <= i < n ==> s[i] == t[i],
    ensures
        folded(s, n) == folded(t, n),
    decreases n,
{
    if n > 0 {
        folded_of_part(s, t, n - 1);
    }
}

proof fn source_block(s: Seq<char>, n: int, l: int)
    requires
        0 <= n <= s.len(),
        0 <= l < sources(s, n).len(),
    ensures
        ({
            let a = sources(s, n)[l];
            0 <= a < n && folded(s, a).len() <= l < folded(s, a + 1).len() && forall|k: int|
                folded(s, a).len() <= k <= l ==> #[trigger] sources(s, n)[k] == a
        }),
    decreases n,
{
    sources_rise(s, n);
    if n > 0 {
        sources_rise(s, n - 1);
        let a = sources(s, n - 1);
        let b = Seq::new(lower_expansion(s[n - 1]).len(), |k: int| n - 1);
        if l < a.len() {
            source_block(s, n - 1, l);
            assert forall|k: int| folded(s, a[l]).len() <= k <= l implies #[trigger] sources(
                s,
                n,
            )[k] == a[l] by {
                assert(sources(s, n)[k] == a[k]);
            }
            assert(sources(s, n)[l] == a[l]);
        } else {
            assert(sources(s, n)[l] == b[l - a.len()]);
            assert forall|k: int| folded(s, n - 1).len() <= k <= l implies #[trigger] sources(
                s,
                n,
            )[k] == n - 1 by {
                assert(sources(s, n)[k] == b[k - a.len()]);
            }
        }
    }
}

/// A place that is on an edge is where the character that it comes from begins.
proof fn edge_is_a_start(s: Seq<char>, l: int)
    requires
        0 <= l < source_map(s).len(),
        on_edge(source_map(s), l),
    ensures
        0 <= source_map(s)[l] <= s.len(),
        folded(s, source_map(s)[l]).len() == l,
{
    let n = s.len() as int;
    sources_rise(s, n);
    let a = sources(s, n);
    if l < a.len() {
        source_block(s, n, l);
        assert(source_map(s)[l] == a[l]);
        if folded(s, a[l]).len() < l {
            assert(a[l - 1] == a[l]);
            assert(source_map(s)[l - 1] == a[l - 1]);
        }
    }
}

/// What a hit shows says what was asked for, but for the case of its letters; it lies in the text,
/// and behind the hits before it.
pub proof fn hits_say_what_was_asked(hay: Seq<char>, query: Seq<char>)
    ensures
        forall|i: int|
            0 <= i < hits(hay, query).len() ==> {
                let h = #[trigger] hits(hay, query)[i];
                0 <= h.0 <= h.1 <= hay.len() && folded(hay.subrange(h.0, h.1), h.1 - h.0) == query
            },
        forall|i: int, j: int|
            #![trigger hits(hay, query)[i], hits(hay, query)[j]]
            0 <= i < j < hits(hay, query).len() ==> hits(hay, query)[i].1 <= hits(hay, query)[j].0,
{
    hits_say_from(hay, query, 0);
}

proof fn hits_say_from(hay: Seq<char>, query: Seq<char>, from: int)
    requires
        0 <= from <= folded(hay, hay.len() as int).len(),
    ensures
        ({
            let low = folded(hay, hay.len() as int);
            let map = source_map(hay);
            let all = hits_from(low, map, query, from);
            &&& forall|i: int|
                0 <= i < all.len() ==> {
                    let h = #[trigger] all[i];
                    map[from] <= h.0 <= h.1 <= hay.len() && folded(
                        hay.subrange(h.0, h.1),
                        h.1 - h.0,
                    ) == query
                }
            &&& forall|i: int, j: int|
                #![trigger all[i], all[j]]
                0 <= i < j < all.len() ==> all[i].1 <= all[j].0
            &&& 0 <= map[from]
        }),
    decreases folded(hay, hay.len() as int).len() - from,
{
    let low = folded(hay, hay.len() as int);
    let map = source_map(hay);
    let all = hits_from(low, map, query, from);
    map_rises(hay);
    assert(0 <= map[from]);
    find_from_is_first(low, query, from);
    match find_from(low, query, from) {
        None => {},
        Some(p) => {
            if query.len() > 0 {
                let e = p + query.len();
                if on_edge(map, p) && on_edge(map, e) {
                    hits_say_from(hay, query, e);
                    edge_is_a_start(hay, p);
                    edge_is_a_start(hay, e);
                    let a = map[p];
                    let b = map[e];
                    assert(a <= b);
                    folded_grows(hay, a, b);
                    folded_grows(hay, b, hay.len() as int);
                    assert(low.subrange(p, e) =~= query);
                    assert(low.subrange(p, e) =~= folded(hay.subrange(a, b), b - a));
                    let rest = hits_from(low, map, query, e);
                    assert(all == seq![(a, b)] + rest);
                    assert forall|i: int| 0 <= i < all.len() implies ({
                        let h = #[trigger] all[i];
                        map[from] <= h.0 <= h.1 <= hay.len() && folded(
                            hay.subrange(h.0, h.1),
                            h.1 - h.0,
                        ) == query
                    }) by {
                        assert(map[from] <= map[p]);
                        if i > 0 {
                            assert(all[i] == rest[i - 1]);
                        }
                    }
                    assert forall|i: int, j: int|
                        #![trigger all[i], all[j]]
                        0 <= i < j < all.len() implies all[i].1 <= all[j].0 by {
                        assert(all[j] == rest[j - 1]);
                        if i > 0 {
                            assert(all[i] == rest[i - 1]);
                        }
                    }
                } else {
                    hits_say_from(hay, query, p + 1);
                    assert(map[from] <= map[p + 1]);
                    assert(all == hits_from(low, map, query, p + 1));
                }
            }
        },
    }
}

/// A place `p` of the text that comes before the edge `e` comes from a character before that at
/// `e`.
proof fn before_an_edge(s: Seq<char>, p: int, e: int)
    requires
        0 <= p < e < source_map(s).len(),
        on_edge(source_map(s), e),
    ensures
        source_map(s)[p] < source_map(s)[e],
{
    map_rises(s);
    let n = s.len() as int;
    sources_rise(s, n);
    let m = source_map(s);
    assert(m[p] <= m[e - 1]);
    if e == m.len() - 1 {
        assert(m[p] == sources(s, n)[p]);
    } else {
        assert(m[e - 1] <= m[e]);
    }
}

proof fn met_from(hay: Seq<char>, query: Seq<char>, from: int, p: int) -> (k: int)
    requires
        query.len() > 0,
        0 <= from <= p,
        stands_at(folded(hay, hay.len() as int), p, query),
        on_edge(source_map(hay), p),
        on_edge(source_map(hay), p + query.len()),
    ensures
        ({
            let all = hits_from(
                folded(hay, hay.len() as int),
                source_map(hay),
                query,
                from,
            );
            0 <= k < all.len() && all[k].0 <= source_map(hay)[p] < all[k].1
        }),
    decreases folded(hay, hay.len() as int).len() - from,
{
    let low = folded(hay, hay.len() as int);
    let map = source_map(hay);
    let all = hits_from(low, map, query, from);
    map_rises(hay);
    find_from_is_first(low, query, from);
    let q = find_from(low, query, from)->Some_0;
    assert(q <= p);
    let e = q + query.len();
    if on_edge(map, q) && on_edge(map, e) {
        assert(all == seq![(map[q], map[e])] + hits_from(low, map, query, e));
        if p < e {
            before_an_edge(hay, p, e);
            assert(map[q] <= map[p]);
            0
        } else {
            let k = met_from(hay, query, e, p);
            assert(all[k + 1] == hits_from(low, map, query, e)[k]);
            k + 1
        }
    } else {
        met_from(hay, query, q + 1, p)
    }
}

/// No place is missed: where the query stands in the text, case aside and on the edges of
/// characters, there is a hit that begins there, or one before that goes beyond.
pub proof fn no_place_is_missed(hay: Seq<char>, query: Seq<char>, p: int)
    requires
        query.len() > 0,
        0 <= p,
        stands_at(folded(hay, hay.len() as int), p, query),
        on_edge(source_map(hay), p),
        on_edge(source_map(hay), p + query.len()),
    ensures
        exists|k: int|
            0 <= k < hits(hay, query).len() && (#[trigger] hits(hay, query)[k]).0
                <= source_map(hay)[p] < hits(hay, query)[k].1,
{
    let k = met_from(hay, query, 0, p);
    assert(hits(hay, query)[k].0 <= source_map(hay)[p] < hits(hay, query)[k].1);
}

/// The hits of a book come in the order of its chapters.
pub proof fn hits_come_in_order<S: BookSession>(book: S, n: int, query: Seq<char>)
    requires
        n <= 0x1_0000_0000,
    ensures
        forall|i: int|
            0 <= i < book_hits(book, n, query).len() ==> (#[trigger] book_hits(
                book,
                n,
                query,
            )[i]).chapter_index < n,
        forall|i: int, j: int|
            #![trigger book_hits(book, n, query)[i], book_hits(book, n, query)[j]]
            0 <= i < j < book_hits(book, n, query).len() ==> book_hits(book, n, query)[i].chapter_index
                <= book_hits(book, n, query)[j].chapter_index,
    decreases n,
{
    if n > 0 {
        hits_come_in_order(book, n - 1, query);
        let a = book_hits(book, n - 1, query);
        let b = chapter_hits(book.chapter_at(n - 1, false), n - 1, query);
        let all = book_hits(book, n, query);
        assert(all == a + b);
        assert forall|i: int| 0 <= i < all.len() implies (#[trigger] all[i]).chapter_index < n by {
            if i < a.len() {
                assert(all[i] == a[i]);
            } else {
                assert(all[i] == b[i - a.len()]);
            }
        }
        assert forall|i: int, j: int|
            #![trigger all[i], all[j]]
            0 <= i < j < all.len() implies all[i].chapter_index <= all[j].chapter_index by {
            if j < a.len() {
                assert(all[i] == a[i] && all[j] == a[j]);
            } else {
                assert(all[j] == b[j - a.len()]);
                if i < a.len() {
                    assert(all[i] == a[i]);
                } else {
                    assert(all[i] == b[i - a.len()]);
                }
            }
        }
    }
}

proof fn source_of_start(s: Seq<char>, n: int, a: int)
    requires
        0 <= a < n <= s.len(),
        forall|i: int| 0 <= i < s.len() ==> lower_expansion(#[trigger] s[i]).len() > 0,
    ensures
        folded(s, a).len() < folded(s, n).len(),
        sources(s, n)[folded(s, a).len() as int] == a,
        folded(s, a).len() > 0 ==> sources(s, n)[folded(s, a).len() - 1] < a,
    decreases n,
{
    sources_rise(s, n);
    sources_rise(s, n - 1);
    let before = sources(s, n - 1);
    assert(lower_expansion(s[n - 1]).len() > 0);
    if a == n - 1 {
        assert(folded(s, a).len() == before.len());
        if before.len() > 0 {
            assert(sources(s, n)[before.len() - 1] == before[before.len() - 1]);
        }
    } else {
        source_of_start(s, n - 1, a);
        assert(sources(s, n)[folded(s, a).len() as int] == before[folded(s, a).len() as int]);
        if folded(s, a).len() > 0 {
            assert(sources(s, n)[folded(s, a).len() - 1] == before[folded(s, a).len() - 1]);
        }
    }
}

proof fn starts_are_edges(s: Seq<char>, a: int)
    requires
        0 <= a <= s.len(),
        forall|i: int| 0 <= i < s.len() ==> lower_expansion(#[trigger] s[i]).len() > 0,
    ensures
        0 <= folded(s, a).len() < source_map(s).len(),
        source_map(s)[folded(s, a).len() as int] == a,
        on_edge(source_map(s), folded(s, a).len() as int),
{
    let n = s.len() as int;
    sources_rise(s, n);
    if a < n {
        source_of_start(s, n, a);
        let p = folded(s, a).len() as int;
        assert(source_map(s)[p] == sources(s, n)[p]);
        if p > 0 {
            assert(source_map(s)[p - 1] == sources(s, n)[p - 1]);
        }
    }
}

/// Case is ignored, and letters are made small one by one: the small letters of a text are those of its
/// characters, one behind the other.
pub proof fn letters_are_made_small_one_by_one(a: Seq<char>, b: Seq<char>, c: char)
    ensures
        folded(a + b, (a + b).len() as int) == folded(a, a.len() as int) + folded(
            b,
            b.len() as int,
        ),
        folded(seq![c], 1) == lower_expansion(c),
{
    folded_grows(a + b, a.len() as int, (a + b).len() as int);
    assert((a + b).subrange(a.len() as int, (a + b).len() as int) =~= b);
    folded_of_part(a + b, a, a.len() as int);
    assert(folded(seq![c], 0) =~= Seq::empty());
    assert(folded(seq![c], 1) =~= lower_expansion(c));
}

/// Whatever part of a text says what was asked for, case aside, is found: a hit begins there, or one
/// that begins before goes beyond.
pub proof fn what_says_it_is_found(hay: Seq<char>, a: int, b: int)
    requires
        0 <= a < b <= hay.len(),
        forall|i: int| 0 <= i < hay.len() ==> lower_expansion(#[trigger] hay[i]).len() > 0,
    ensures
        ({
            let query = folded(hay.subrange(a, b), b - a);
            exists|k: int|
                0 <= k < hits(hay, query).len() && (#[trigger] hits(hay, query)[k]).0 <= a
                    < hits(hay, query)[k].1
        }),
{
    let n = hay.len() as int;
    let query = folded(hay.subrange(a, b), b - a);
    let low = folded(hay, n);
    let p = folded(hay, a).len() as int;
    starts_are_edges(hay, a);
    starts_are_edges(hay, b);
    folded_grows(hay, a, b);
    folded_grows(hay, b, n);
    source_of_start(hay, b, a);
    assert(query.len() > 0);
    assert(low.subrange(p, p + query.len()) =~= query);
    assert(folded(hay, b).len() == p + query.len());
    no_place_is_missed(hay, query, p);
}

} // verus!
