//! Markdown: one chapter, with a table of contents made of its heading lines.
use vstd::prelude::*;
use crate::cleaning::{book_html, sanitize_book_html};
use crate::decoding::{decode_to_utf8, decoded_file};
use crate::error::{with_number, AppError, AppResult, Failure};
use crate::model::{
    toc_children_view, BookFormat, BookMeta, Chapter, ChapterContent, ChapterKind, Meta, Toc,
    TocItem,
};
use crate::numbers::{decimal, parse_decimal, parsed, write_decimal};
use crate::parser::{
    file_id, make_book_id, oversized, oversized_error, path_title, title_from_path, BookFile,
    FileView,
};
use crate::regexes::{
    group, group_text, in_order, ints, regex_spans, row_ints, row_of, row_within, spans, splice,
    spliced, Groups, BARE_HEADING,
};
use crate::text::{
    char_from, chars_of, find_char, lines, lines_of, part, push_all, push_str, starts, starts_with,
    string_of, texts, trim, trim_start, trimmed, trimmed_start,
};
use crate::views::{deep_empty, deep_pop, deep_push};

verus! {

/// The largest file, in bytes, that is opened.
pub const MAX_MD_FILE_SIZE: u64 = 209715200;

/// A heading: its level from 1 to 6, and its title.
#[derive(Debug)]
pub struct MdHeading {
    pub level: u8,
    pub title: String,
}

/// `MdHeading` over character sequences.
#[verifier::ext_equal]
pub struct Heading {
    pub level: u8,
    pub title: Seq<char>,
}

impl DeepView for MdHeading {
    type V = Heading;

    open spec fn deep_view(&self) -> Heading {
        Heading { level: self.level, title: self.title@ }
    }
}

// ---------------------------------------------------------------------------
// Headings
// ---------------------------------------------------------------------------

/// The position behind the first `c` at or after `i`; the end where there is none.
pub open spec fn behind(s: Seq<char>, c: char, i: int) -> int {
    match char_from(s, c, i) {
        Some(k) => if i <= k < s.len() {
            k + 1
        } else {
            s.len() as int
        },
        None => s.len() as int,
    }
}

/// The text from position `i` on without marks of emphasis and code; of a link its words are
/// left, of an image nothing.
pub open spec fn plain_from(s: Seq<char>, i: int) -> Seq<char>
    decreases s.len() - i,
{
    if i < 0 || i >= s.len() {
        Seq::empty()
    } else if s[i] == '*' || s[i] == '_' || s[i] == '`' || s[i] == '~' || s[i] == '\\' {
        plain_from(s, i + 1)
    } else if s[i] == '[' {
        let close = behind(s, ']', i + 1);
        let words = match char_from(s, ']', i + 1) {
            Some(k) => s.subrange(i + 1, k),
            None => s.subrange(i + 1, s.len() as int),
        };
        let next = if close < s.len() && s[close] == '(' {
            behind(s, ')', close)
        } else {
            close
        };
        if i < next {
            words + plain_from(s, next)
        } else {
            words
        }
    } else if s[i] == '!' && i + 1 < s.len() && s[i + 1] == '[' {
        let next = behind(s, ')', i + 2);
        if i < next {
            plain_from(s, next)
        } else {
            Seq::empty()
        }
    } else {
        seq![s[i]] + plain_from(s, i + 1)
    }
}

/// A title without its marks.
pub open spec fn plain_title(s: Seq<char>) -> Seq<char> {
    trimmed(plain_from(s, 0))
}

fn behind_char(s: &[char], c: char, i: usize) -> (r: usize)
    requires
        i <= s@.len(),
    ensures
        r == behind(s@, c, i as int),
        i <= r <= s@.len(),
{
    let n = s.len();
    match find_char(s, c, i) {
        Some(k) => k + 1,
        None => n,
    }
}

/// Takes the marks out of a title.
pub fn strip_inline(s: &[char]) -> (r: Vec<char>)
    ensures
        r@ == plain_title(s@),
{
    let n = s.len();
    let mut out: Vec<char> = Vec::new();
    let mut i: usize = 0;
    while i < n
        invariant
            n == s@.len(),
            i <= n,
            plain_from(s@, 0) == out@ + plain_from(s@, i as int),
        decreases n - i,
    {
        let ghost before = out@;
        let c = s[i];
        if c == '*' || c == '_' || c == '`' || c == '~' || c == '\\' {
            i = i + 1;
        } else if c == '[' {
            let close = behind_char(s, ']', i + 1);
            let stop: usize = match find_char(s, ']', i + 1) {
                Some(k) => k,
                None => n,
            };
            let words = part(s, i + 1, stop);
            push_all(&mut out, &words);
            let next = if close < n && s[close] == '(' {
                behind_char(s, ')', close)
            } else {
                close
            };
            assert(before + (words@ + plain_from(s@, next as int)) =~= out@ + plain_from(
                s@,
                next as int,
            ));
            i = next;
        } else if c == '!' && i + 1 < n && s[i + 1] == '[' {
            i = behind_char(s, ')', i + 2);
        } else {
            out.push(c);
            assert(before + (seq![c] + plain_from(s@, i + 1)) =~= out@ + plain_from(s@, i + 1));
            i = i + 1;
        }
    }
    assert(out@ + Seq::<char>::empty() =~= out@);
    let t = trim(&out);
    let r = part(t, 0, t.len());
    assert(r@ =~= t@);
    r
}

/// Takes the marks out of a title.
pub fn strip_md_inline(s: &str) -> (r: String)
    ensures
        r@ == plain_title(s@),
{
    let cs = chars_of(s);
    let out = strip_inline(&cs);
    string_of(&out)
}

/// How many characters `c` a text starts with, from position `i` on.
pub open spec fn run_of(s: Seq<char>, c: char, i: int) -> int
    decreases s.len() - i,
{
    if 0 <= i < s.len() && s[i] == c {
        run_of(s, c, i + 1)
    } else {
        i
    }
}

/// The heading that a line is: one to six number signs and then a blank or nothing.
pub open spec fn heading_of(t: Seq<char>) -> Option<Heading> {
    let n = run_of(t, '#', 0);
    if 1 <= n <= 6 && (n >= t.len() || t[n] == ' ' || t[n] == '\t') {
        let title = plain_title(trimmed(t.skip(n)));
        Some(
            Heading {
                level: n as u8,
                title: if title.len() == 0 {
                    "未命名章节"@
                } else {
                    title
                },
            },
        )
    } else {
        None
    }
}

/// What a line makes of the fence that code stands in: three backticks or tildes open one, and a
/// line of the same character alone closes it.
pub open spec fn fence_after(fence: Option<char>, t: Seq<char>) -> Option<char> {
    match fence {
        Some(c) => if t.len() > 0 && run_of(t, c, 0) >= t.len() {
            None
        } else {
            Some(c)
        },
        None => if starts(t, "```"@) {
            Some('`')
        } else if starts(t, "~~~"@) {
            Some('~')
        } else {
            None
        },
    }
}

/// The headings of the lines from the `i`-th on. A line within a fence is none.
pub open spec fn headings_from(
    rows: Seq<Seq<char>>,
    i: int,
    fence: Option<char>,
    done: Seq<Heading>,
) -> Seq<Heading>
    decreases rows.len() - i,
{
    if i < 0 || i >= rows.len() {
        done
    } else {
        let t = trimmed_start(rows[i]);
        let next = fence_after(fence, t);
        if fence is None && next is None && heading_of(t) is Some {
            headings_from(rows, i + 1, next, done.push(heading_of(t).unwrap()))
        } else {
            headings_from(rows, i + 1, next, done)
        }
    }
}

/// The headings of a text: those of its lines.
pub open spec fn md_headings(text: Seq<char>) -> Seq<Heading> {
    headings_from(lines(text), 0, None, Seq::empty())
}

fn count_run(s: &[char], c: char) -> (r: usize)
    ensures
        r == run_of(s@, c, 0),
        r <= s@.len(),
{
    let mut i: usize = 0;
    while i < s.len() && s[i] == c
        invariant
            i <= s@.len(),
            run_of(s@, c, 0) == run_of(s@, c, i as int),
        decreases s@.len() - i,
    {
        i = i + 1;
    }
    i
}

fn read_heading(t: &[char]) -> (r: Option<MdHeading>)
    ensures
        r.deep_view() == heading_of(t@),
{
    let n = count_run(t, '#');
    if n >= 1 && n <= 6 && (n >= t.len() || t[n] == ' ' || t[n] == '\t') {
        let rest = part(t, n, t.len());
        assert(rest@ =~= t@.skip(n as int));
        let title = strip_inline(trim(&rest));
        let r = MdHeading {
            level: n as u8,
            title: if title.len() == 0 {
                "未命名章节".to_owned()
            } else {
                string_of(&title)
            },
        };
        assert(r.deep_view() =~= heading_of(t@).unwrap());
        Some(r)
    } else {
        None
    }
}

fn next_fence(fence: Option<char>, t: &[char]) -> (r: Option<char>)
    ensures
        r == fence_after(fence, t@),
{
    match fence {
        Some(c) => if t.len() > 0 && count_run(t, c) >= t.len() {
            None
        } else {
            Some(c)
        },
        None => if starts_with(t, "```") {
            Some('`')
        } else if starts_with(t, "~~~") {
            Some('~')
        } else {
            None
        },
    }
}

/// Finds the headings of a text.
pub fn scan_headings(text: &str) -> (r: Vec<MdHeading>)
    ensures
        r.deep_view() == md_headings(text@),
{
    let cs = chars_of(text);
    let rows = lines_of(&cs);
    let ghost all = texts(rows@);
    let mut out: Vec<MdHeading> = Vec::new();
    proof {
        deep_empty(out);
    }
    let mut fence: Option<char> = None;
    let mut i: usize = 0;
    while i < rows.len()
        invariant
            i <= rows@.len(),
            all == texts(rows@),
            md_headings(text@) == headings_from(all, i as int, fence, out.deep_view()),
        decreases rows@.len() - i,
    {
        assert(all[i as int] == rows@[i as int]@);
        let t = trim_start(&rows[i]);
        let next = next_fence(fence, t);
        if fence.is_none() && next.is_none() {
            if let Some(h) = read_heading(t) {
                let ghost before = out;
                out.push(h);
                proof {
                    deep_push(before, h, out);
                }
            }
        }
        fence = next;
        i = i + 1;
    }
    out
}

// ---------------------------------------------------------------------------
// The table of contents
// ---------------------------------------------------------------------------

/// The entries that are done, and those that are open with their levels, outermost first.
#[verifier::ext_equal]
pub struct Nesting {
    pub roots: Seq<Toc>,
    pub levels: Seq<u8>,
    pub open: Seq<Toc>,
}

/// The innermost open entry goes to the one it stands in, or to those that are done.
pub open spec fn closed_one(n: Nesting) -> Nesting {
    let done = n.open.last();
    let rest = n.open.drop_last();
    if rest.len() > 0 {
        let up = rest.last();
        Nesting {
            levels: n.levels.drop_last(),
            open: rest.drop_last().push(Toc { children: up.children.push(done), ..up }),
            ..n
        }
    } else {
        Nesting { roots: n.roots.push(done), levels: n.levels.drop_last(), open: rest }
    }
}

/// Every open entry that is not above the level is closed.
pub open spec fn closed_to(n: Nesting, level: u8) -> Nesting
    decreases n.open.len(),
{
    if n.open.len() > 0 && n.levels.len() == n.open.len() && n.levels.last() >= level {
        closed_to(closed_one(n), level)
    } else {
        n
    }
}

/// The entry of the `i`-th heading.
pub open spec fn md_entry(h: Heading, i: int) -> Toc {
    Toc {
        id: "md-h-"@ + decimal(i),
        label: h.title,
        chapter_index: 0,
        anchor: Some("md-h-"@ + decimal(i)),
        children: Seq::empty(),
    }
}

/// What the first `k` headings make.
pub open spec fn nested(hs: Seq<Heading>, k: int) -> Nesting
    decreases k,
{
    if k <= 0 || k > hs.len() {
        Nesting { roots: Seq::empty(), levels: Seq::empty(), open: Seq::empty() }
    } else {
        let n = closed_to(nested(hs, k - 1), hs[k - 1].level);
        Nesting {
            roots: n.roots,
            levels: n.levels.push(hs[k - 1].level),
            open: n.open.push(md_entry(hs[k - 1], k - 1)),
        }
    }
}

/// The table of contents that headings make: each entry stands in the last before it of a higher
/// rank.
pub open spec fn md_toc(hs: Seq<Heading>) -> Seq<Toc> {
    closed_to(nested(hs, hs.len() as int), 0).roots
}

/// An entry without those that stand in it.
pub open spec fn alone(t: Toc) -> Toc {
    Toc { children: Seq::empty(), ..t }
}

/// The entries of a table at all depths, each before those that stand in it.
pub open spec fn flat(t: Seq<Toc>) -> Seq<Toc>
    decreases t,
{
    if t.len() == 0 {
        Seq::empty()
    } else {
        flat(t.drop_last()) + (seq![alone(t.last())] + flat(t.last().children))
    }
}

proof fn flat_push(t: Seq<Toc>, x: Toc)
    ensures
        flat(t.push(x)) == flat(t) + (seq![alone(x)] + flat(x.children)),
{
    assert(t.push(x).drop_last() =~= t);
}

proof fn closing_keeps_entries(n: Nesting, level: u8)
    requires
        n.levels.len() == n.open.len(),
    ensures
        ({
            let m = closed_to(n, level);
            &&& flat(m.roots) + flat(m.open) == flat(n.roots) + flat(n.open)
            &&& m.levels.len() == m.open.len()
            &&& m.open.len() > 0 ==> m.levels.last() < level
        }),
    decreases n.open.len(),
{
    if n.open.len() > 0 && n.levels.last() >= level {
        let m = closed_one(n);
        let rest = n.open.drop_last();
        let done = n.open.last();
        let own = seq![alone(done)] + flat(done.children);
        flat_push(rest, done);
        assert(rest.push(done) =~= n.open);
        if rest.len() > 0 {
            let up = rest.last();
            let grown = Toc { children: up.children.push(done), ..up };
            flat_push(up.children, done);
            flat_push(rest.drop_last(), up);
            assert(rest.drop_last().push(up) =~= rest);
            flat_push(rest.drop_last(), grown);
            let head = flat(rest.drop_last());
            assert(alone(grown) == alone(up));
            assert(head + (seq![alone(up)] + (flat(up.children) + own)) =~= head + (seq![alone(up)]
                + flat(up.children)) + own);
            assert(flat(m.open) =~= flat(n.open));
        } else {
            flat_push(n.roots, done);
            assert(flat(rest) =~= Seq::empty());
            assert(flat(m.roots) + flat(m.open) =~= flat(n.roots) + flat(n.open));
        }
        closing_keeps_entries(m, level);
    }
}

/// The entries of headings, one after another.
pub open spec fn md_entries(hs: Seq<Heading>) -> Seq<Toc> {
    Seq::new(hs.len(), |i: int| md_entry(hs[i], i))
}

proof fn nesting_keeps_entries(hs: Seq<Heading>, k: int)
    requires
        0 <= k <= hs.len(),
    ensures
        nested(hs, k).levels.len() == nested(hs, k).open.len(),
        flat(nested(hs, k).roots) + flat(nested(hs, k).open) == md_entries(hs).take(k),
    decreases k,
{
    if k > 0 {
        nesting_keeps_entries(hs, k - 1);
        let before = nested(hs, k - 1);
        closing_keeps_entries(before, hs[k - 1].level);
        let n = closed_to(before, hs[k - 1].level);
        let e = md_entry(hs[k - 1], k - 1);
        flat_push(n.open, e);
        assert(flat(e.children) =~= Seq::empty());
        assert(alone(e) =~= e);
        assert(flat(n.roots) + (flat(n.open) + (seq![e] + Seq::<Toc>::empty())) =~= (flat(n.roots)
            + flat(n.open)).push(e));
        assert(md_entries(hs).take(k) =~= md_entries(hs).take(k - 1).push(e));
    } else {
        assert(md_entries(hs).take(0) =~= Seq::empty());
        assert(flat(nested(hs, 0).roots) =~= Seq::empty());
        assert(flat(nested(hs, 0).open) =~= Seq::empty());
    }
}

/// The table of contents holds every heading once, in the order of the text: read from its start
/// at all depths, its entries are those of the headings.
pub proof fn every_heading_is_in_the_toc(hs: Seq<Heading>)
    ensures
        flat(md_toc(hs)) == md_entries(hs),
{
    nesting_keeps_entries(hs, hs.len() as int);
    let n = nested(hs, hs.len() as int);
    closing_keeps_entries(n, 0);
    assert(closed_to(n, 0).open.len() == 0);
    assert(flat(closed_to(n, 0).open) =~= Seq::empty());
    assert(md_entries(hs).take(hs.len() as int) =~= md_entries(hs));
    assert(flat(md_toc(hs)) =~= flat(md_toc(hs)) + Seq::<Toc>::empty());
}

struct Tree {
    roots: Vec<TocItem>,
    levels: Vec<u8>,
    open: Vec<TocItem>,
}

impl Tree {
    spec fn nesting(&self) -> Nesting {
        Nesting {
            roots: self.roots.deep_view(),
            levels: self.levels@,
            open: self.open.deep_view(),
        }
    }

    fn close_to(&mut self, level: u8)
        requires
            old(self).levels@.len() == old(self).open@.len(),
        ensures
            final(self).nesting() == closed_to(old(self).nesting(), level),
            final(self).levels@.len() == final(self).open@.len(),
    {
        let ghost want = closed_to(self.nesting(), level);
        loop
            invariant
                self.levels@.len() == self.open@.len(),
                want == closed_to(self.nesting(), level),
            ensures
                self.levels@.len() == self.open@.len(),
                self.nesting() == want,
            decreases self.open@.len(),
        {
            let n = self.levels.len();
            if n == 0 || self.levels[n - 1] < level {
                break;
            }
            let ghost before = self.open;
            let ghost was = self.nesting();
            self.levels.pop();
            if let Some(done) = self.open.pop() {
                let ghost popped = self.open;
                proof {
                    deep_pop(before, popped);
                }
                match self.open.pop() {
                    Some(up) => {
                        let ghost rest = self.open;
                        proof {
                            deep_pop(popped, rest);
                            toc_children_view(up);
                        }
                        let mut children = up.children;
                        let ghost old_children = children;
                        children.push(done);
                        let t = TocItem {
                            id: up.id,
                            label: up.label,
                            chapter_index: up.chapter_index,
                            anchor: up.anchor,
                            children,
                        };
                        self.open.push(t);
                        proof {
                            deep_push(old_children, done, children);
                            toc_children_view(t);
                            deep_push(rest, t, self.open);
                        }
                    },
                    None => {
                        let ghost roots = self.roots;
                        self.roots.push(done);
                        proof {
                            deep_push(roots, done, self.roots);
                        }
                    },
                }
            }
            assert(self.nesting() =~= closed_one(was));
        }
    }
}

/// Makes a table of contents of headings.
pub fn build_toc(headings: &Vec<MdHeading>) -> (r: Vec<TocItem>)
    ensures
        r.deep_view() == md_toc(headings.deep_view()),
{
    let ghost hs = headings.deep_view();
    let mut tree = Tree { roots: Vec::new(), levels: Vec::new(), open: Vec::new() };
    proof {
        deep_empty(tree.roots);
        deep_empty(tree.open);
        assert(tree.levels@ =~= Seq::empty());
    }
    let mut i: usize = 0;
    while i < headings.len()
        invariant
            i <= headings@.len(),
            hs == headings.deep_view(),
            tree.levels@.len() == tree.open@.len(),
            tree.nesting() == nested(hs, i as int),
        decreases headings@.len() - i,
    {
        assert(hs[i as int] == headings@[i as int].deep_view());
        tree.close_to(headings[i].level);
        let node = TocItem {
            id: with_number("md-h-", i as u64),
            label: headings[i].title.clone(),
            chapter_index: 0,
            anchor: Some(with_number("md-h-", i as u64)),
            children: Vec::new(),
        };
        let ghost before = tree.open;
        tree.levels.push(headings[i].level);
        tree.open.push(node);
        proof {
            toc_children_view(node);
            deep_empty(node.children);
            deep_push(before, node, tree.open);
            assert(node.deep_view() =~= md_entry(hs[i as int], i as int));
            assert(tree.nesting() =~= nested(hs, i + 1));
        }
        i = i + 1;
    }
    tree.close_to(0);
    tree.roots
}

// ---------------------------------------------------------------------------
// The chapter
// ---------------------------------------------------------------------------

/// The HTML of Markdown, with or without tables, footnotes, deletions and task lists.
pub uninterp spec fn markdown_html(
    text: Seq<char>,
    tables: bool,
    footnotes: bool,
    strikethrough: bool,
    tasklists: bool,
) -> Seq<char>;

/// `pulldown_cmark::html::push_html` of `pulldown_cmark::Parser::new_ext`: the HTML of a text
/// with the given extensions, under the name `markdown_html`.
#[verifier::external_body]
fn render(text: &str, tables: bool, footnotes: bool, strikethrough: bool, tasklists: bool) -> (r:
    String)
    ensures
        r@ == markdown_html(text@, tables, footnotes, strikethrough, tasklists),
{
    let mut options = pulldown_cmark::Options::empty();
    options.set(pulldown_cmark::Options::ENABLE_TABLES, tables);
    options.set(pulldown_cmark::Options::ENABLE_FOOTNOTES, footnotes);
    options.set(pulldown_cmark::Options::ENABLE_STRIKETHROUGH, strikethrough);
    options.set(pulldown_cmark::Options::ENABLE_TASKLISTS, tasklists);
    let mut out = String::new();
    pulldown_cmark::html::push_html(&mut out, pulldown_cmark::Parser::new_ext(text, options));
    out
}

/// The HTML that a Markdown text is shown as.
pub open spec fn md_html(text: Seq<char>) -> Seq<char> {
    markdown_html(text, true, true, true, true)
}

/// The character that is put before and behind the number of a heading line.
pub const MARK: char = '\u{1}';

/// A heading line with its number, between marks, behind its number signs.
pub open spec fn marked_line(row: Seq<char>, k: int) -> Seq<char> {
    let t = trimmed_start(row);
    let at = row.len() - t.len() + run_of(t, '#', 0);
    row.subrange(0, at) + seq![' ', MARK] + decimal(k) + seq![MARK] + row.subrange(
        at,
        row.len() as int,
    )
}

/// The lines from the `i`-th on, each heading line with its number, the next of which is `k`.
pub open spec fn marked_from(
    rows: Seq<Seq<char>>,
    i: int,
    fence: Option<char>,
    k: int,
    done: Seq<char>,
) -> Seq<char>
    decreases rows.len() - i,
{
    if i < 0 || i >= rows.len() {
        done
    } else {
        let t = trimmed_start(rows[i]);
        let next = fence_after(fence, t);
        if fence is None && next is None && heading_of(t) is Some {
            marked_from(rows, i + 1, next, k + 1, done + marked_line(rows[i], k) + seq!['\n'])
        } else {
            marked_from(rows, i + 1, next, k, done + rows[i] + seq!['\n'])
        }
    }
}

/// A text whose heading lines bear their numbers.
pub open spec fn marked(text: Seq<char>) -> Seq<char> {
    marked_from(lines(text), 0, None, 0, Seq::empty())
}

proof fn trimming_shortens(s: Seq<char>)
    ensures
        trimmed_start(s).len() <= s.len(),
    decreases s.len(),
{
    if s.len() > 0 {
        trimming_shortens(s.skip(1));
    }
}

/// The fence that the `i`-th line stands in.
pub open spec fn fence_before(rows: Seq<Seq<char>>, i: int) -> Option<char>
    decreases i,
{
    if i <= 0 {
        None
    } else {
        fence_after(fence_before(rows, i - 1), trimmed_start(rows[i - 1]))
    }
}

/// The `i`-th line is a heading line: it stands in no fence, opens none and is a heading.
pub open spec fn is_heading_line(rows: Seq<Seq<char>>, i: int) -> bool {
    &&& fence_before(rows, i) is None
    &&& fence_before(rows, i + 1) is None
    &&& heading_of(trimmed_start(rows[i])) is Some
}

/// How many of the first `i` lines are heading lines.
pub open spec fn headings_before(rows: Seq<Seq<char>>, i: int) -> int
    decreases i,
{
    if i <= 0 {
        0
    } else {
        headings_before(rows, i - 1) + if is_heading_line(rows, i - 1) {
            1int
        } else {
            0
        }
    }
}

/// The headings of the first `i` lines.
pub open spec fn first_headings(rows: Seq<Seq<char>>, i: int) -> Seq<Heading>
    decreases i,
{
    if i <= 0 {
        Seq::empty()
    } else if is_heading_line(rows, i - 1) {
        first_headings(rows, i - 1).push(heading_of(trimmed_start(rows[i - 1])).unwrap())
    } else {
        first_headings(rows, i - 1)
    }
}

/// The first `i` lines, each heading line with its number.
pub open spec fn first_marked(rows: Seq<Seq<char>>, i: int) -> Seq<char>
    decreases i,
{
    if i <= 0 {
        Seq::empty()
    } else if is_heading_line(rows, i - 1) {
        first_marked(rows, i - 1) + marked_line(rows[i - 1], headings_before(rows, i - 1)) + seq!['\n']
    } else {
        first_marked(rows, i - 1) + rows[i - 1] + seq!['\n']
    }
}

proof fn scanned_so_far(rows: Seq<Seq<char>>, i: int)
    requires
        0 <= i <= rows.len(),
    ensures
        headings_from(rows, 0, None, Seq::empty()) == headings_from(
            rows,
            i,
            fence_before(rows, i),
            first_headings(rows, i),
        ),
        marked_from(rows, 0, None, 0, Seq::empty()) == marked_from(
            rows,
            i,
            fence_before(rows, i),
            headings_before(rows, i),
            first_marked(rows, i),
        ),
        first_headings(rows, i).len() == headings_before(rows, i),
    decreases i,
{
    if i > 0 {
        scanned_so_far(rows, i - 1);
        assert(fence_before(rows, i) == fence_after(
            fence_before(rows, i - 1),
            trimmed_start(rows[i - 1]),
        ));
    }
}

proof fn headings_stay(rows: Seq<Seq<char>>, i: int, j: int)
    requires
        0 <= i <= j,
    ensures
        headings_before(rows, i) <= headings_before(rows, j),
        first_headings(rows, i).is_prefix_of(first_headings(rows, j)),
        first_marked(rows, i).is_prefix_of(first_marked(rows, j)),
    decreases j,
{
    if i < j {
        headings_stay(rows, i, j - 1);
    }
}

/// A heading line bears the number of its entry: where `k` heading lines stand before it, it makes
/// the `k`-th heading of the text, counted from zero, and the number in its marked line is `k`.
pub proof fn a_line_bears_the_number_of_its_heading(text: Seq<char>, i: int)
    requires
        0 <= i < lines(text).len(),
        is_heading_line(lines(text), i),
    ensures
        ({
            let row = lines(text)[i];
            let k = headings_before(lines(text), i);
            &&& 0 <= k < md_headings(text).len()
            &&& md_headings(text)[k] == heading_of(trimmed_start(row)).unwrap()
            &&& (first_marked(lines(text), i) + marked_line(row, k) + seq!['\n']).is_prefix_of(
                marked(text),
            )
        }),
{
    let rows = lines(text);
    let n = rows.len() as int;
    let k = headings_before(rows, i);
    scanned_so_far(rows, i);
    scanned_so_far(rows, i + 1);
    scanned_so_far(rows, n);
    headings_stay(rows, i + 1, n);
    assert(md_headings(text) == first_headings(rows, n));
    assert(marked(text) == first_marked(rows, n));
    assert(first_headings(rows, i + 1)[k] == heading_of(trimmed_start(rows[i])).unwrap());
    assert(first_marked(rows, i + 1) == first_marked(rows, i) + marked_line(rows[i], k) + seq!['\n']);
}

fn mark_line(row: &[char], k: u64) -> (r: Vec<char>)
    ensures
        r@ == marked_line(row@, k as int),
{
    let t = trim_start(row);
    proof {
        trimming_shortens(row@);
    }
    let at: usize = row.len() - t.len() + count_run(t, '#');
    let mut out = part(row, 0, at);
    out.push(' ');
    out.push(MARK);
    push_all(&mut out, &write_decimal(k));
    out.push(MARK);
    push_all(&mut out, &part(row, at, row.len()));
    assert(out@ =~= marked_line(row@, k as int));
    out
}

/// Puts into each heading line its number.
pub fn mark_headings(text: &str) -> (r: String)
    ensures
        r@ == marked(text@),
{
    let cs = chars_of(text);
    let rows = lines_of(&cs);
    let ghost all = texts(rows@);
    let mut out: Vec<char> = Vec::new();
    let mut fence: Option<char> = None;
    let mut k: u64 = 0;
    let mut i: usize = 0;
    while i < rows.len()
        invariant
            k <= i <= rows@.len(),
            all == texts(rows@),
            marked(text@) == marked_from(all, i as int, fence, k as int, out@),
        decreases rows@.len() - i,
    {
        assert(all[i as int] == rows@[i as int]@);
        let t = trim_start(&rows[i]);
        let next = next_fence(fence, t);
        if fence.is_none() && next.is_none() && read_heading(t).is_some() {
            push_all(&mut out, &mark_line(&rows[i], k));
            k = k + 1;
        } else {
            push_all(&mut out, &rows[i]);
        }
        let ghost before = out@;
        out.push('\n');
        assert(out@ =~= before + seq!['\n']);
        fence = next;
        i = i + 1;
    }
    string_of(&out)
}

/// The number between marks at a position, no more than `most`.
pub open spec fn mark_at(html: Seq<char>, at: int, most: int) -> Option<int> {
    if 0 <= at < html.len() && html[at] == MARK {
        match char_from(html, MARK, at + 1) {
            Some(k) => parsed(html.subrange(at + 1, k), 10, most),
            None => None,
        }
    } else {
        None
    }
}

/// The least number that comes behind those before.
pub open spec fn least_after(before: Seq<Option<u64>>) -> int
    decreases before.len(),
{
    if before.len() == 0 {
        0
    } else {
        match before.last() {
            Some(k) => k + 1,
            None => least_after(before.drop_last()),
        }
    }
}

/// The numbers of the first `j` headings of HTML. A heading has the number that stands, between
/// marks, right behind its opening tag, where it is less than `count` and more than those before.
pub open spec fn numbers_to(html: Seq<char>, found: Seq<Groups>, count: int, j: int) -> Seq<
    Option<u64>,
>
    decreases j,
{
    if j <= 0 {
        Seq::empty()
    } else {
        let before = numbers_to(html, found, count, j - 1);
        before.push(
            match mark_at(html, found[j - 1][0].unwrap().1, count) {
                Some(k) => if least_after(before) <= k < count {
                    Some(k as u64)
                } else {
                    None
                },
                None => None,
            },
        )
    }
}

/// The numbers of the headings of HTML that was made of a marked text.
pub open spec fn heading_numbers(html: Seq<char>, count: int) -> Seq<Option<u64>> {
    let found = regex_spans(BARE_HEADING@, html);
    numbers_to(html, found, count, found.len() as int)
}

fn end_of(row: &Vec<Option<(usize, usize)>>, n: usize) -> (r: usize)
    requires
        row_within(row_ints(row@), n as int),
    ensures
        r == row_ints(row@)[0].unwrap().1,
{
    assert(row_ints(row@)[0] is Some);
    match row[0] {
        Some((_, b)) => b,
        None => n,
    }
}

fn read_mark(html: &[char], at: usize, most: u64) -> (r: Option<u64>)
    ensures
        match r {
            Some(k) => mark_at(html@, at as int, most as int) == Some(k as int),
            None => mark_at(html@, at as int, most as int) is None,
        },
{
    if at < html.len() && html[at] == MARK {
        match find_char(html, MARK, at + 1) {
            Some(k) => parse_decimal(&part(html, at + 1, k), most),
            None => None,
        }
    } else {
        None
    }
}

/// Reads the numbers of the headings of HTML that was made of a marked text.
pub fn read_numbers(html: &[char], count: usize) -> (r: Vec<Option<u64>>)
    ensures
        r@ == heading_numbers(html@, count as int),
{
    let rows = spans(BARE_HEADING, html);
    let ghost found = ints(rows@);
    let n = html.len();
    let mut out: Vec<Option<u64>> = Vec::new();
    let mut least: u64 = 0;
    let mut i: usize = 0;
    while i < rows.len()
        invariant
            i <= rows@.len(),
            n == html@.len(),
            found == ints(rows@),
            in_order(found, n as int),
            least <= count,
            least == least_after(out@),
            out@ == numbers_to(html@, found, count as int, i as int),
        decreases rows@.len() - i,
    {
        proof {
            row_of(rows@, i as int, n as int);
        }
        let k = match read_mark(html, end_of(&rows[i], n), count as u64) {
            Some(k) => if least <= k && k < count as u64 {
                Some(k)
            } else {
                None
            },
            None => None,
        };
        let ghost before = out@;
        out.push(k);
        assert(out@.drop_last() =~= before);
        if let Some(k) = k {
            least = k + 1;
        }
        i = i + 1;
    }
    out
}

proof fn numbers_stay_below(s: Seq<Option<u64>>, i: int)
    requires
        0 <= i < s.len(),
        s[i] is Some,
        forall|a: int, b: int|
            0 <= a < b < s.len() && s[a] is Some && s[b] is Some ==> (#[trigger] s[a]).unwrap()
                < (#[trigger] s[b]).unwrap(),
    ensures
        s[i].unwrap() < least_after(s),
    decreases s.len(),
{
    if i < s.len() - 1 {
        if s.last() is Some {
            assert(s[i].unwrap() < s[s.len() - 1].unwrap());
        } else {
            numbers_stay_below(s.drop_last(), i);
        }
    }
}

proof fn first_numbers_grow(html: Seq<char>, found: Seq<Groups>, count: int, j: int)
    requires
        0 <= j,
        count <= usize::MAX,
    ensures
        ({
            let s = numbers_to(html, found, count, j);
            &&& s.len() == j
            &&& forall|a: int|
                0 <= a < j && s[a] is Some ==> 0 <= (#[trigger] s[a]).unwrap() < count
            &&& forall|a: int, b: int|
                0 <= a < b < j && s[a] is Some && s[b] is Some ==> (#[trigger] s[a]).unwrap()
                    < (#[trigger] s[b]).unwrap()
        }),
    decreases j,
{
    if j > 0 {
        first_numbers_grow(html, found, count, j - 1);
        let before = numbers_to(html, found, count, j - 1);
        let s = numbers_to(html, found, count, j);
        least_is_no_less_than_zero(before);
        assert forall|a: int, b: int|
            0 <= a < b < j && s[a] is Some && s[b] is Some implies (#[trigger] s[a]).unwrap() < (
        #[trigger] s[b]).unwrap() by {
            assert(s[a] == before[a]);
            if b == j - 1 {
                numbers_stay_below(before, a);
            } else {
                assert(s[b] == before[b]);
            }
        }
        assert forall|a: int| 0 <= a < j && s[a] is Some implies 0 <= (#[trigger] s[a]).unwrap()
            < count by {
            if a < j - 1 {
                assert(s[a] == before[a]);
            }
        }
    }
}

proof fn least_is_no_less_than_zero(s: Seq<Option<u64>>)
    ensures
        least_after(s) >= 0,
    decreases s.len(),
{
    if s.len() > 0 {
        least_is_no_less_than_zero(s.drop_last());
    }
}

/// The numbers of headings grow from the start of the HTML to its end and stay below the count, so
/// that no two headings have the same.
pub proof fn heading_numbers_grow(html: Seq<char>, count: int)
    requires
        count <= usize::MAX,
    ensures
        ({
            let s = heading_numbers(html, count);
            &&& s.len() == regex_spans(BARE_HEADING@, html).len()
            &&& forall|a: int|
                0 <= a < s.len() && s[a] is Some ==> 0 <= (#[trigger] s[a]).unwrap() < count
            &&& forall|a: int, b: int|
                0 <= a < b < s.len() && s[a] is Some && s[b] is Some ==> (#[trigger] s[a]).unwrap()
                    < (#[trigger] s[b]).unwrap()
        }),
{
    let found = regex_spans(BARE_HEADING@, html);
    first_numbers_grow(html, found, count, found.len() as int);
}

/// The opening tag of a heading, with its number where it has one.
pub open spec fn numbered_tag(html: Seq<char>, m: Groups, number: Option<u64>) -> Seq<char> {
    match number {
        None => group_text(html, m, 0).unwrap(),
        Some(k) => {
            let level = match group_text(html, m, 1) {
                Some(t) => t,
                None => Seq::empty(),
            };
            "<h"@ + level + " id=\"md-h-"@ + decimal(k as int) + "\">"@
        },
    }
}

/// The number of the `i`-th heading; those behind the last number have none.
pub open spec fn number_at(numbers: Seq<Option<u64>>, i: int) -> Option<u64> {
    if 0 <= i < numbers.len() {
        numbers[i]
    } else {
        None
    }
}

/// The opening tags of headings, numbered.
pub open spec fn numbered_tags(html: Seq<char>, found: Seq<Groups>, numbers: Seq<Option<u64>>) -> Seq<
    Seq<char>,
> {
    Seq::new(found.len(), |i: int| numbered_tag(html, found[i], number_at(numbers, i)))
}

/// HTML with its headings numbered.
pub open spec fn ids_given(html: Seq<char>, numbers: Seq<Option<u64>>) -> Seq<char> {
    let found = regex_spans(BARE_HEADING@, html);
    spliced(html, found, numbered_tags(html, found, numbers))
}

/// HTML with the opening tags of its first headings numbered in their order.
pub open spec fn ids_injected(html: Seq<char>, count: int) -> Seq<char> {
    ids_given(html, Seq::new(count as nat, |i: int| Some(i as u64)))
}

fn write_tag(html: &[char], row: &Vec<Option<(usize, usize)>>, number: Option<u64>) -> (r: Vec<char>)
    requires
        row_within(row_ints(row@), html@.len() as int),
    ensures
        r@ == numbered_tag(html@, row_ints(row@), number),
{
    match number {
        None => match group(html, row, 0) {
            Some(t) => t,
            None => Vec::new(),
        },
        Some(k) => {
            let mut out = chars_of("<h");
            match group(html, row, 1) {
                Some(t) => {
                    push_all(&mut out, &t);
                },
                None => {
                    assert(out@ + Seq::<char>::empty() =~= out@);
                },
            }
            push_str(&mut out, " id=\"md-h-");
            push_all(&mut out, &write_decimal(k));
            push_str(&mut out, "\">");
            out
        },
    }
}

/// Gives the headings of HTML their numbers.
pub fn number_headings(html: &str, numbers: &Vec<Option<u64>>) -> (r: String)
    ensures
        r@ == ids_given(html@, numbers@),
{
    let cs = chars_of(html);
    let rows = spans(BARE_HEADING, &cs);
    let ghost found = ints(rows@);
    let mut with: Vec<Vec<char>> = Vec::new();
    let mut i: usize = 0;
    while i < rows.len()
        invariant
            i <= rows@.len(),
            cs@ == html@,
            found == ints(rows@),
            in_order(found, cs@.len() as int),
            with@.len() == i,
            forall|j: int|
                0 <= j < i ==> (#[trigger] with@[j])@ == numbered_tag(
                    cs@,
                    found[j],
                    number_at(numbers@, j),
                ),
        decreases rows@.len() - i,
    {
        proof {
            row_of(rows@, i as int, cs@.len() as int);
        }
        let number = if i < numbers.len() {
            numbers[i]
        } else {
            None
        };
        with.push(write_tag(&cs, &rows[i], number));
        i = i + 1;
    }
    assert(texts(with@) =~= numbered_tags(cs@, found, numbers@));
    let out = splice(&cs, &rows, &with);
    string_of(&out)
}

/// Numbers the opening tags of the first `heading_count` headings, as the entries of the table of
/// contents are.
pub fn inject_heading_ids(html: &str, heading_count: usize) -> (r: String)
    ensures
        r@ == ids_injected(html@, heading_count as int),
{
    let mut numbers: Vec<Option<u64>> = Vec::new();
    let mut i: usize = 0;
    while i < heading_count
        invariant
            i <= heading_count,
            numbers@ == Seq::new(i as nat, |k: int| Some(k as u64)),
        decreases heading_count - i,
    {
        numbers.push(Some(i as u64));
        i = i + 1;
        assert(numbers@ =~= Seq::new(i as nat, |k: int| Some(k as u64)));
    }
    assert(numbers@ =~= Seq::new(heading_count as nat, |k: int| Some(k as u64)));
    number_headings(html, &numbers)
}

/// An open Markdown text.
pub struct MarkdownBook {
    pub book_id: String,
    pub text: String,
    pub headings: Vec<MdHeading>,
}

/// `MarkdownBook` over sequences.
#[verifier::ext_equal]
pub struct Md {
    pub book_id: Seq<char>,
    pub text: Seq<char>,
    pub headings: Seq<Heading>,
}

impl DeepView for MarkdownBook {
    type V = Md;

    open spec fn deep_view(&self) -> Md {
        Md {
            book_id: self.book_id@,
            text: self.text@,
            headings: self.headings.deep_view(),
        }
    }
}

/// What is known of a Markdown text.
pub open spec fn md_meta(file: FileView) -> Meta {
    Meta {
        id: file_id(file),
        title: path_title(file.windows, file.path),
        author: None,
        publisher: None,
        language: None,
        format: BookFormat::Markdown,
        file_size: file.size,
        file_path: file.path,
        total_chapters: 1,
        cover_resource: None,
    }
}

/// What opening a Markdown text gives.
pub open spec fn md_opened(file: FileView, data: Seq<u8>) -> Result<(Meta, Seq<Toc>, Md), Failure> {
    if file.size > MAX_MD_FILE_SIZE {
        Err(oversized("Markdown"@, file.size, "200"@))
    } else {
        match decoded_file(data) {
            Err(e) => Err(e),
            Ok(text) => {
                let headings = md_headings(text);
                Ok((md_meta(file), md_toc(headings), Md { book_id: file_id(file), text, headings }))
            },
        }
    }
}

/// The numbers of the headings that a text is shown with, `count` being how many heading lines it
/// has: the heading that a heading line is shown as has the number of the line. Which it is, is read
/// off the HTML of the text with its lines marked.
pub open spec fn md_numbers(text: Seq<char>, count: int) -> Seq<Option<u64>> {
    heading_numbers(md_html(marked(text)), count)
}

/// The one chapter of a Markdown text.
pub open spec fn md_chapter(b: Md, index: int) -> Result<Chapter, Failure> {
    if index != 0 {
        Err(Failure::ChapterOutOfRange(index as u32))
    } else {
        Ok(
            Chapter {
                book_id: b.book_id,
                chapter_index: 0,
                title: "全文"@,
                kind: ChapterKind::Html,
                html: Some(
                    book_html(
                        ids_given(
                            md_html(b.text),
                            md_numbers(b.text, b.headings.len() as int),
                        ),
                        false,
                    ),
                ),
                text: None,
                image_refs: None,
            },
        )
    }
}

/// Every number leads from one entry of the table of contents to one heading: the numbers of the
/// headings that an open text is shown with grow, so that none is given twice, and a heading with a
/// number has for its identifier the anchor of the entry of that place.
pub proof fn every_number_has_its_entry(
    file: FileView,
    data: Seq<u8>,
    meta: Meta,
    toc: Seq<Toc>,
    b: Md,
    i: int,
)
    requires
        md_opened(file, data) == Ok::<(Meta, Seq<Toc>, Md), Failure>((meta, toc, b)),
        b.headings.len() <= usize::MAX,
        0 <= i < regex_spans(BARE_HEADING@, md_html(b.text)).len(),
        number_at(md_numbers(b.text, b.headings.len() as int), i) is Some,
    ensures
        flat(toc) == md_entries(md_headings(b.text)),
        ({
            let html = md_html(b.text);
            let found = regex_spans(BARE_HEADING@, html);
            let numbers = md_numbers(b.text, b.headings.len() as int);
            let k = numbers[i].unwrap() as int;
            let level = match group_text(html, found[i], 1) {
                Some(t) => t,
                None => Seq::empty(),
            };
            &&& 0 <= k < flat(toc).len()
            &&& flat(toc)[k].anchor is Some
            &&& forall|j: int|
                0 <= j < i && (#[trigger] number_at(numbers, j)) is Some ==> number_at(
                    numbers,
                    j,
                ).unwrap() < k
            &&& md_chapter(b, 0)->Ok_0.html == Some(
                book_html(spliced(html, found, numbered_tags(html, found, numbers)), false),
            )
            &&& numbered_tags(html, found, numbers)[i] == "<h"@ + level + " id=\""@
                + flat(toc)[k].anchor.unwrap() + "\">"@
        }),
{
    every_heading_is_in_the_toc(b.headings);
    heading_numbers_grow(md_html(marked(b.text)), b.headings.len() as int);
    reveal_strlit(" id=\"md-h-");
    reveal_strlit(" id=\"");
    reveal_strlit("md-h-");
    assert(" id=\"md-h-"@ =~= " id=\""@ + "md-h-"@);
    let html = md_html(b.text);
    let found = regex_spans(BARE_HEADING@, html);
    let k = md_numbers(b.text, b.headings.len() as int)[i].unwrap() as int;
    let level = match group_text(html, found[i], 1) {
        Some(t) => t,
        None => Seq::empty(),
    };
    assert("<h"@ + level + (" id=\""@ + "md-h-"@) + decimal(k) =~= "<h"@ + level + " id=\""@ + (
    "md-h-"@ + decimal(k)));
}

/// A heading that no heading line is shown as is left as it is.
pub proof fn other_headings_have_no_number(b: Md, i: int)
    requires
        0 <= i < regex_spans(BARE_HEADING@, md_html(b.text)).len(),
        number_at(md_numbers(b.text, b.headings.len() as int), i) is None,
    ensures
        ({
            let html = md_html(b.text);
            let found = regex_spans(BARE_HEADING@, html);
            numbered_tags(html, found, md_numbers(b.text, b.headings.len() as int))[i] == group_text(
                html,
                found[i],
                0,
            ).unwrap()
        }),
{
}

impl MarkdownBook {
    /// Opens the text whose file holds the given bytes.
    pub fn open(file: &BookFile, data: &[u8]) -> (r: AppResult<
        (BookMeta, Vec<TocItem>, MarkdownBook),
    >)
        ensures
            match r {
                Ok((meta, toc, book)) => md_opened(file.deep_view(), data@) == Ok::<
                    (Meta, Seq<Toc>, Md),
                    Failure,
                >((meta.deep_view(), toc.deep_view(), book.deep_view())),
                Err(e) => md_opened(file.deep_view(), data@) == Err::<
                    (Meta, Seq<Toc>, Md),
                    Failure,
                >(e@),
            },
    {
        if file.size > MAX_MD_FILE_SIZE {
            return Err(oversized_error("Markdown", file.size, "200"));
        }
        let text = match decode_to_utf8(data) {
            Ok(s) => s,
            Err(e) => {
                return Err(e);
            },
        };
        let headings = scan_headings(text.as_str());
        let toc = build_toc(&headings);
        let book_id = make_book_id(file.canonical.as_str(), file.size);
        let meta = BookMeta {
            id: book_id.clone(),
            title: title_from_path(file.windows, file.path.as_str()),
            author: None,
            publisher: None,
            language: None,
            format: BookFormat::Markdown,
            file_size: file.size,
            file_path: file.path.clone(),
            total_chapters: 1,
            cover_resource: None,
        };
        assert(meta.deep_view() =~= md_meta(file.deep_view()));
        Ok((meta, toc, MarkdownBook { book_id, text, headings }))
    }

    /// A Markdown text is one chapter.
    pub fn chapter_count(&self) -> (r: usize)
        ensures
            r == 1,
    {
        1
    }

    /// Loads the chapter.
    pub fn load_chapter(&self, index: usize) -> (r: AppResult<ChapterContent>)
        ensures
            match r {
                Ok(c) => md_chapter(self.deep_view(), index as int) == Ok::<Chapter, Failure>(
                    c.deep_view(),
                ),
                Err(e) => md_chapter(self.deep_view(), index as int) == Err::<Chapter, Failure>(
                    e@,
                ),
            },
    {
        if index != 0 {
            return Err(AppError::ChapterOutOfRange(index as u32));
        }
        let rendered = render(self.text.as_str(), true, true, true, true);
        let marked_text = mark_headings(self.text.as_str());
        let marked_html = render(marked_text.as_str(), true, true, true, true);
        let numbers = read_numbers(&chars_of(marked_html.as_str()), self.headings.len());
        let numbered = number_headings(rendered.as_str(), &numbers);
        let r = ChapterContent {
            book_id: self.book_id.clone(),
            chapter_index: 0,
            title: "全文".to_owned(),
            kind: ChapterKind::Html,
            html: Some(sanitize_book_html(numbered.as_str(), false)),
            text: None,
            image_refs: None,
        };
        assert(r.deep_view() =~= md_chapter(self.deep_view(), 0)->Ok_0);
        Ok(r)
    }

    /// A Markdown text has no resources.
    pub fn load_resource_bytes(&self, path: &str) -> (r: AppResult<(String, Vec<u8>)>)
        ensures
            r matches Err(e) && e@ == Failure::ResourceNotFound("Markdown 无内嵌资源"@),
    {
        Err(AppError::ResourceNotFound("Markdown 无内嵌资源".to_owned()))
    }
}

} // verus!
