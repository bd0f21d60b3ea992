//! What the headings of a Markdown text are and how they stand in one another.
use vstd::prelude::*;
use crate::model::Toc;
use crate::parser::markdown::{
    behind, closed_one, closed_to, fence_after, heading_of, headings_from, md_entry, md_toc,
    nested, plain_from, plain_title, run_of, Heading, Nesting,
};
use crate::text::{char_from, starts, trimmed, trimmed_start};
use crate::trimming::{is_trim, only_white_space_around_goes};

verus! {

// ---------------------------------------------------------------------------
// Depths
// ---------------------------------------------------------------------------

/// How deep the entries of a table stand, each before those that stand in it.
pub open spec fn depths(t: Seq<Toc>, d: int) -> Seq<int>
    decreases t,
{
    if t.len() == 0 {
        Seq::empty()
    } else {
        depths(t.drop_last(), d) + (seq![d] + depths(t.last().children, d + 1))
    }
}

proof fn depths_push(t: Seq<Toc>, x: Toc, d: int)
    ensures
        depths(t.push(x), d) == depths(t, d) + (seq![d] + depths(x.children, d + 1)),
{
    assert(t.push(x).drop_last() =~= t);
}

spec fn open_depths(open: Seq<Toc>) -> Seq<int>
    decreases open.len(),
{
    if open.len() == 0 {
        Seq::empty()
    } else {
        open_depths(open.drop_last()) + (seq![open.len() - 1] + depths(
            open.last().children,
            open.len() as int,
        ))
    }
}

spec fn all_depths(n: Nesting) -> Seq<int> {
    depths(n.roots, 0) + open_depths(n.open)
}

/// A heading is the last before another of a higher rank.
pub open spec fn is_above(hs: Seq<Heading>, j: int, i: int) -> bool {
    &&& 0 <= j < i < hs.len()
    &&& hs[j].level < hs[i].level
    &&& forall|k: int| j < k < i ==> (#[trigger] hs[k]).level >= hs[i].level
}

/// No heading before another is of a higher rank.
pub open spec fn none_above(hs: Seq<Heading>, i: int) -> bool {
    &&& 0 <= i < hs.len()
    &&& forall|k: int| 0 <= k < i ==> (#[trigger] hs[k]).level >= hs[i].level
}

/// Each heading stands one deeper than the last before it of a higher rank, and at the top where there is
/// none.
pub open spec fn stand_by_rank(hs: Seq<Heading>, deep: Seq<int>) -> bool {
    &&& forall|i: int, j: int|
        i < deep.len() && #[trigger] is_above(hs, j, i) ==> deep[i] == deep[j] + 1
    &&& forall|i: int| i < deep.len() && #[trigger] none_above(hs, i) ==> deep[i] == 0
}

spec fn stacked(hs: Seq<Heading>, levels: Seq<u8>, deep: Seq<int>, at: Seq<int>) -> bool {
    &&& at.len() == levels.len()
    &&& deep.len() <= hs.len()
    &&& deep.len() > 0 ==> at.len() > 0 && at.last() == deep.len() - 1
    &&& forall|j: int|
        0 <= j < at.len() ==> 0 <= #[trigger] at[j] < deep.len() && hs[at[j]].level == levels[j]
            && deep[at[j]] == j
    &&& forall|i: int, j: int|
        #![trigger levels[i], levels[j]]
        0 <= i < j < levels.len() ==> levels[i] < levels[j]
    &&& forall|i: int|
        0 <= i < deep.len() && levels.len() > 0 ==> (#[trigger] hs[i]).level >= levels[0]
    &&& forall|i: int, j: int|
        #![trigger hs[i], at[j]]
        0 <= j < levels.len() - 1 && at[j] < i < deep.len() ==> hs[i].level >= levels[j + 1]
}

#[verifier::rlimit(40)]
proof fn closing_keeps_depths(n: Nesting, level: u8)
    requires
        n.levels.len() == n.open.len(),
    ensures
        ({
            let m = closed_to(n, level);
            &&& all_depths(m) == all_depths(n)
            &&& m.levels.len() == m.open.len() <= n.open.len()
            &&& m.levels == n.levels.take(m.levels.len() as int)
            &&& m.levels.len() > 0 ==> m.levels.last() < level
            &&& m.levels.len() < n.levels.len() ==> n.levels[m.levels.len() as int] >= level
        }),
    decreases n.open.len(),
{
    if n.open.len() > 0 && n.levels.last() >= level {
        let m = closed_one(n);
        let rest = n.open.drop_last();
        let done = n.open.last();
        let own = depths(done.children, n.open.len() as int);
        if rest.len() > 0 {
            let up = rest.last();
            let grown = Toc { children: up.children.push(done), ..up };
            let r = rest.len() as int;
            depths_push(up.children, done, r);
            let front = rest.drop_last();
            assert(front.push(grown).drop_last() =~= front);
            assert(open_depths(rest) == open_depths(front) + (seq![r - 1] + depths(up.children, r)));
            assert(open_depths(n.open) == open_depths(rest) + (seq![r] + own));
            assert(open_depths(m.open) == open_depths(front) + (seq![r - 1] + (depths(up.children, r) + (
            seq![r] + own))));
            assert(open_depths(n.open) =~= open_depths(m.open));
        } else {
            depths_push(n.roots, done, 0);
            assert(open_depths(rest) =~= Seq::empty());
            assert(open_depths(n.open) =~= seq![0int] + own);
            assert(open_depths(m.open) =~= Seq::empty());
            assert(all_depths(m) =~= all_depths(n));
        }
        closing_keeps_depths(m, level);
        let l = closed_to(m, level).levels;
        assert(m.levels.take(l.len() as int) =~= n.levels.take(l.len() as int));
    } else {
        assert(n.levels.take(n.levels.len() as int) =~= n.levels);
    }
}

proof fn what_is_closed_is_no_higher(hs: Seq<Heading>, levels: Seq<u8>, deep: Seq<int>, at: Seq<int>, m: int)
    requires
        stacked(hs, levels, deep, at),
        deep.len() < hs.len(),
        0 <= m <= levels.len(),
        m > 0 ==> levels[m - 1] < hs[deep.len() as int].level,
        m < levels.len() ==> levels[m] >= hs[deep.len() as int].level,
    ensures
        forall|i: int|
            0 <= i < deep.len() && (m == 0 || at[m - 1] < i) ==> (#[trigger] hs[i]).level >= hs[deep.len() as int].level,
{
    let level = hs[deep.len() as int].level;
    assert forall|i: int| 0 <= i < deep.len() && (m == 0 || at[m - 1] < i) implies (#[trigger] hs[i]).level
        >= level by {
        if m < levels.len() {
            assert(hs[i].level >= levels[m]);
        } else if m > 0 {
            assert(at[m - 1] == at.last());
        }
    }
}

#[verifier::rlimit(40)]
proof fn a_heading_stands_by_rank(hs: Seq<Heading>, levels: Seq<u8>, deep: Seq<int>, at: Seq<int>, m: int)
    requires
        stacked(hs, levels, deep, at),
        deep.len() < hs.len(),
        0 <= m <= levels.len(),
        m > 0 ==> levels[m - 1] < hs[deep.len() as int].level,
        m < levels.len() ==> levels[m] >= hs[deep.len() as int].level,
        stand_by_rank(hs, deep),
    ensures
        stand_by_rank(hs, deep.push(m)),
{
    what_is_closed_is_no_higher(hs, levels, deep, at, m);
    let k = deep.len() as int;
    let level = hs[k].level;
    let now = deep.push(m);
    assert forall|i: int, j: int| i < now.len() && #[trigger] is_above(hs, j, i) implies now[i] == now[j]
        + 1 by {
        if i == k {
            if m == 0 {
                assert(hs[j].level >= level);
            } else {
                let top = at[m - 1];
                if j < top {
                    assert(hs[top].level >= level);
                } else if j > top {
                    assert(hs[j].level >= level);
                }
            }
        } else {
            assert(deep[i] == deep[j] + 1);
        }
    }
    assert forall|i: int| i < now.len() && #[trigger] none_above(hs, i) implies now[i] == 0 by {
        if i == k {
            if m > 0 {
                assert(hs[at[m - 1]].level >= level);
            }
        } else {
            assert(deep[i] == 0);
        }
    }
}

#[verifier::rlimit(40)]
proof fn a_heading_is_stacked(hs: Seq<Heading>, levels: Seq<u8>, deep: Seq<int>, at: Seq<int>, m: int)
    requires
        stacked(hs, levels, deep, at),
        deep.len() < hs.len(),
        0 <= m <= levels.len(),
        m > 0 ==> levels[m - 1] < hs[deep.len() as int].level,
        m < levels.len() ==> levels[m] >= hs[deep.len() as int].level,
    ensures
        stacked(
            hs,
            levels.take(m).push(hs[deep.len() as int].level),
            deep.push(m),
            at.take(m).push(deep.len() as int),
        ),
{
    what_is_closed_is_no_higher(hs, levels, deep, at, m);
    let k = deep.len() as int;
    let level = hs[k].level;
    let now = deep.push(m);
    let ls = levels.take(m).push(level);
    let ats = at.take(m).push(k);
    assert(forall|j: int| 0 <= j < m ==> #[trigger] ls[j] == levels[j] && ats[j] == at[j]);
    assert forall|j: int| 0 <= j < ats.len() implies 0 <= #[trigger] ats[j] < now.len()
        && hs[ats[j]].level == ls[j] && now[ats[j]] == j by {
        if j < m {
            assert(ls[j] == levels[j] && ats[j] == at[j]);
            assert(now[at[j]] == deep[at[j]]);
        }
    }
    assert forall|i: int, j: int|
        #![trigger ls[i], ls[j]]
        0 <= i < j < ls.len() implies ls[i] < ls[j] by {
        if j >= m && i < m - 1 {
            assert(levels[i] < levels[m - 1]);
        }
    }
    assert forall|i: int| 0 <= i < now.len() implies (#[trigger] hs[i]).level >= ls[0] by {
        if m > 0 {
            assert(ls[0] == levels[0]);
            if i == k && m > 1 {
                assert(levels[0] < levels[m - 1]);
            }
        }
    }
    assert forall|i: int, j: int|
        #![trigger hs[i], ats[j]]
        0 <= j < ls.len() - 1 && ats[j] < i < now.len() implies hs[i].level >= ls[j + 1] by {
        assert(ats[j] == at[j]);
        if j + 1 < m {
            assert(ls[j + 1] == levels[j + 1]);
            if i == k && j + 1 < m - 1 {
                assert(levels[j + 1] < levels[m - 1]);
            }
        }
    }
    assert(ats.last() == now.len() - 1);
}

#[verifier::rlimit(40)]
proof fn nesting_keeps_depths(hs: Seq<Heading>, k: int) -> (r: Seq<int>)
    requires
        0 <= k <= hs.len(),
    ensures
        nested(hs, k).levels.len() == nested(hs, k).open.len(),
        all_depths(nested(hs, k)).len() == k,
        stand_by_rank(hs, all_depths(nested(hs, k))),
        stacked(hs, nested(hs, k).levels, all_depths(nested(hs, k)), r),
    decreases k,
{
    if k == 0 {
        let none = Seq::<int>::empty();
        assert(all_depths(nested(hs, 0)) =~= none);
        none
    } else {
        let before = nesting_keeps_depths(hs, k - 1);
        let level = hs[k - 1].level;
        let n0 = nested(hs, k - 1);
        closing_keeps_depths(n0, level);
        let n = closed_to(n0, level);
        let e = md_entry(hs[k - 1], k - 1);
        let m = nested(hs, k);
        let d = n.open.len() as int;
        assert(n.open.push(e).drop_last() =~= n.open);
        assert(depths(e.children, d + 1) =~= Seq::empty());
        assert(all_depths(m) =~= all_depths(n).push(d));
        if d > 0 {
            assert(n.levels.last() == n0.levels[d - 1]);
        }
        a_heading_stands_by_rank(hs, n0.levels, all_depths(n0), before, d);
        a_heading_is_stacked(hs, n0.levels, all_depths(n0), before, d);
        before.take(d).push(k - 1)
    }
}

proof fn everything_is_closed(n: Nesting)
    requires
        n.levels.len() == n.open.len(),
    ensures
        closed_to(n, 0).open.len() == 0,
    decreases n.open.len(),
{
    if n.open.len() > 0 {
        everything_is_closed(closed_one(n));
    }
}

/// In the table of contents each heading stands in the last before it of a higher rank: a heading of the
/// same rank ends what stood in the one before.
pub proof fn headings_stand_by_their_rank(hs: Seq<Heading>)
    ensures
        depths(md_toc(hs), 0).len() == hs.len(),
        stand_by_rank(hs, depths(md_toc(hs), 0)),
{
    let _ = nesting_keeps_depths(hs, hs.len() as int);
    let n = nested(hs, hs.len() as int);
    closing_keeps_depths(n, 0);
    everything_is_closed(n);
    let m = closed_to(n, 0);
    assert(open_depths(m.open) =~= Seq::empty());
    assert(all_depths(m) =~= depths(md_toc(hs), 0));
}


// ---------------------------------------------------------------------------
// Titles
// ---------------------------------------------------------------------------

/// A piece of a title: characters that mean nothing else, a mark of emphasis or code, a link with its words
/// and where it leads, or an image with its words and where it lies.
pub enum TitlePiece {
    Plain(Seq<char>),
    Mark(char),
    Link(Seq<char>, Seq<char>),
    Image(Seq<char>, Seq<char>),
}

/// A character that means something in a title.
pub open spec fn has_meaning(c: char) -> bool {
    c == '*' || c == '_' || c == '`' || c == '~' || c == '\\' || c == '['
}

/// A piece is what it says.
pub open spec fn piece_ok(p: TitlePiece) -> bool {
    match p {
        TitlePiece::Plain(t) => {
            &&& forall|i: int| 0 <= i < t.len() ==> !has_meaning(#[trigger] t[i])
            &&& t.len() > 0 ==> t.last() != '!'
        },
        TitlePiece::Mark(c) => c == '*' || c == '_' || c == '`' || c == '~' || c == '\\',
        TitlePiece::Link(words, to) => !words.contains(']') && !to.contains(')'),
        TitlePiece::Image(words, to) => !words.contains(')') && !to.contains(')'),
    }
}

/// How a piece is written.
pub open spec fn piece_text(p: TitlePiece) -> Seq<char> {
    match p {
        TitlePiece::Plain(t) => t,
        TitlePiece::Mark(c) => seq![c],
        TitlePiece::Link(words, to) => seq!['['] + words + seq![']', '('] + to + seq![')'],
        TitlePiece::Image(words, to) => seq!['!', '['] + words + seq![']', '('] + to + seq![')'],
    }
}

/// What a piece shows.
pub open spec fn piece_shown(p: TitlePiece) -> Seq<char> {
    match p {
        TitlePiece::Plain(t) => t,
        TitlePiece::Link(words, _) => words,
        _ => Seq::empty(),
    }
}

/// How pieces are written one after another.
pub open spec fn title_text(ps: Seq<TitlePiece>) -> Seq<char>
    decreases ps.len(),
{
    if ps.len() == 0 {
        Seq::empty()
    } else {
        piece_text(ps[0]) + title_text(ps.skip(1))
    }
}

/// What pieces show one after another.
pub open spec fn title_shown(ps: Seq<TitlePiece>) -> Seq<char>
    decreases ps.len(),
{
    if ps.len() == 0 {
        Seq::empty()
    } else {
        piece_shown(ps[0]) + title_shown(ps.skip(1))
    }
}

proof fn found_there(s: Seq<char>, c: char, from: int, k: int)
    requires
        0 <= from <= k < s.len(),
        s[k] == c,
        forall|j: int| from <= j < k ==> s[j] != c,
    ensures
        char_from(s, c, from) == Some(k),
        behind(s, c, from) == k + 1,
    decreases k - from,
{
    if from < k {
        found_there(s, c, from + 1, k);
    }
}

proof fn plain_goes_on(front: Seq<char>, t: Seq<char>, rest: Seq<char>, i: int)
    requires
        piece_ok(TitlePiece::Plain(t)),
        0 <= i <= t.len(),
    ensures
        plain_from(front + t + rest, front.len() + i) == t.skip(i) + plain_from(
            front + t + rest,
            (front.len() + t.len()) as int,
        ),
    decreases t.len() - i,
{
    let s = front + t + rest;
    if i < t.len() {
        plain_goes_on(front, t, rest, i + 1);
        assert(s[front.len() + i] == t[i]);
        assert(!has_meaning(t[i]));
        if t[i] == '!' {
            assert(i + 1 < t.len());
            assert(s[front.len() + i + 1] == t[i + 1]);
            assert(!has_meaning(t[i + 1]));
        }
        assert(seq![t[i]] + (t.skip(i + 1) + plain_from(s, (front.len() + t.len()) as int)) =~= t.skip(i)
            + plain_from(s, (front.len() + t.len()) as int));
    } else {
        assert(t.skip(i) =~= Seq::empty());
        assert(Seq::<char>::empty() + plain_from(s, (front.len() + t.len()) as int) =~= plain_from(
            s,
            (front.len() + t.len()) as int,
        ));
    }
}

#[verifier::rlimit(40)]
proof fn a_piece_is_shown(front: Seq<char>, p: TitlePiece, rest: Seq<char>)
    requires
        piece_ok(p),
    ensures
        plain_from(front + piece_text(p) + rest, front.len() as int) == piece_shown(p) + plain_from(
            front + piece_text(p) + rest,
            (front.len() + piece_text(p).len()) as int,
        ),
{
    let t = piece_text(p);
    let s = front + t + rest;
    let at = front.len() as int;
    assert(forall|k: int| 0 <= k < t.len() ==> #[trigger] s[at + k] == t[k]);
    match p {
        TitlePiece::Plain(_) => {
            plain_goes_on(front, t, rest, 0);
            assert(t.skip(0) =~= t);
        },
        TitlePiece::Mark(c) => {
            assert(s[at + 0] == c);
            assert(Seq::<char>::empty() + plain_from(s, at + 1) =~= plain_from(s, at + 1));
        },
        TitlePiece::Link(words, to) => {
            let close = at + 1 + words.len();
            let end = close + 2 + to.len();
            assert(s[at + 0] == '[');
            assert(s[at + (1 + words.len())] == ']');
            assert(s[at + (2 + words.len())] == '(');
            assert(s[at + (3 + words.len() + to.len())] == ')');
            assert forall|j: int| at + 1 <= j < close implies s[j] != ']' by {
                assert(s[j] == t[j - at] && t[j - at] == words[j - at - 1]);
                assert(words.contains(words[j - at - 1]));
            }
            found_there(s, ']', at + 1, close);
            assert forall|j: int| close + 1 <= j < end implies s[j] != ')' by {
                assert(s[j] == t[j - at]);
                if j > close + 1 {
                    assert(t[j - at] == to[j - close - 2]);
                    assert(to.contains(to[j - close - 2]));
                }
            }
            found_there(s, ')', close + 1, end);
            assert(s.subrange(at + 1, close) =~= words);
        },
        TitlePiece::Image(words, to) => {
            let end = at + 4 + words.len() + to.len();
            assert(s[at + 0] == '!');
            assert(s[at + 1] == '[');
            assert(s[at + (4 + words.len() + to.len())] == ')');
            assert forall|j: int| at + 2 <= j < end implies s[j] != ')' by {
                assert(s[j] == t[j - at]);
                if j < at + 2 + words.len() {
                    assert(t[j - at] == words[j - at - 2]);
                    assert(words.contains(words[j - at - 2]));
                } else if j >= at + 4 + words.len() {
                    assert(t[j - at] == to[j - at - 4 - words.len()]);
                    assert(to.contains(to[j - at - 4 - words.len()]));
                }
            }
            found_there(s, ')', at + 2, end);
            assert(Seq::<char>::empty() + plain_from(s, end + 1) =~= plain_from(s, end + 1));
        },
    }
}

proof fn pieces_are_shown(front: Seq<char>, ps: Seq<TitlePiece>)
    requires
        forall|i: int| 0 <= i < ps.len() ==> piece_ok(#[trigger] ps[i]),
    ensures
        plain_from(front + title_text(ps), front.len() as int) == title_shown(ps),
    decreases ps.len(),
{
    if ps.len() > 0 {
        let t = piece_text(ps[0]);
        let rest = title_text(ps.skip(1));
        a_piece_is_shown(front, ps[0], rest);
        assert(front + (t + rest) =~= front + t + rest);
        assert forall|i: int| 0 <= i < ps.skip(1).len() implies piece_ok(#[trigger] ps.skip(1)[i]) by {
            assert(ps.skip(1)[i] == ps[i + 1]);
        }
        pieces_are_shown(front + t, ps.skip(1));
    }
}

/// A title shows its characters without the marks of emphasis and code, of a link its words, and of an image
/// nothing.
pub proof fn a_title_shows_its_words(ps: Seq<TitlePiece>)
    requires
        forall|i: int| 0 <= i < ps.len() ==> piece_ok(#[trigger] ps[i]),
    ensures
        plain_title(title_text(ps)) == trimmed(title_shown(ps)),
{
    pieces_are_shown(Seq::empty(), ps);
    assert(Seq::<char>::empty() + title_text(ps) =~= title_text(ps));
}

// ---------------------------------------------------------------------------
// Headings
// ---------------------------------------------------------------------------

/// Number signs.
pub open spec fn signs(n: nat) -> Seq<char> {
    Seq::new(n, |i: int| '#')
}

proof fn signs_run(n: nat, rest: Seq<char>, i: int)
    requires
        0 <= i <= n,
        rest.len() > 0 ==> rest[0] != '#',
    ensures
        run_of(signs(n) + rest, '#', i) == n,
    decreases n - i,
{
    let t = signs(n) + rest;
    if i < n {
        assert(t[i] == '#');
        signs_run(n, rest, i + 1);
    } else if rest.len() > 0 {
        assert(t[i] == rest[0]);
    }
}

/// One to six number signs and a blank before a title make a heading of that rank; more than six make none,
/// nor do signs with no blank behind them.
pub proof fn a_heading_is_known_by_its_signs(n: nat, blank: char, title: Seq<char>)
    requires
        blank == ' ' || blank == '\t',
        is_trim(title),
    ensures
        1 <= n <= 6 ==> (heading_of(signs(n) + (seq![blank] + title)) matches Some(h) && h.level == n && (
        plain_title(title).len() > 0 ==> h.title == plain_title(title))),
        n == 0 || n > 6 ==> heading_of(signs(n) + (seq![blank] + title)) is None,
        title.len() > 0 && title[0] != '#' ==> heading_of(signs(n) + title) is None,
{
    let rest = seq![blank] + title;
    let t = signs(n) + rest;
    signs_run(n, rest, 0);
    if 1 <= n <= 6 {
        assert(t[n as int] == blank);
        assert(t.skip(n as int) =~= seq![blank] + title + Seq::empty());
        only_white_space_around_goes(seq![blank], title, Seq::empty());
    }
    if title.len() > 0 && title[0] != '#' {
        signs_run(n, title, 0);
        assert((signs(n) + title)[n as int] == title[0]);
    }
}

proof fn headings_are_put_behind(
    rows: Seq<Seq<char>>,
    i: int,
    fence: Option<char>,
    done: Seq<Heading>,
)
    requires
        0 <= i <= rows.len(),
    ensures
        headings_from(rows, i, fence, done) == done + headings_from(rows, i, fence, Seq::empty()),
    decreases rows.len() - i,
{
    let none = Seq::<Heading>::empty();
    if i < rows.len() {
        let t = trimmed_start(rows[i]);
        let next = fence_after(fence, t);
        headings_are_put_behind(rows, i + 1, next, done);
        if heading_of(t) is Some {
            let h = heading_of(t).unwrap();
            headings_are_put_behind(rows, i + 1, next, done.push(h));
            headings_are_put_behind(rows, i + 1, next, none.push(h));
            assert(done.push(h) + headings_from(rows, i + 1, next, none) =~= done + (none.push(h)
                + headings_from(rows, i + 1, next, none)));
        }
    }
    assert(done + none =~= done);
}

proof fn nothing_within(rows: Seq<Seq<char>>, i: int, end: int, c: char)
    requires
        0 <= i <= end < rows.len(),
        forall|k: int| i <= k < end ==> goes_on(#[trigger] rows[k], c),
        closes(rows[end], c),
    ensures
        headings_from(rows, i, Some(c), Seq::empty()) == headings_from(rows, end + 1, None, Seq::empty()),
    decreases end - i,
{
    let t = trimmed_start(rows[i]);
    if i < end {
        assert(goes_on(rows[i], c));
        if t.len() > 0 {
            let k = choose|k: int| 0 <= k < t.len() && t[k] != c;
            stops_before(t, c, 0, k);
        }
        nothing_within(rows, i + 1, end, c);
    } else {
        runs_through(t, c, 0);
    }
}

proof fn stops_before(t: Seq<char>, c: char, i: int, k: int)
    requires
        0 <= i <= k < t.len(),
        t[k] != c,
    ensures
        run_of(t, c, i) <= k,
    decreases k - i,
{
    if i < k && t[i] == c {
        stops_before(t, c, i + 1, k);
    }
}

proof fn runs_through(t: Seq<char>, c: char, i: int)
    requires
        0 <= i <= t.len(),
        forall|k: int| 0 <= k < t.len() ==> t[k] == c,
    ensures
        run_of(t, c, i) == t.len(),
    decreases t.len() - i,
{
    if i < t.len() {
        runs_through(t, c, i + 1);
    }
}

/// A line does not end the code it stands in: it is empty or has another character.
pub open spec fn goes_on(row: Seq<char>, c: char) -> bool {
    trimmed_start(row).len() > 0 ==> exists|k: int|
        0 <= k < trimmed_start(row).len() && trimmed_start(row)[k] != c
}

/// A line ends the code it stands in: it is of one character alone.
pub open spec fn closes(row: Seq<char>, c: char) -> bool {
    trimmed_start(row).len() > 0 && forall|k: int|
        0 <= k < trimmed_start(row).len() ==> trimmed_start(row)[k] == c
}

/// What stands in code is no heading: the lines from three backticks or tildes up to a line of the same alone
/// count for nothing, and the headings go on behind it.
pub proof fn code_holds_no_heading(rows: Seq<Seq<char>>, start: int, end: int, c: char, done: Seq<Heading>)
    requires
        0 <= start < end < rows.len(),
        c == '`' && starts(trimmed_start(rows[start]), "```"@) || c == '~' && starts(
            trimmed_start(rows[start]),
            "~~~"@,
        ),
        forall|k: int| start < k < end ==> goes_on(#[trigger] rows[k], c),
        closes(rows[end], c),
    ensures
        headings_from(rows, start, None, done) == headings_from(rows, end + 1, None, done),
{
    reveal_strlit("```");
    reveal_strlit("~~~");
    let t = trimmed_start(rows[start]);
    assert(t[0] == c) by {
        if c == '`' {
            assert(t.subrange(0, 3)[0] == "```"@[0]);
        } else {
            assert(t.subrange(0, 3)[0] == "~~~"@[0]);
        }
    }
    if c == '~' && starts(t, "```"@) {
        assert(t.subrange(0, 3)[0] == "```"@[0]);
    }
    assert(fence_after(None, t) == Some(c));
    headings_are_put_behind(rows, start + 1, Some(c), done);
    nothing_within(rows, start + 1, end, c);
    headings_are_put_behind(rows, end + 1, None, done);
}

/// A line outside code is a heading if it looks like one, whatever stands around it.
pub proof fn a_line_that_looks_like_a_heading_is_one(
    rows: Seq<Seq<char>>,
    i: int,
    n: nat,
    title: Seq<char>,
    done: Seq<Heading>,
)
    requires
        0 <= i < rows.len(),
        1 <= n <= 6,
        is_trim(title),
        plain_title(title).len() > 0,
        trimmed_start(rows[i]) == signs(n) + (seq![' '] + title),
    ensures
        headings_from(rows, i, None, done) == headings_from(
            rows,
            i + 1,
            None,
            done.push(Heading { level: n as u8, title: plain_title(title) }),
        ),
{
    let t = trimmed_start(rows[i]);
    a_heading_is_known_by_its_signs(n, ' ', title);
    assert(t[0] == '#');
    reveal_strlit("```");
    reveal_strlit("~~~");
    if starts(t, "```"@) {
        assert(t.subrange(0, 3)[0] == "```"@[0]);
    }
    if starts(t, "~~~"@) {
        assert(t.subrange(0, 3)[0] == "~~~"@[0]);
    }
}

} // verus!
