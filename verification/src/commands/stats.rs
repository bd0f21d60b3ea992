//! Reading time: recording it, forgetting it, and the summary of it.
use vstd::prelude::*;
use crate::keyed::{
    add_time, added, added_sum, deep_update, find_key, place_of, place_of_is_first, put, sum, sum_bounds,
    under,
};
use crate::model::{Day, DayStat, Session, SessionEntry, Stats, StatsFile};
use crate::text::{chars_of, same, trim, trimmed};
use crate::views::{deep_empty, deep_push, deep_seq, deep_seq_of, deep_seq_step};

verus! {

// ---------------------------------------------------------------------------
// Recording
// ---------------------------------------------------------------------------

/// A day on which nothing was read yet.
pub open spec fn blank_day(date: Seq<char>) -> Day {
    Day { date, total_seconds: 0, per_book: Seq::empty(), sessions: Seq::empty() }
}

/// The day under a date; a blank one where there is none.
pub open spec fn day_under(days: Seq<(Seq<char>, Day)>, date: Seq<char>) -> Day {
    match place_of(days, date, 0) {
        Some(i) => days[i].1,
        None => blank_day(date),
    }
}

/// The titles with that of a book put in, where it has one that is not blank.
pub open spec fn titled(
    titles: Seq<(Seq<char>, Seq<char>)>,
    id: Seq<char>,
    title: Option<Seq<char>>,
) -> Seq<(Seq<char>, Seq<char>)> {
    match title {
        Some(t) => if trimmed(t).len() > 0 {
            put(titles, id, t)
        } else {
            titles
        },
        None => titles,
    }
}

/// The statistics with seconds of reading in a book added to a date.
pub open spec fn reading_added(
    s: Stats,
    id: Seq<char>,
    date: Seq<char>,
    seconds: u64,
    title: Option<Seq<char>>,
) -> Stats {
    let day = day_under(s.days, date);
    Stats {
        days: put(
            s.days,
            date,
            Day {
                total_seconds: (day.total_seconds + seconds) as u64,
                per_book: added(day.per_book, id, seconds as int),
                ..day
            },
        ),
        book_titles: titled(s.book_titles, id, title),
    }
}

/// The statistics with a stretch of reading put behind those of a date.
pub open spec fn session_added(
    s: Stats,
    date: Seq<char>,
    session: Session,
    title: Option<Seq<char>>,
) -> Stats {
    let day = day_under(s.days, date);
    Stats {
        days: put(s.days, date, Day { sessions: day.sessions.push(session), ..day }),
        book_titles: titled(s.book_titles, session.book_id, title),
    }
}

/// The seconds of a date, of a book on it, and the seconds to be added fit sixty-four bits.
pub open spec fn has_room(s: Stats, id: Seq<char>, date: Seq<char>, seconds: u64) -> bool {
    let day = day_under(s.days, date);
    day.total_seconds + seconds <= u64::MAX && under(day.per_book, id) + seconds <= u64::MAX
}

/// The optional text of an optional slice.
pub open spec fn maybe(t: Option<&str>) -> Option<Seq<char>> {
    match t {
        Some(s) => Some(s@),
        None => None,
    }
}

fn put_title(titles: &mut Vec<(String, String)>, id: &str, title: Option<&str>)
    ensures
        final(titles).deep_view() == titled(old(titles).deep_view(), id@, maybe(title)),
{
    if let Some(t) = title {
        let cs = chars_of(t);
        if trim(&cs).len() > 0 {
            let ghost before = *titles;
            let item = (id.to_owned(), t.to_owned());
            match find_key(titles, id) {
                Some(i) => {
                    titles.set(i, item);
                    proof {
                        deep_update(before, i as int, item, *titles);
                    }
                },
                None => {
                    titles.push(item);
                    proof {
                        deep_push(before, item, *titles);
                    }
                },
            }
        }
    }
}

/// Takes the day under a date out of the list, leaving a blank one in its place; a blank day is
/// put behind the list first where there is none.
fn take_day(days: &mut Vec<(String, DayStat)>, date: &str) -> (r: (usize, DayStat))
    ensures
        r.1.deep_view() == day_under(old(days).deep_view(), date@),
        r.0 < final(days)@.len(),
        forall|d: DayStat|
            #![trigger d.deep_view()]
            final(days).deep_view().update(r.0 as int, (date@, d.deep_view())) == put(
                old(days).deep_view(),
                date@,
                d.deep_view(),
            ),
{
    let ghost before = *days;
    let blank = DayStat {
        date: date.to_owned(),
        total_seconds: 0,
        per_book: Vec::new(),
        sessions: Vec::new(),
    };
    proof {
        deep_empty(blank.per_book);
        deep_empty(blank.sessions);
        assert(blank.deep_view() =~= blank_day(date@));
    }
    match find_key(days, date) {
        Some(i) => {
            let mut spare = (date.to_owned(), blank);
            assert(before.deep_view()[i as int] == before@[i as int].deep_view());
            let ghost placed = spare;
            std::mem::swap(&mut days[i], &mut spare);
            proof {
                deep_update(before, i as int, placed, *days);
                assert forall|d: DayStat| #![trigger d.deep_view()]
                    days.deep_view().update(i as int, (date@, d.deep_view())) == put(
                        before.deep_view(),
                        date@,
                        d.deep_view(),
                    ) by {
                    assert(days.deep_view().update(i as int, (date@, d.deep_view()))
                        =~= before.deep_view().update(i as int, (date@, d.deep_view())));
                }
            }
            (i, spare.1)
        },
        None => {
            let i = days.len();
            let filler = (
                date.to_owned(),
                DayStat {
                    date: date.to_owned(),
                    total_seconds: 0,
                    per_book: Vec::new(),
                    sessions: Vec::new(),
                },
            );
            days.push(filler);
            proof {
                deep_push(before, filler, *days);
                assert forall|d: DayStat| #![trigger d.deep_view()]
                    days.deep_view().update(i as int, (date@, d.deep_view())) == put(
                        before.deep_view(),
                        date@,
                        d.deep_view(),
                    ) by {
                    assert(days.deep_view().update(i as int, (date@, d.deep_view()))
                        =~= before.deep_view().push((date@, d.deep_view())));
                }
            }
            (i, blank)
        },
    }
}

/// Adds seconds of reading in a book to a date.
pub fn record_reading(
    stats: &mut StatsFile,
    book_id: &str,
    date: &str,
    seconds: u64,
    title: Option<&str>,
)
    requires
        has_room(old(stats).deep_view(), book_id@, date@, seconds),
    ensures
        final(stats).deep_view() == reading_added(
            old(stats).deep_view(),
            book_id@,
            date@,
            seconds,
            maybe(title),
        ),
{
    let ghost before = stats.deep_view();
    let (i, day) = take_day(&mut stats.days, date);
    let ghost emptied = stats.days;
    let DayStat { date: kept, total_seconds, per_book, sessions } = day;
    let mut times = per_book;
    add_time(&mut times, book_id, seconds);
    let next = DayStat { date: kept, total_seconds: total_seconds + seconds, per_book: times, sessions };
    let item = (date.to_owned(), next);
    stats.days.set(i, item);
    proof {
        deep_update(emptied, i as int, item, stats.days);
        assert(next.deep_view() =~= (Day {
            total_seconds: (day_under(before.days, date@).total_seconds + seconds) as u64,
            per_book: added(day_under(before.days, date@).per_book, book_id@, seconds as int),
            ..day_under(before.days, date@)
        }));
    }
    put_title(&mut stats.book_titles, book_id, title);
}

/// Puts a stretch of reading behind those of a date.
pub fn record_session(
    stats: &mut StatsFile,
    date: &str,
    session: SessionEntry,
    title: Option<&str>,
)
    ensures
        final(stats).deep_view() == session_added(
            old(stats).deep_view(),
            date@,
            session.deep_view(),
            maybe(title),
        ),
{
    let ghost before = stats.deep_view();
    let id = session.book_id.clone();
    let (i, day) = take_day(&mut stats.days, date);
    let ghost emptied = stats.days;
    let DayStat { date: kept, total_seconds, per_book, sessions } = day;
    let ghost had = sessions;
    let mut more = sessions;
    more.push(session);
    proof {
        deep_push(had, session, more);
    }
    let next = DayStat { date: kept, total_seconds, per_book, sessions: more };
    let item = (date.to_owned(), next);
    stats.days.set(i, item);
    proof {
        deep_update(emptied, i as int, item, stats.days);
        assert(next.deep_view() =~= (Day {
            sessions: day_under(before.days, date@).sessions.push(session.deep_view()),
            ..day_under(before.days, date@)
        }));
    }
    put_title(&mut stats.book_titles, id.as_str(), title);
}

/// Whether seconds can be added to a book on a date.
pub fn can_record(stats: &StatsFile, book_id: &str, date: &str, seconds: u64) -> (r: bool)
    ensures
        r == has_room(stats.deep_view(), book_id@, date@, seconds),
{
    match find_key(&stats.days, date) {
        Some(i) => {
            let day = &stats.days[i].1;
            assert(stats.days.deep_view()[i as int] == stats.days@[i as int].deep_view());
            if day.total_seconds > u64::MAX - seconds {
                return false;
            }
            match find_key(&day.per_book, book_id) {
                Some(k) => {
                    assert(day.per_book.deep_view()[k as int] == day.per_book@[k as int].deep_view());
                    day.per_book[k].1 <= u64::MAX - seconds
                },
                None => true,
            }
        },
        None => {
            assert(under(Seq::empty(), book_id@) == 0);
            true
        },
    }
}

// ---------------------------------------------------------------------------
// Forgetting a book
// ---------------------------------------------------------------------------

/// The pairs under any key but one.
pub open spec fn without_key<T>(list: Seq<(Seq<char>, T)>, key: Seq<char>) -> Seq<(Seq<char>, T)>
    decreases list.len(),
{
    if list.len() == 0 {
        list
    } else if list.last().0 == key {
        without_key(list.drop_last(), key)
    } else {
        without_key(list.drop_last(), key).push(list.last())
    }
}

/// The stretches of reading in any book but one.
pub open spec fn sessions_without(list: Seq<Session>, id: Seq<char>) -> Seq<Session>
    decreases list.len(),
{
    if list.len() == 0 {
        list
    } else if list.last().book_id == id {
        sessions_without(list.drop_last(), id)
    } else {
        sessions_without(list.drop_last(), id).push(list.last())
    }
}

/// A day without a book: its stretches and its time go, and the seconds in all are then those of
/// the other books.
pub open spec fn day_without(day: Day, id: Seq<char>) -> Day {
    Day {
        total_seconds: if place_of(day.per_book, id, 0) is Some {
            sum(without_key(day.per_book, id)) as u64
        } else {
            day.total_seconds
        },
        per_book: without_key(day.per_book, id),
        sessions: sessions_without(day.sessions, id),
        ..day
    }
}

/// The days without a book; those on which nothing is left go.
pub open spec fn days_without(days: Seq<(Seq<char>, Day)>, id: Seq<char>) -> Seq<(Seq<char>, Day)>
    decreases days.len(),
{
    if days.len() == 0 {
        days
    } else {
        let rest = days_without(days.drop_last(), id);
        let day = day_without(days.last().1, id);
        if day.per_book.len() == 0 && day.sessions.len() == 0 {
            rest
        } else {
            rest.push((days.last().0, day))
        }
    }
}

/// The statistics without a book.
pub open spec fn forgotten(s: Stats, id: Seq<char>) -> Stats {
    Stats { days: days_without(s.days, id), book_titles: without_key(s.book_titles, id) }
}

/// The statistics say nothing of a book: it has no time, no stretch and no title.
pub open spec fn silent_on(s: Stats, id: Seq<char>) -> bool {
    &&& forall|i: int|
        0 <= i < s.days.len() ==> place_of((#[trigger] s.days[i]).1.per_book, id, 0) is None
    &&& forall|i: int, k: int|
        0 <= i < s.days.len() && 0 <= k < s.days[i].1.sessions.len() ==> (
        #[trigger] s.days[i].1.sessions[k]).book_id != id
    &&& place_of(s.book_titles, id, 0) is None
}

proof fn without_key_has_none<T>(list: Seq<(Seq<char>, T)>, key: Seq<char>)
    ensures
        forall|k: int|
            0 <= k < without_key(list, key).len() ==> (#[trigger] without_key(list, key)[k]).0
                != key,
        place_of(without_key(list, key), key, 0) is None,
    decreases list.len(),
{
    if list.len() > 0 {
        without_key_has_none(list.drop_last(), key);
    }
    place_of_is_first(without_key(list, key), key, 0);
}

proof fn sessions_without_has_none(list: Seq<Session>, id: Seq<char>)
    ensures
        forall|k: int|
            0 <= k < sessions_without(list, id).len() ==> (#[trigger] sessions_without(
                list,
                id,
            )[k]).book_id != id,
    decreases list.len(),
{
    if list.len() > 0 {
        sessions_without_has_none(list.drop_last(), id);
    }
}

proof fn days_without_silent(days: Seq<(Seq<char>, Day)>, id: Seq<char>)
    ensures
        forall|i: int|
            0 <= i < days_without(days, id).len() ==> place_of(
                (#[trigger] days_without(days, id)[i]).1.per_book,
                id,
                0,
            ) is None,
        forall|i: int, k: int|
            0 <= i < days_without(days, id).len() && 0 <= k < days_without(
                days,
                id,
            )[i].1.sessions.len() ==> (#[trigger] days_without(days, id)[i].1.sessions[k]).book_id
                != id,
    decreases days.len(),
{
    if days.len() > 0 {
        days_without_silent(days.drop_last(), id);
        without_key_has_none(days.last().1.per_book, id);
        sessions_without_has_none(days.last().1.sessions, id);
        let rest = days_without(days.drop_last(), id);
        let all = days_without(days, id);
        assert forall|i: int| 0 <= i < all.len() implies place_of(
            (#[trigger] all[i]).1.per_book,
            id,
            0,
        ) is None by {
            if i < rest.len() {
                assert(all[i] == rest[i]);
            }
        }
        assert forall|i: int, k: int|
            0 <= i < all.len() && 0 <= k < all[i].1.sessions.len() implies (
        #[trigger] all[i].1.sessions[k]).book_id != id by {
            if i < rest.len() {
                assert(all[i] == rest[i]);
                assert(rest[i].1.sessions[k].book_id != id);
            }
        }
    }
}

/// A book that is forgotten has left no trace in the statistics.
pub proof fn forgetting_leaves_no_trace(s: Stats, id: Seq<char>)
    ensures
        silent_on(forgotten(s, id), id),
{
    days_without_silent(s.days, id);
    without_key_has_none(s.book_titles, id);
}

fn drop_key<T: DeepView>(list: Vec<(String, T)>, key: &str) -> (r: Vec<(String, T)>)
    ensures
        r.deep_view() == without_key(list.deep_view(), key@),
{
    let k = chars_of(key);
    let mut out: Vec<(String, T)> = Vec::new();
    proof {
        deep_empty(out);
        deep_seq_of(list);
    }
    let ghost all = list@;
    for p in it: list
        invariant
            k@ == key@,
            it.seq() == all,
            out.deep_view() == without_key(deep_seq(all.take(it.index() as int)), key@),
    {
        proof {
            deep_seq_step(all, it.index() as int);
        }
        let c = chars_of(p.0.as_str());
        if !same(&c, &k) {
            let ghost before = out;
            out.push(p);
            proof {
                deep_push(before, p, out);
            }
        }
    }
    out
}

fn drop_sessions(list: Vec<SessionEntry>, id: &str) -> (r: Vec<SessionEntry>)
    ensures
        r.deep_view() == sessions_without(list.deep_view(), id@),
{
    let k = chars_of(id);
    let mut out: Vec<SessionEntry> = Vec::new();
    proof {
        deep_empty(out);
        deep_seq_of(list);
    }
    let ghost all = list@;
    for p in it: list
        invariant
            k@ == id@,
            it.seq() == all,
            out.deep_view() == sessions_without(deep_seq(all.take(it.index() as int)), id@),
    {
        proof {
            deep_seq_step(all, it.index() as int);
        }
        let c = chars_of(p.book_id.as_str());
        if !same(&c, &k) {
            let ghost before = out;
            out.push(p);
            proof {
                deep_push(before, p, out);
            }
        }
    }
    out
}

/// The sum of the numbers of a list.
pub fn total(list: &Vec<(String, u64)>) -> (r: u64)
    requires
        sum(list.deep_view()) <= u64::MAX,
    ensures
        r == sum(list.deep_view()),
{
    let ghost s = list.deep_view();
    let mut t: u64 = 0;
    let mut i: usize = 0;
    assert(s.take(0) =~= Seq::empty());
    while i < list.len()
        invariant
            i <= list@.len(),
            s == list.deep_view(),
            sum(s) <= u64::MAX,
            t == sum(s.take(i as int)),
        decreases list@.len() - i,
    {
        proof {
            sum_bounds(s, i as int);
            assert(s.take(i + 1).drop_last() =~= s.take(i as int));
            assert(s[i as int] == list@[i as int].deep_view());
        }
        t = t + list[i].1;
        i = i + 1;
    }
    assert(s.take(i as int) =~= s);
    t
}

/// Leaving a key out does not make a sum larger.
proof fn without_key_sum(list: Seq<(Seq<char>, u64)>, key: Seq<char>)
    ensures
        0 <= sum(without_key(list, key)) <= sum(list),
    decreases list.len(),
{
    if list.len() > 0 {
        let d = list.drop_last();
        without_key_sum(d, key);
        if list.last().0 != key {
            assert(without_key(list, key).drop_last() =~= without_key(d, key));
        }
    }
}

/// The seconds of the books of each day fit sixty-four bits together.
pub open spec fn days_fit(days: Seq<(Seq<char>, Day)>) -> bool {
    forall|i: int| 0 <= i < days.len() ==> sum((#[trigger] days[i]).1.per_book) <= u64::MAX
}

fn forget_in_day(day: DayStat, id: &str) -> (r: DayStat)
    requires
        sum(day.deep_view().per_book) <= u64::MAX,
    ensures
        r.deep_view() == day_without(day.deep_view(), id@),
{
    let DayStat { date, total_seconds, per_book, sessions } = day;
    let had = find_key(&per_book, id).is_some();
    let rest = drop_key(per_book, id);
    proof {
        without_key_sum(day.deep_view().per_book, id@);
    }
    let seconds: u64 = if had {
        total(&rest)
    } else {
        total_seconds
    };
    DayStat { date, total_seconds: seconds, per_book: rest, sessions: drop_sessions(sessions, id) }
}

/// Takes a book out of the statistics: its time, its stretches and its title, and the days on
/// which nothing is left.
pub fn forget_book(stats: &mut StatsFile, book_id: &str)
    requires
        days_fit(old(stats).deep_view().days),
    ensures
        final(stats).deep_view() == forgotten(old(stats).deep_view(), book_id@),
        silent_on(final(stats).deep_view(), book_id@),
{
    let ghost before = stats.deep_view();
    let mut days: Vec<(String, DayStat)> = Vec::new();
    std::mem::swap(&mut days, &mut stats.days);
    let ghost all = days@;
    let mut left: Vec<(String, DayStat)> = Vec::new();
    proof {
        deep_empty(left);
        deep_seq_of(days);
    }
    for p in it: days
        invariant
            it.seq() == all,
            deep_seq(all) == before.days,
            days_fit(before.days),
            left.deep_view() == days_without(deep_seq(all.take(it.index() as int)), book_id@),
    {
        proof {
            deep_seq_step(all, it.index() as int);
            assert(before.days[it.index() as int] == p.deep_view());
        }
        let (date, day) = p;
        let next = forget_in_day(day, book_id);
        if next.per_book.len() > 0 || next.sessions.len() > 0 {
            let ghost had = left;
            let item = (date, next);
            left.push(item);
            proof {
                deep_push(had, item, left);
            }
        }
    }
    stats.days = left;
    let mut titles: Vec<(String, String)> = Vec::new();
    std::mem::swap(&mut titles, &mut stats.book_titles);
    stats.book_titles = drop_key(titles, book_id);
    proof {
        forgetting_leaves_no_trace(before, book_id@);
    }
}

/// Whether the seconds of each day fit sixty-four bits together.
pub fn can_forget(stats: &StatsFile) -> (r: bool)
    ensures
        r == days_fit(stats.deep_view().days),
{
    let ghost days = stats.deep_view().days;
    let mut i: usize = 0;
    while i < stats.days.len()
        invariant
            i <= stats.days@.len(),
            days == stats.days.deep_view(),
            forall|k: int| 0 <= k < i ==> sum((#[trigger] days[k]).1.per_book) <= u64::MAX,
        decreases stats.days@.len() - i,
    {
        assert(days[i as int] == stats.days@[i as int].deep_view());
        if !sum_fits(&stats.days[i].1.per_book) {
            assert(sum(days[i as int].1.per_book) > u64::MAX);
            return false;
        }
        i = i + 1;
    }
    true
}

fn sum_fits(list: &Vec<(String, u64)>) -> (r: bool)
    ensures
        r == (sum(list.deep_view()) <= u64::MAX),
{
    let ghost l = list.deep_view();
    let mut t: u64 = 0;
    let mut i: usize = 0;
    assert(l.take(0) =~= Seq::empty());
    while i < list.len()
        invariant
            i <= list@.len(),
            l == list.deep_view(),
            t == sum(l.take(i as int)),
        decreases list@.len() - i,
    {
        proof {
            sum_bounds(l, i as int);
            assert(l[i as int] == list@[i as int].deep_view());
            assert(l.take(i + 1).drop_last() =~= l.take(i as int));
        }
        if list[i].1 > u64::MAX - t {
            return false;
        }
        t = t + list[i].1;
        i = i + 1;
    }
    assert(l.take(i as int) =~= l);
    true
}

// ---------------------------------------------------------------------------
// What holds of days
// ---------------------------------------------------------------------------

/// The seconds of every day are those of its books together.
pub open spec fn days_add_up(days: Seq<(Seq<char>, Day)>) -> bool {
    forall|i: int|
        0 <= i < days.len() ==> sum((#[trigger] days[i]).1.per_book) == days[i].1.total_seconds
}

proof fn putting_keeps_days_adding_up(days: Seq<(Seq<char>, Day)>, date: Seq<char>, day: Day)
    requires
        days_add_up(days),
        sum(day.per_book) == day.total_seconds,
    ensures
        days_add_up(put(days, date, day)),
{
    place_of_is_first(days, date, 0);
    let after = put(days, date, day);
    assert forall|i: int| 0 <= i < after.len() implies sum((#[trigger] after[i]).1.per_book)
        == after[i].1.total_seconds by {
        if i < days.len() && place_of(days, date, 0) != Some(i) {
            assert(after[i] == days[i]);
        }
    }
}

proof fn a_day_adds_up(days: Seq<(Seq<char>, Day)>, date: Seq<char>)
    requires
        days_add_up(days),
    ensures
        sum(day_under(days, date).per_book) == day_under(days, date).total_seconds,
{
    place_of_is_first(days, date, 0);
}

/// Where the seconds of every day are those of its books together, they still are after reading
/// was recorded.
pub proof fn recording_keeps_days_adding_up(
    s: Stats,
    id: Seq<char>,
    date: Seq<char>,
    seconds: u64,
    title: Option<Seq<char>>,
)
    requires
        days_add_up(s.days),
        has_room(s, id, date, seconds),
    ensures
        days_add_up(reading_added(s, id, date, seconds, title).days),
{
    a_day_adds_up(s.days, date);
    let day = day_under(s.days, date);
    added_sum(day.per_book, id, seconds as int);
    putting_keeps_days_adding_up(
        s.days,
        date,
        (Day {
            total_seconds: (day.total_seconds + seconds) as u64,
            per_book: added(day.per_book, id, seconds as int),
            ..day
        }),
    );
}

/// A stretch of reading changes no seconds.
pub proof fn stretches_keep_days_adding_up(
    s: Stats,
    date: Seq<char>,
    session: Session,
    title: Option<Seq<char>>,
)
    requires
        days_add_up(s.days),
    ensures
        days_add_up(session_added(s, date, session, title).days),
{
    a_day_adds_up(s.days, date);
    let day = day_under(s.days, date);
    putting_keeps_days_adding_up(
        s.days,
        date,
        (Day { sessions: day.sessions.push(session), ..day }),
    );
}

proof fn without_absent_key(list: Seq<(Seq<char>, u64)>, key: Seq<char>)
    requires
        place_of(list, key, 0) is None,
    ensures
        without_key(list, key) == list,
    decreases list.len(),
{
    place_of_is_first(list, key, 0);
    if list.len() > 0 {
        let d = list.drop_last();
        place_of_is_first(d, key, 0);
        if let Some(k) = place_of(d, key, 0) {
            assert(d[k] == list[k]);
        }
        without_absent_key(d, key);
        assert(list[list.len() - 1].0 != key);
        assert(d.push(list.last()) =~= list);
    }
}

/// The days still add up when a book is forgotten.
pub proof fn forgetting_keeps_days_adding_up(days: Seq<(Seq<char>, Day)>, id: Seq<char>)
    requires
        days_add_up(days),
    ensures
        days_add_up(days_without(days, id)),
    decreases days.len(),
{
    if days.len() > 0 {
        let d = days.drop_last();
        assert(days_add_up(d)) by {
            assert forall|i: int| 0 <= i < d.len() implies sum((#[trigger] d[i]).1.per_book)
                == d[i].1.total_seconds by {
                assert(d[i] == days[i]);
            }
        }
        forgetting_keeps_days_adding_up(d, id);
        let last = days[days.len() - 1].1;
        without_key_sum(last.per_book, id);
        if place_of(last.per_book, id, 0) is None {
            without_absent_key(last.per_book, id);
        }
    }
}

} // verus!
