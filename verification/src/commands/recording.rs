//! Which reading is recorded, and what is forgotten when a book is kept out.
use vstd::prelude::*;
use crate::commands::shelf::{changed, on_shelf, place_is_first, shelved};
use crate::commands::stats::{
    days_fit, forget_book, forgetting_leaves_no_trace, forgotten, has_room, maybe, reading_added,
    record_reading, record_session, session_added, silent_on,
};
use crate::commands::summary::{
    book_place, day_text, find_book, greenwich_day, known_time, write_day, FIRST_DAY, LAST_DAY,
};
use crate::keyed::{find_key, place_of};
use crate::model::{
    kept_out, DayStat, Session, SessionEntry, Shelf, ShelfData, Shelved, Stats, StatsFile,
};

verus! {

/// The book is on the shelf and kept out of the statistics.
pub open spec fn left_out(shelf: Shelf, id: Seq<char>) -> bool {
    on_shelf(shelf, id) && kept_out(shelved(shelf, id))
}

/// Whether a book is on the shelf and kept out of the statistics.
pub fn is_stats_excluded(shelf: &ShelfData, book_id: &str) -> (r: bool)
    ensures
        r == left_out(shelf.deep_view(), book_id@),
{
    match find_book(&shelf.books, book_id) {
        Some(i) => {
            assert(shelf.books.deep_view()[i as int] == shelf.books@[i as int].deep_view());
            shelf.books[i].is_stats_excluded()
        },
        None => false,
    }
}

/// The statistics after seconds of reading: those of a book that is kept out do not count.
pub open spec fn time_recorded(
    shelf: Shelf,
    stats: Stats,
    id: Seq<char>,
    date: Seq<char>,
    seconds: u64,
    title: Option<Seq<char>>,
) -> Stats {
    if seconds == 0 || left_out(shelf, id) {
        stats
    } else {
        reading_added(stats, id, date, seconds, title)
    }
}

/// The statistics after a stretch of reading: one in a book that is kept out does not count.
pub open spec fn stretch_recorded(
    shelf: Shelf,
    stats: Stats,
    date: Seq<char>,
    session: Session,
    title: Option<Seq<char>>,
) -> Stats {
    if session.seconds == 0 || left_out(shelf, session.book_id) {
        stats
    } else {
        session_added(stats, date, session, title)
    }
}

/// Records seconds of reading.
pub fn record_reading_time(
    shelf: &ShelfData,
    stats: &mut StatsFile,
    book_id: &str,
    date: &str,
    seconds: u64,
    title: Option<&str>,
)
    requires
        seconds > 0 && !left_out(shelf.deep_view(), book_id@) ==> has_room(
            old(stats).deep_view(),
            book_id@,
            date@,
            seconds,
        ),
    ensures
        final(stats).deep_view() == time_recorded(
            shelf.deep_view(),
            old(stats).deep_view(),
            book_id@,
            date@,
            seconds,
            maybe(title),
        ),
{
    if seconds > 0 && !is_stats_excluded(shelf, book_id) {
        record_reading(stats, book_id, date, seconds, title);
    }
}

/// `chrono::Local`, asked for the day of a time, the first of January of the year 1 being day 1. A
/// time to which the calendar reaches has one day, any other has none. The clocks of the world are
/// less than a day from that of Greenwich, so it is the day that it is then in Greenwich, or one next
/// to it; which of them depends on the time zone of the machine and is not said.
#[verifier::external_body]
fn local_day(timestamp: i64) -> (r: Option<i32>)
    ensures
        is_day_at(r, timestamp),
{
    let time = chrono::TimeZone::timestamp_opt(&chrono::Local, timestamp, 0).single()?;
    Some(chrono::Datelike::num_days_from_ce(&time))
}

/// The day of a time to which the calendar reaches is that of some place of the world; any other time
/// has none.
pub open spec fn is_day_at(day: Option<i32>, timestamp: i64) -> bool {
    match day {
        Some(d) => known_time(timestamp as int) && -1 <= d - greenwich_day(timestamp as int) <= 1,
        None => !known_time(timestamp as int),
    }
}

/// The date under which a stretch of reading stands: that of the day on which it started, and that
/// of today where the day is not known.
pub open spec fn stretch_date(day: Option<i32>, today: Seq<char>) -> Seq<char> {
    match day {
        Some(d) => if FIRST_DAY <= d <= LAST_DAY {
            day_text(d as int)
        } else {
            today
        },
        None => today,
    }
}

/// A stretch stands under the date of the day on which it started, whatever day it is when it is
/// recorded, wherever that day is one of the calendar everywhere in the world.
pub proof fn a_stretch_keeps_its_day(day: Option<i32>, started_at: i64, today: Seq<char>)
    requires
        is_day_at(day, started_at),
        FIRST_DAY < greenwich_day(started_at as int) < LAST_DAY,
    ensures
        day is Some,
        stretch_date(day, today) == day_text(day.unwrap() as int),
{
}

/// The date under which a stretch of reading stands, given the day on which it started.
pub fn date_of_stretch(day: Option<i32>, today: &str) -> (r: String)
    ensures
        r@ == stretch_date(day, today@),
{
    match day {
        Some(d) => if FIRST_DAY <= d && d <= LAST_DAY {
            write_day(d)
        } else {
            today.to_owned()
        },
        None => today.to_owned(),
    }
}

/// Records a stretch of reading. One that goes over midnight stands under the day on which it
/// started.
pub fn record_reading_session(
    shelf: &ShelfData,
    stats: &mut StatsFile,
    today: &str,
    session: SessionEntry,
    title: Option<&str>,
)
    ensures
        exists|day: Option<i32>| #[trigger]
            is_day_at(day, session.started_at) && final(stats).deep_view() == stretch_recorded(
                shelf.deep_view(),
                old(stats).deep_view(),
                stretch_date(day, today@),
                session.deep_view(),
                maybe(title),
            ),
{
    let day = local_day(session.started_at);
    let date = date_of_stretch(day, today);
    assert(is_day_at(day, session.started_at));
    record_stretch(shelf, stats, date.as_str(), session, title);
}

/// Records a stretch of reading under a date.
pub fn record_stretch(
    shelf: &ShelfData,
    stats: &mut StatsFile,
    date: &str,
    session: SessionEntry,
    title: Option<&str>,
)
    ensures
        final(stats).deep_view() == stretch_recorded(
            shelf.deep_view(),
            old(stats).deep_view(),
            date@,
            session.deep_view(),
            maybe(title),
        ),
{
    if session.seconds > 0 && !is_stats_excluded(shelf, session.book_id.as_str()) {
        record_session(stats, date, session, title);
    }
}

/// Sets whether a book is kept out of the statistics; where it is, what was recorded of it is
/// forgotten. Says whether the book is on the shelf.
pub fn set_book_stats_excluded(
    shelf: &mut ShelfData,
    stats: &mut StatsFile,
    book_id: &str,
    excluded: bool,
) -> (r: bool)
    requires
        excluded && on_shelf(old(shelf).deep_view(), book_id@) ==> days_fit(
            old(stats).deep_view().days,
        ),
    ensures
        r == on_shelf(old(shelf).deep_view(), book_id@),
        final(shelf).deep_view() == changed(
            old(shelf).deep_view(),
            book_id@,
            (Shelved {
                stats_excluded: Some(excluded),
                ..shelved(old(shelf).deep_view(), book_id@)
            }),
        ),
        final(stats).deep_view() == if r && excluded {
            forgotten(old(stats).deep_view(), book_id@)
        } else {
            old(stats).deep_view()
        },
{
    if !shelf.set_book_stats_excluded(book_id, excluded) {
        return false;
    }
    if excluded {
        forget_book(stats, book_id);
    }
    true
}

/// What was read on a date.
pub fn get_day_stat<'a>(stats: &'a StatsFile, date: &str) -> (r: Option<&'a DayStat>)
    ensures
        match r {
            Some(d) => place_of(stats.deep_view().days, date@, 0) matches Some(i)
                && d.deep_view() == stats.deep_view().days[i].1,
            None => place_of(stats.deep_view().days, date@, 0) is None,
        },
{
    match find_key(&stats.days, date) {
        Some(i) => {
            assert(stats.days.deep_view()[i as int] == stats.days@[i as int].deep_view());
            Some(&stats.days[i].1)
        },
        None => None,
    }
}

/// A book that was set to be kept out has left no trace, and reading in it leaves none.
pub proof fn what_is_kept_out_stays_out(
    shelf: Shelf,
    stats: Stats,
    id: Seq<char>,
    date: Seq<char>,
    seconds: u64,
    session: Session,
    title: Option<Seq<char>>,
)
    requires
        on_shelf(shelf, id),
        session.book_id == id,
    ensures
        ({
            let after = changed(
                shelf,
                id,
                (Shelved { stats_excluded: Some(true), ..shelved(shelf, id) }),
            );
            let rest = forgotten(stats, id);
            &&& silent_on(rest, id)
            &&& time_recorded(after, rest, id, date, seconds, title) == rest
            &&& stretch_recorded(after, rest, date, session, title) == rest
        }),
{
    forgetting_leaves_no_trace(stats, id);
    place_is_first(shelf.books, id, 0);
    let i = book_place(shelf.books, id, 0).unwrap();
    let b = Shelved { stats_excluded: Some(true), ..shelved(shelf, id) };
    let after = changed(shelf, id, b);
    place_is_first(after.books, id, 0);
    assert(after.books[i] == b);
    let k = book_place(after.books, id, 0).unwrap();
    if k != i {
        assert(k < i);
        assert(after.books[k] == shelf.books[k]);
    }
}

} // verus!
