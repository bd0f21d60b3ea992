//! What recording changes in the statistics, and what it leaves as it was.
use vstd::prelude::*;
use crate::commands::recording::{left_out, stretch_recorded, time_recorded};
use crate::commands::stats::{
    day_under, day_without, days_without, has_room, reading_added, session_added,
    sessions_without, without_key,
};
use crate::keyed::{added, added_under_fits, place_of, place_of_is_first, put, under};
use crate::model::{Day, Session, Shelf, Stats};
use crate::text::trimmed;

verus! {

/// What stands under a key is what was put there last; nothing else changes.
pub proof fn what_is_put_is_found<T>(list: Seq<(Seq<char>, T)>, key: Seq<char>, value: T, other: Seq<char>)
    ensures
        place_of(put(list, key, value), key, 0) matches Some(i) && put(list, key, value)[i].1 == value,
        other != key ==> match place_of(list, other, 0) {
            Some(i) => place_of(put(list, key, value), other, 0) == Some(i) && put(
                list,
                key,
                value,
            )[i] == list[i],
            None => place_of(put(list, key, value), other, 0) is None,
        },
{
    let after = put(list, key, value);
    place_of_is_first(list, key, 0);
    place_of_is_first(after, key, 0);
    place_of_is_first(list, other, 0);
    place_of_is_first(after, other, 0);
    match place_of(list, key, 0) {
        Some(i) => {
            assert(after[i].0 == key);
            let k = place_of(after, key, 0).unwrap();
            if k < i {
                assert(after[k] == list[k]);
            }
        },
        None => {
            assert(after[list.len() as int].0 == key);
            let k = place_of(after, key, 0).unwrap();
            if k < list.len() {
                assert(after[k] == list[k]);
            }
        },
    }
    if other != key {
        match place_of(list, other, 0) {
            Some(j) => {
                assert(after[j] == list[j]);
                let k = place_of(after, other, 0).unwrap();
                if k < j {
                    assert(after[k].0 == other);
                    assert(list[k].0 == other || after[k].0 == key);
                }
            },
            None => {
                if let Some(k) = place_of(after, other, 0) {
                    assert(after[k].0 == other);
                    if k < list.len() {
                        assert(list[k].0 != other);
                    }
                }
            },
        }
    }
}

/// Seconds of reading are added to the day and to the book, and to nothing else: other days, other books
/// and the stretches stay as they were, and the title is remembered unless it is blank.
pub proof fn reading_counts_for_its_day_and_book(
    s: Stats,
    id: Seq<char>,
    date: Seq<char>,
    seconds: u64,
    title: Seq<char>,
    other_day: Seq<char>,
    other_book: Seq<char>,
)
    requires
        has_room(s, id, date, seconds),
    ensures
        ({
            let before = day_under(s.days, date);
            let after = reading_added(s, id, date, seconds, Some(title));
            let day = day_under(after.days, date);
            &&& day.total_seconds == before.total_seconds + seconds
            &&& under(day.per_book, id) == under(before.per_book, id) + seconds
            &&& other_book != id ==> under(day.per_book, other_book) == under(
                before.per_book,
                other_book,
            )
            &&& day.sessions == before.sessions
            &&& day.date == before.date
            &&& other_day != date ==> day_under(after.days, other_day) == day_under(s.days, other_day)
            &&& trimmed(title).len() > 0 ==> (place_of(after.book_titles, id, 0) matches Some(i)
                && after.book_titles[i].1 == title)
            &&& trimmed(title).len() == 0 ==> after.book_titles == s.book_titles
            &&& reading_added(s, id, date, seconds, None).book_titles == s.book_titles
            &&& reading_added(s, id, date, seconds, None).days == after.days
        }),
{
    let before = day_under(s.days, date);
    let grown = Day {
        total_seconds: (before.total_seconds + seconds) as u64,
        per_book: added(before.per_book, id, seconds as int),
        ..before
    };
    what_is_put_is_found(s.days, date, grown, other_day);
    what_is_put_is_found(s.book_titles, id, title, other_book);
    added_under_fits(before.per_book, id, seconds as int, other_book);
}

/// A stretch of reading is put behind the others of its day; no seconds change, and no other day.
pub proof fn a_stretch_is_put_behind_the_others(
    s: Stats,
    date: Seq<char>,
    session: Session,
    title: Seq<char>,
    other_day: Seq<char>,
)
    ensures
        ({
            let before = day_under(s.days, date);
            let after = session_added(s, date, session, Some(title));
            let day = day_under(after.days, date);
            &&& day.sessions == before.sessions.push(session)
            &&& day.total_seconds == before.total_seconds
            &&& day.per_book == before.per_book
            &&& other_day != date ==> day_under(after.days, other_day) == day_under(s.days, other_day)
            &&& trimmed(title).len() > 0 ==> (place_of(after.book_titles, session.book_id, 0) matches Some(
                i,
            ) && after.book_titles[i].1 == title)
        }),
{
    let before = day_under(s.days, date);
    what_is_put_is_found(
        s.days,
        date,
        (Day { sessions: before.sessions.push(session), ..before }),
        other_day,
    );
    what_is_put_is_found(s.book_titles, session.book_id, title, Seq::empty());
}

/// Reading counts unless the book is kept out of the statistics, or no second was read.
pub proof fn only_what_is_kept_out_does_not_count(
    shelf: Shelf,
    s: Stats,
    id: Seq<char>,
    date: Seq<char>,
    seconds: u64,
    session: Session,
    title: Option<Seq<char>>,
)
    ensures
        left_out(shelf, id) || seconds == 0 ==> time_recorded(shelf, s, id, date, seconds, title) == s,
        !left_out(shelf, id) && seconds > 0 ==> time_recorded(shelf, s, id, date, seconds, title)
            == reading_added(s, id, date, seconds, title),
        left_out(shelf, session.book_id) || session.seconds == 0 ==> stretch_recorded(
            shelf,
            s,
            date,
            session,
            title,
        ) == s,
        !left_out(shelf, session.book_id) && session.seconds > 0 ==> stretch_recorded(
            shelf,
            s,
            date,
            session,
            title,
        ) == session_added(s, date, session, title),
{
}

proof fn others_keep_their_time(list: Seq<(Seq<char>, u64)>, id: Seq<char>, other: Seq<char>)
    requires
        other != id,
    ensures
        under(without_key(list, id), other) == under(list, other),
        place_of(without_key(list, id), other, 0) is Some <==> place_of(list, other, 0) is Some,
    decreases list.len(),
{
    place_of_is_first(list, other, 0);
    place_of_is_first(without_key(list, id), other, 0);
    if list.len() > 0 {
        let d = list.drop_last();
        others_keep_their_time(d, id, other);
        place_of_is_first(d, other, 0);
        let less = without_key(d, id);
        place_of_is_first(less, other, 0);
        let all = without_key(list, id);
        behind_the_end(d, list.last(), other);
        assert(d.push(list.last()) =~= list);
        behind_the_end(less, list.last(), other);
    }
}

proof fn behind_the_end(list: Seq<(Seq<char>, u64)>, x: (Seq<char>, u64), key: Seq<char>)
    ensures
        under(list.push(x), key) == if place_of(list, key, 0) is Some {
            under(list, key)
        } else if x.0 == key {
            x.1 as int
        } else {
            0
        },
        place_of(list.push(x), key, 0) is Some <==> place_of(list, key, 0) is Some || x.0 == key,
{
    let l = list.push(x);
    place_of_is_first(list, key, 0);
    place_of_is_first(l, key, 0);
    match place_of(list, key, 0) {
        Some(i) => {
            assert(l[i] == list[i]);
            let k = place_of(l, key, 0).unwrap();
            if k < i {
                assert(l[k] == list[k]);
            }
        },
        None => {
            if x.0 == key {
                assert(l[list.len() as int].0 == key);
            }
            if let Some(k) = place_of(l, key, 0) {
                if k < list.len() {
                    assert(l[k] == list[k]);
                }
            }
        },
    }
}

proof fn other_stretches_stay(list: Seq<Session>, id: Seq<char>)
    ensures
        sessions_without(list, id) == list.filter(|x: Session| x.book_id != id),
    decreases list.len(),
{
    reveal(Seq::filter);
    if list.len() > 0 {
        other_stretches_stay(list.drop_last(), id);
    } else {
        assert(sessions_without(list, id) =~= list.filter(|x: Session| x.book_id != id));
    }
}

/// To forget a book takes nothing from the others: their time on a day and their stretches stay.
pub proof fn forgetting_a_book_keeps_the_others(day: Day, id: Seq<char>, other: Seq<char>)
    requires
        other != id,
    ensures
        under(day_without(day, id).per_book, other) == under(day.per_book, other),
        day_without(day, id).sessions == day.sessions.filter(|x: Session| x.book_id != id),
        day_without(day, id).date == day.date,
        place_of(day.per_book, id, 0) is None ==> day_without(day, id).total_seconds
            == day.total_seconds,
{
    others_keep_their_time(day.per_book, id, other);
    other_stretches_stay(day.sessions, id);
}

/// A day on which something else was read stays when a book is forgotten, under its date.
pub proof fn a_day_with_other_books_stays(days: Seq<(Seq<char>, Day)>, id: Seq<char>, k: int, other: Seq<char>)
    requires
        0 <= k < days.len(),
        other != id,
        place_of(days[k].1.per_book, other, 0) is Some,
    ensures
        days_without(days, id).contains((days[k].0, day_without(days[k].1, id))),
    decreases days.len(),
{
    let d = days.drop_last();
    let want = (days[k].0, day_without(days[k].1, id));
    if k < d.len() {
        a_day_with_other_books_stays(d, id, k, other);
        let j = choose|j: int| 0 <= j < days_without(d, id).len() && days_without(d, id)[j] == want;
        assert(days_without(days, id)[j] == want);
    } else {
        others_keep_their_time(days[k].1.per_book, id, other);
        place_of_is_first(day_without(days[k].1, id).per_book, other, 0);
        assert(days_without(days, id)[days_without(d, id).len() as int] == want);
    }
}

} // verus!
