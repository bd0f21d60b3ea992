//! What the figures of the summary mean: how they follow from the days, the books and one another.
use vstd::prelude::*;
use crate::commands::summary::{
    all_added, all_seconds, all_sessions, all_book_seconds, book_place, book_times, by_format,
    by_genre, clocks_from, clocks_of, daily_points, day_text, days_read, finished_books, format_word, hours_added, part_end,
    seconds_back, seconds_on, session_count, session_max, session_sum, shares_added,
    streak, streak_up_to, summary, title_of, top_books, Clock, Counted, FIRST_DAY,
};
use crate::keyed::{
    added_sum, added_under, place_of, place_of_is_first, ranked, ranked_is_sorted,
    sum, sum_bounds, sum_nonnegative, under,
};
use crate::model::{BookFormat, Day, Session, Shelf, Shelved, Stats};

verus! {

/// The sum of the first `n` values of a function.
pub open spec fn sum_of(n: int, f: spec_fn(int) -> int) -> int
    decreases n,
{
    if n <= 0 {
        0
    } else {
        sum_of(n - 1, f) + f(n - 1)
    }
}

// ---------------------------------------------------------------------------
// Days
// ---------------------------------------------------------------------------

/// What was read on a day is what stands under its date: the seconds of the first entry with the
/// date, and none where there is no such entry.
pub proof fn a_day_stands_under_its_date(days: Seq<(Seq<char>, Day)>, day: int, i: int)
    requires
        forall|j: int| 0 <= j < i && j < days.len() ==> (#[trigger] days[j]).0 != day_text(day),
        0 <= i <= days.len(),
        i < days.len() ==> days[i].0 == day_text(day),
    ensures
        seconds_on(days, day) == if i < days.len() {
            days[i].1.total_seconds as int
        } else {
            0
        },
{
    place_of_is_first(days, day_text(day), 0);
    if let Some(k) = place_of(days, day_text(day), 0) {
        if k < i {
            assert(days[k].0 != day_text(day));
        } else if i < k {
            assert(days[i].0 != day_text(day));
        }
    }
}

proof fn run_of_days(days: Seq<(Seq<char>, Day)>, day: int, n: int)
    requires
        0 <= n,
        FIRST_DAY < day - n,
        forall|k: int| 0 <= k < n ==> seconds_on(days, #[trigger] (day - k)) > 0,
        seconds_on(days, day - n) == 0,
    ensures
        streak_up_to(days, day) == n,
    decreases n,
{
    if n > 0 {
        assert(seconds_on(days, day - 0) > 0);
        assert forall|k: int| 0 <= k < n - 1 implies seconds_on(days, #[trigger] (day - 1 - k)) > 0 by {
            assert(seconds_on(days, day - (k + 1)) > 0);
        }
        run_of_days(days, day - 1, n - 1);
    }
}

/// A day that is not over does not break the streak: where something was read on each of the `n`
/// days before today and nothing on the day before those, the streak is `n` as long as nothing was
/// read today, and one more as soon as something was.
pub proof fn a_day_that_is_not_over_breaks_no_streak(
    days: Seq<(Seq<char>, Day)>,
    today: int,
    n: int,
)
    requires
        0 <= n,
        FIRST_DAY < today - n - 1,
        forall|k: int| 1 <= k <= n ==> seconds_on(days, #[trigger] (today - k)) > 0,
        seconds_on(days, today - n - 1) == 0,
    ensures
        seconds_on(days, today) == 0 ==> streak(days, today) == n,
        seconds_on(days, today) > 0 ==> streak(days, today) == n + 1,
{
    assert forall|k: int| 0 <= k < n implies seconds_on(days, #[trigger] (today - 1 - k)) > 0 by {
        assert(seconds_on(days, today - (k + 1)) > 0);
    }
    run_of_days(days, today - 1, n);
    if seconds_on(days, today) > 0 {
        assert(streak_up_to(days, today) == 1 + streak_up_to(days, today - 1));
    }
}

proof fn back_adds_points(days: Seq<(Seq<char>, Day)>, today: int, n: int)
    requires
        0 <= n <= 365,
    ensures
        seconds_back(days, today, n) == sum_of(
            n,
            |k: int| daily_points(days, today)[364 - k].1 as int,
        ),
    decreases n,
{
    let f = |k: int| daily_points(days, today)[364 - k].1 as int;
    if n > 0 {
        back_adds_points(days, today, n - 1);
        let day = today - (n - 1);
        place_of_is_first(days, day_text(day), 0);
        assert(daily_points(days, today)[364 - (n - 1)].1 == seconds_on(days, day) as u64);
        assert(f(n - 1) == seconds_on(days, day));
    }
}

proof fn all_days_add_up(days: Seq<(Seq<char>, Day)>, n: int)
    requires
        0 <= n <= days.len(),
    ensures
        all_seconds(days.take(n)) == sum_of(n, |k: int| days[k].1.total_seconds as int),
    decreases n,
{
    if n > 0 {
        all_days_add_up(days, n - 1);
        assert(days.take(n).drop_last() =~= days.take(n - 1));
    }
}

/// The figures for days follow from the days. The points are the 365 days up to today, one after
/// another; today, the week and the month are the last, the last seven and the last thirty of them;
/// the whole is the sum of all days, and the average that of thirty days.
pub proof fn the_figures_for_days_add_up(
    s: Stats,
    shelf: Shelf,
    today: int,
    clocks: Seq<Seq<Option<Clock>>>,
    counted: Counted,
)
    ensures
        ({
            let r = summary(s, shelf, today, clocks, counted);
            let point = |k: int| r.daily[364 - k].1 as int;
            &&& r.daily.len() == 365
            &&& forall|k: int|
                0 <= k < 365 ==> (#[trigger] r.daily[364 - k]).0 == day_text(today - k)
                    && r.daily[364 - k].1 == seconds_on(s.days, today - k)
            &&& r.today_seconds == r.daily[364].1
            &&& r.week_seconds == sum_of(7, point)
            &&& r.month_seconds == sum_of(30, point)
            &&& r.total_seconds == sum_of(
                s.days.len() as int,
                |k: int| s.days[k].1.total_seconds as int,
            )
            &&& 30 * r.avg_daily_30 <= r.month_seconds < 30 * (r.avg_daily_30 + 1)
        }),
{
    let r = summary(s, shelf, today, clocks, counted);
    back_adds_points(s.days, today, 7);
    back_adds_points(s.days, today, 30);
    let point = |k: int| r.daily[364 - k].1 as int;
    let same = |k: int| daily_points(s.days, today)[364 - k].1 as int;
    assert(point =~= same);
    assert forall|k: int| 0 <= k < 365 implies (#[trigger] r.daily[364 - k]).0 == day_text(today - k)
        && r.daily[364 - k].1 == seconds_on(s.days, today - k) by {
        place_of_is_first(s.days, day_text(today - k), 0);
    }
    assert(r.daily[364 - 0].1 == seconds_on(s.days, today - 0));
    all_days_add_up(s.days, s.days.len() as int);
    assert(s.days.take(s.days.len() as int) =~= s.days);
}

proof fn days_read_are_those(days: Seq<(Seq<char>, Day)>)
    ensures
        days_read(days) == days.filter(|d: (Seq<char>, Day)| d.1.total_seconds > 0).len(),
    decreases days.len(),
{
    reveal(Seq::filter);
    if days.len() > 0 {
        days_read_are_those(days.drop_last());
    }
}

proof fn finished_are_those(books: Seq<Shelved>)
    ensures
        finished_books(books) == books.filter(|b: Shelved| b.finished).len(),
    decreases books.len(),
{
    reveal(Seq::filter);
    if books.len() > 0 {
        finished_are_those(books.drop_last());
    }
}

proof fn sessions_are_those(s: Seq<Session>)
    ensures
        session_count(s) == s.filter(|x: Session| x.seconds > 0).len(),
        session_sum(s) == sum_of(s.len() as int, |k: int| s[k].seconds as int),
        forall|k: int| 0 <= k < s.len() ==> (#[trigger] s[k]).seconds <= session_max(s),
        session_max(s) == 0 || exists|k: int|
            0 <= k < s.len() && (#[trigger] s[k]).seconds == session_max(s),
        session_max(s) >= 0,
    decreases s.len(),
{
    reveal(Seq::filter);
    if s.len() > 0 {
        let d = s.drop_last();
        sessions_are_those(d);
        same_sum(
            d.len() as int,
            |k: int| d[k].seconds as int,
            |k: int| s[k].seconds as int,
        );
        assert forall|k: int| 0 <= k < s.len() implies (#[trigger] s[k]).seconds <= session_max(s) by {
            if k < d.len() {
                assert(d[k].seconds <= session_max(d));
            }
        }
        if s.last().seconds > session_max(d) {
            assert(s[s.len() - 1].seconds == session_max(s));
        } else if session_max(d) != 0 {
            let k = choose|k: int| 0 <= k < d.len() && (#[trigger] d[k]).seconds == session_max(d);
            assert(s[k].seconds == session_max(s));
        }
    }
}

proof fn same_sum(n: int, f: spec_fn(int) -> int, g: spec_fn(int) -> int)
    requires
        forall|k: int| 0 <= k < n ==> #[trigger] f(k) == g(k),
    ensures
        sum_of(n, f) == sum_of(n, g),
    decreases n,
{
    if n > 0 {
        same_sum(n - 1, f, g);
        assert(f(n - 1) == g(n - 1));
    }
}

/// What is counted is counted once: the days and the stretches with any seconds, the books on the
/// shelf and those of them that are finished. The longest stretch is one of the stretches, none is
/// longer, and the average times their number is their sum, but for what is less than a second each.
pub proof fn the_counts_are_those_of_what_is_counted(
    s: Stats,
    shelf: Shelf,
    today: int,
    clocks: Seq<Seq<Option<Clock>>>,
    counted: Counted,
)
    ensures
        ({
            let r = summary(s, shelf, today, clocks, counted);
            let all = all_sessions(s.days);
            let sum = sum_of(all.len() as int, |k: int| all[k].seconds as int);
            &&& r.total_read_days == s.days.filter(
                |d: (Seq<char>, Day)| d.1.total_seconds > 0,
            ).len()
            &&& r.book_count == shelf.books.len()
            &&& r.finished_count == shelf.books.filter(|b: Shelved| b.finished).len()
            &&& r.session_count == all.filter(|x: Session| x.seconds > 0).len()
            &&& forall|k: int|
                0 <= k < all.len() ==> (#[trigger] all[k]).seconds <= r.max_session_seconds
            &&& r.max_session_seconds == 0 || exists|k: int|
                0 <= k < all.len() && (#[trigger] all[k]).seconds == r.max_session_seconds
            &&& r.session_count > 0 ==> r.avg_session_seconds * r.session_count <= sum < (
            r.avg_session_seconds + 1) * r.session_count
            &&& r.session_count == 0 ==> r.avg_session_seconds == 0
            &&& r.counted == counted
        }),
{
    let r = summary(s, shelf, today, clocks, counted);
    let all = all_sessions(s.days);
    days_read_are_those(s.days);
    finished_are_those(shelf.books);
    sessions_are_those(all);
    let n = r.session_count;
    let sum = session_sum(all);
    if n > 0 {
        vstd::arithmetic::div_mod::lemma_fundamental_div_mod(sum, n);
        vstd::arithmetic::div_mod::lemma_mod_bound(sum, n);
        assert(n * (sum / n) == (sum / n) * n) by (nonlinear_arith);
        assert((sum / n + 1) * n == (sum / n) * n + n) by (nonlinear_arith);
    }
}

proof fn sessions_of_days(days: Seq<(Seq<char>, Day)>, i: int, k: int)
    requires
        0 <= i < days.len(),
        0 <= k < days[i].1.sessions.len(),
    ensures
        all_sessions(days).contains(days[i].1.sessions[k]),
    decreases days.len(),
{
    let d = days.drop_last();
    if i < d.len() {
        sessions_of_days(d, i, k);
        let j = choose|j: int| 0 <= j < all_sessions(d).len() && all_sessions(d)[j]
            == days[i].1.sessions[k];
        assert(all_sessions(days)[j] == days[i].1.sessions[k]);
    } else {
        assert(all_sessions(days)[all_sessions(d).len() + k] == days[i].1.sessions[k]);
    }
}

/// The stretches are those of all days: each stretch of each day is among them, and there are as many
/// as the days have together.
pub proof fn no_stretch_is_left_out(days: Seq<(Seq<char>, Day)>)
    ensures
        forall|i: int, k: int|
            #![trigger days[i].1.sessions[k]]
            0 <= i < days.len() && 0 <= k < days[i].1.sessions.len() ==> all_sessions(
                days,
            ).contains(days[i].1.sessions[k]),
        all_sessions(days).len() == sum_of(
            days.len() as int,
            |i: int| days[i].1.sessions.len() as int,
        ),
    decreases days.len(),
{
    assert forall|i: int, k: int|
        #![trigger days[i].1.sessions[k]]
        0 <= i < days.len() && 0 <= k < days[i].1.sessions.len() implies all_sessions(
        days,
    ).contains(days[i].1.sessions[k]) by {
        sessions_of_days(days, i, k);
    }
    if days.len() > 0 {
        let d = days.drop_last();
        no_stretch_is_left_out(d);
        same_sum(
            d.len() as int,
            |i: int| d[i].1.sessions.len() as int,
            |i: int| days[i].1.sessions.len() as int,
        );
    }
}

// ---------------------------------------------------------------------------
// Books
// ---------------------------------------------------------------------------

/// All that stands under a key in a list.
pub open spec fn all_under(list: Seq<(Seq<char>, u64)>, key: Seq<char>) -> int
    decreases list.len(),
{
    if list.len() == 0 {
        0
    } else {
        all_under(list.drop_last(), key) + if list.last().0 == key {
            list.last().1 as int
        } else {
            0
        }
    }
}

proof fn all_added_under(
    acc: Seq<(Seq<char>, u64)>,
    list: Seq<(Seq<char>, u64)>,
    n: int,
    key: Seq<char>,
)
    requires
        0 <= n <= list.len(),
        sum(acc) + sum(list.take(n)) <= u64::MAX,
    ensures
        sum(all_added(acc, list, n)) == sum(acc) + sum(list.take(n)),
        under(all_added(acc, list, n), key) == under(acc, key) + all_under(list.take(n), key),
    decreases n,
{
    sum_nonnegative(acc);
    if n > 0 {
        assert(list.take(n).drop_last() =~= list.take(n - 1));
        all_added_under(acc, list, n - 1, key);
        let before = all_added(acc, list, n - 1);
        added_sum(before, list[n - 1].0, list[n - 1].1 as int);
        added_under(before, list[n - 1].0, list[n - 1].1 as int, key);
    } else {
        assert(list.take(0) =~= Seq::empty());
        assert(all_under(list.take(0), key) == 0);
    }
}

/// The time of a book is that of all its entries on all days.
pub proof fn the_time_of_a_book_is_that_of_all_days(days: Seq<(Seq<char>, Day)>, id: Seq<char>)
    requires
        all_book_seconds(days) <= u64::MAX,
    ensures
        under(book_times(days), id) == sum_of(
            days.len() as int,
            |i: int| all_under(days[i].1.per_book, id),
        ),
        sum(book_times(days)) == all_book_seconds(days),
    decreases days.len(),
{
    if days.len() > 0 {
        let d = days.drop_last();
        let per = days.last().1.per_book;
        sum_nonnegative(per);
        the_time_of_a_book_is_that_of_all_days(d, id);
        assert(per.take(per.len() as int) =~= per);
        all_added_under(book_times(d), per, per.len() as int, id);
        same_sum(
            d.len() as int,
            |i: int| all_under(d[i].1.per_book, id),
            |i: int| all_under(days[i].1.per_book, id),
        );
    }
}

/// The list of the books that were read most: they come by falling time, they are the ten first or
/// all where there are fewer, a book that is left out has no more time than any that is listed, and
/// the title is that of the shelf, or else that which was recorded.
pub proof fn the_most_read_come_first(
    times: Seq<(Seq<char>, u64)>,
    books: Seq<Shelved>,
    titles: Seq<(Seq<char>, Seq<char>)>,
)
    ensures
        ({
            let top = top_books(times, books, titles);
            &&& top.len() == if times.len() < 10 {
                times.len()
            } else {
                10
            }
            &&& forall|i: int, j: int| 0 <= i <= j < top.len() ==> top[i].2 >= top[j].2
            &&& exists|row: Seq<(Seq<char>, u64)>|
                {
                    &&& #[trigger] row.to_multiset() == times.to_multiset()
                    &&& row.len() == times.len()
                    &&& forall|i: int|
                        0 <= i < top.len() ==> (#[trigger] top[i]).0 == row[i].0 && top[i].2
                            == row[i].1
                    &&& forall|i: int, j: int|
                        0 <= i < top.len() <= j < row.len() ==> (#[trigger] top[i]).2 >= (
                        #[trigger] row[j]).1
                }
        }),
{
    ranked_is_sorted(times);
    let row = ranked(times);
    let top = top_books(times, books, titles);
    broadcast use vstd::seq_lib::group_to_multiset_ensures;

    assert(row.len() == row.to_multiset().len());
    assert(times.len() == times.to_multiset().len());
    assert(row.to_multiset() == times.to_multiset());
    assert forall|i: int, j: int| 0 <= i <= j < top.len() implies top[i].2 >= top[j].2 by {
        assert(row[i].1 >= row[j].1);
    }
}

/// A listed book has its title from the shelf; one that is not on the shelf any more has the title
/// that was last recorded with its time.
pub proof fn a_title_comes_from_the_shelf_first(
    books: Seq<Shelved>,
    titles: Seq<(Seq<char>, Seq<char>)>,
    id: Seq<char>,
    i: int,
    k: int,
)
    ensures
        0 <= i < books.len() && books[i].id == id && (forall|j: int|
            0 <= j < i ==> (#[trigger] books[j]).id != id) ==> title_of(books, titles, id)
            == books[i].title,
        (forall|j: int| 0 <= j < books.len() ==> (#[trigger] books[j]).id != id) && 0 <= k
            < titles.len() && titles[k].0 == id && (forall|j: int|
            0 <= j < k ==> (#[trigger] titles[j]).0 != id) ==> title_of(books, titles, id)
            == titles[k].1,
{
    first_book_at(books, id, 0);
    place_of_is_first(titles, id, 0);
}

proof fn first_book_at(books: Seq<Shelved>, id: Seq<char>, i: int)
    requires
        0 <= i,
    ensures
        match book_place(books, id, i) {
            Some(k) => i <= k < books.len() && books[k].id == id && forall|j: int|
                i <= j < k ==> (#[trigger] books[j]).id != id,
            None => forall|j: int| i <= j < books.len() ==> (#[trigger] books[j]).id != id,
        },
    decreases books.len() - i,
{
    if i < books.len() && books[i].id != id {
        first_book_at(books, id, i + 1);
    }
}

// ---------------------------------------------------------------------------
// Genres and formats
// ---------------------------------------------------------------------------

/// How often a word stands in a list.
pub open spec fn times_in(list: Seq<Seq<char>>, word: Seq<char>) -> int
    decreases list.len(),
{
    if list.len() == 0 {
        0
    } else {
        times_in(list.drop_last(), word) + if list.last() == word {
            1int
        } else {
            0
        }
    }
}

/// The seconds that a book gives to a genre: an equal whole share for each time it is named, or all
/// to the word that says that there is none.
pub open spec fn genre_share(genres: Seq<Seq<char>>, seconds: int, genre: Seq<char>) -> int {
    if genres.len() > 0 {
        (seconds / genres.len() as int) * times_in(genres, genre)
    } else if genre == "未标注"@ {
        seconds
    } else {
        0
    }
}

proof fn shares_under(
    acc: Seq<(Seq<char>, u64)>,
    genres: Seq<Seq<char>>,
    share: int,
    n: int,
    genre: Seq<char>,
)
    requires
        0 <= n <= genres.len(),
        0 <= share,
        sum(acc) + share * genres.len() <= u64::MAX,
    ensures
        sum(shares_added(acc, genres, share, n)) == sum(acc) + share * n,
        under(shares_added(acc, genres, share, n), genre) == under(acc, genre) + share * times_in(
            genres.take(n),
            genre,
        ),
    decreases n,
{
    assert(share * n <= share * genres.len()) by (nonlinear_arith)
        requires
            n <= genres.len(),
            share >= 0,
    ;
    if n > 0 {
        shares_under(acc, genres, share, n - 1, genre);
        assert(share * n == share * (n - 1) + share) by (nonlinear_arith);
        let before = shares_added(acc, genres, share, n - 1);
        added_sum(before, genres[n - 1], share);
        added_under(before, genres[n - 1], share, genre);
        assert(genres.take(n).drop_last() =~= genres.take(n - 1));
        let a = times_in(genres.take(n - 1), genre);
        let b = if genres[n - 1] == genre {
            1int
        } else {
            0
        };
        assert(share * (a + b) == share * a + share * b) by (nonlinear_arith);
        assert(share * 1 == share && share * 0 == 0) by (nonlinear_arith);
    } else {
        assert(share * 0 == 0) by (nonlinear_arith);
    }
}

/// The time of a book is shared among its genres, and all of it goes to its format: what stands under
/// a genre or a format is what the books on the shelf give to it. Books that are not on the shelf
/// give nothing.
pub proof fn genres_and_formats_get_what_books_give(
    times: Seq<(Seq<char>, u64)>,
    books: Seq<Shelved>,
    n: int,
    name: Seq<char>,
)
    requires
        0 <= n <= times.len(),
        sum(times) <= u64::MAX,
    ensures
        under(by_genre(times, books, n), name) == sum_of(
            n,
            |k: int|
                match book_place(books, times[k].0, 0) {
                    Some(i) => genre_share(books[i].genres, times[k].1 as int, name),
                    None => 0,
                },
        ),
        under(by_format(times, books, n), name) == sum_of(
            n,
            |k: int|
                match book_place(books, times[k].0, 0) {
                    Some(i) => if format_word(books[i].format) == name {
                        times[k].1 as int
                    } else {
                        0
                    },
                    None => 0,
                },
        ),
        sum(by_genre(times, books, n)) <= sum(times.take(n)),
        sum(by_format(times, books, n)) <= sum(times.take(n)),
    decreases n,
{
    if n > 0 {
        genres_and_formats_get_what_books_give(times, books, n - 1, name);
        sum_bounds(times, n - 1);
        assert(times.take(n).drop_last() =~= times.take(n - 1));
        let seconds = times[n - 1].1 as int;
        if let Some(i) = book_place(books, times[n - 1].0, 0) {
            let g = books[i].genres;
            let acc = by_genre(times, books, n - 1);
            if g.len() == 0 {
                added_sum(acc, "未标注"@, seconds);
                added_under(acc, "未标注"@, seconds, name);
            } else {
                let share = seconds / g.len() as int;
                vstd::arithmetic::div_mod::lemma_fundamental_div_mod(seconds, g.len() as int);
                assert(share * g.len() == g.len() * (seconds / g.len() as int))
                    by (nonlinear_arith)
                    requires
                        share == seconds / g.len() as int,
                ;
                shares_under(acc, g, share, g.len() as int, name);
                assert(g.take(g.len() as int) =~= g);
            }
            let word = format_word(books[i].format);
            added_sum(by_format(times, books, n - 1), word, seconds);
            added_under(by_format(times, books, n - 1), word, seconds, name);
        }
    } else {
        assert(times.take(0) =~= Seq::empty());
    }
}

/// No two formats have the same word.
pub proof fn formats_have_words_of_their_own(a: BookFormat, b: BookFormat)
    requires
        format_word(a) == format_word(b),
    ensures
        a == b,
{
    reveal_strlit("epub");
    reveal_strlit("mobi");
    reveal_strlit("azw3");
    reveal_strlit("txt");
    reveal_strlit("markdown");
    reveal_strlit("fb2");
    reveal_strlit("cbz");
    reveal_strlit("pdf");
    let s = format_word(a);
    assert(s[0] == format_word(b)[0]);
    assert(s.len() == format_word(b).len());
    assert("epub"@[0] == 'e' && "mobi"@[0] == 'm' && "azw3"@[0] == 'a' && "txt"@[0] == 't');
    assert("markdown"@[0] == 'm' && "fb2"@[0] == 'f' && "cbz"@[0] == 'c' && "pdf"@[0] == 'p');
    assert("mobi"@.len() == 4 && "markdown"@.len() == 8);
}


// ---------------------------------------------------------------------------
// Hours
// ---------------------------------------------------------------------------

/// When the part that starts at the `i`-th clock ends: when the next one is read, or with the stretch.
pub open spec fn until(clocks: Seq<Option<Clock>>, e: int, i: int) -> int {
    if i + 1 < clocks.len() {
        clocks[i + 1].unwrap().at as int
    } else {
        e
    }
}

/// The seconds, from the `i`-th clock on, for which the clock shows an hour.
pub open spec fn shown_for(clocks: Seq<Option<Clock>>, e: int, hour: int, i: int) -> int
    decreases clocks.len() - i,
{
    if i < 0 || i >= clocks.len() {
        0
    } else if clocks[i].unwrap().hour == hour {
        until(clocks, e, i) - clocks[i].unwrap().at + shown_for(clocks, e, hour, i + 1)
    } else {
        shown_for(clocks, e, hour, i + 1)
    }
}

proof fn parts_lie_behind_one_another(t: int, e: int, clocks: Seq<Option<Clock>>, i: int)
    requires
        0 <= i <= clocks.len(),
        clocks_from(t, e, clocks, i),
        forall|k: int| 0 <= k < clocks.len() ==> (#[trigger] clocks[k]) is Some,
    ensures
        i < clocks.len() ==> clocks[i].unwrap().at == t && t < e,
        forall|k: int|
            i <= k < clocks.len() ==> {
                let c = (#[trigger] clocks[k]).unwrap();
                let into = c.minute * 60 + c.second + (until(clocks, e, k) - c.at);
                &&& c.at < until(clocks, e, k)
                &&& into <= 3600
                &&& k + 1 < clocks.len() ==> into == 3600
            },
    decreases clocks.len() - i,
{
    if i < clocks.len() {
        let c = clocks[i].unwrap();
        assert(clocks[i] is Some);
        assert(t < e);
        let mid = part_end(t, e, c);
        parts_lie_behind_one_another(mid, e, clocks, i + 1);
        assert(until(clocks, e, i) == mid);
    }
}

proof fn hours_grow(b: Seq<u64>, t: int, e: int, clocks: Seq<Option<Clock>>, i: int, hour: int)
    requires
        b.len() == 24,
        0 <= hour < 24,
        0 <= i <= clocks.len(),
        clocks_from(t, e, clocks, i),
        forall|k: int| 0 <= k < clocks.len() ==> (#[trigger] clocks[k]) is Some,
        forall|h: int| 0 <= h < 24 ==> #[trigger] b[h] + (e - t) <= u64::MAX,
        t <= e,
    ensures
        hours_added(b, t, e, clocks, i).len() == 24,
        hours_added(b, t, e, clocks, i)[hour] == b[hour] + shown_for(clocks, e, hour, i),
    decreases clocks.len() - i,
{
    if i < clocks.len() {
        assert(clocks[i] is Some);
        let c = clocks[i].unwrap();
        parts_lie_behind_one_another(t, e, clocks, i);
        let mid = part_end(t, e, c);
        assert(until(clocks, e, i) == mid) by {
            parts_lie_behind_one_another(mid, e, clocks, i + 1);
        }
        let grown = b.update(c.hour as int, (b[c.hour as int] + (mid - t)) as u64);
        hours_grow(grown, mid, e, clocks, i + 1, hour);
    }
}

/// A stretch counts for each hour of the day as long as the clock showed that hour: it is parted where the
/// clock goes on to the next hour, and nowhere else.
pub proof fn an_hour_has_what_the_clock_showed(
    b: Seq<u64>,
    s: Session,
    clocks: Seq<Option<Clock>>,
    hour: int,
)
    requires
        b.len() == 24,
        0 <= hour < 24,
        clocks_of(s, clocks),
        forall|k: int| 0 <= k < clocks.len() ==> (#[trigger] clocks[k]) is Some,
        forall|h: int| 0 <= h < 24 ==> #[trigger] b[h] + s.seconds <= u64::MAX,
    ensures
        hours_added(b, s.started_at as int, s.started_at + s.seconds, clocks, 0)[hour] == b[hour] + shown_for(
            clocks,
            s.started_at + s.seconds,
            hour,
            0,
        ),
        s.seconds > 0 ==> clocks.len() > 0 && clocks[0].unwrap().at == s.started_at,
        forall|k: int|
            0 <= k < clocks.len() ==> {
                let c = (#[trigger] clocks[k]).unwrap();
                let into = c.minute * 60 + c.second + (until(clocks, s.started_at + s.seconds, k) - c.at);
                into <= 3600 && (k + 1 < clocks.len() ==> into == 3600)
            },
{
    let e = s.started_at + s.seconds;
    hours_grow(b, s.started_at as int, e, clocks, 0, hour);
    parts_lie_behind_one_another(s.started_at as int, e, clocks, 0);
}

} // verus!
