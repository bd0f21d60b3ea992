//! The summary of all reading.
use vstd::prelude::*;
use crate::keyed::{
    add_time, added, added_sum, find_key, place_of, place_of_is_first, rank, ranked, sum,
    sum_bounds, sum_nonnegative, under,
};
use crate::model::{
    BookFormat, BookTimeStat, DailyPoint, Day, DayStat, NameValue, Session, SessionEntry, Shelf,
    ShelfBook, ShelfData, Shelved, Stats, StatsFile,
};
use crate::text::{chars_of, same};
use crate::views::{deep_empty, deep_push, take_push};

verus! {

// ---------------------------------------------------------------------------
// Dates and hours
// ---------------------------------------------------------------------------

/// The text of a day, the first of January of the year 1 being day 1.
pub uninterp spec fn day_text(day: int) -> Seq<char>;

/// The first day of the calendar: the first of January of the year -262143.
pub const FIRST_DAY: i32 = -95746129;

/// The last day of the calendar: the 31st of December of the year 262142.
pub const LAST_DAY: i32 = 95745399;

/// `chrono::NaiveDate::from_num_days_from_ce_opt` and its `format` as year, month and day with
/// hyphens. Within these bounds every number is a day of the calendar; its text has the name
/// `day_text`, and is that of no other of these days.
#[verifier::external_body]
pub(crate) fn write_day(day: i32) -> (r: String)
    requires
        FIRST_DAY <= day <= LAST_DAY,
    ensures
        r@ == day_text(day as int),
        forall|e: int|
            FIRST_DAY <= e <= LAST_DAY && e != day ==> #[trigger] day_text(e) != r@,
{
    let date = chrono::NaiveDate::from_num_days_from_ce_opt(day).expect("a day in range");
    date.format("%Y-%m-%d").to_string()
}

/// What a clock on the wall shows at a time.
#[derive(Debug, Clone, Copy, PartialEq, Eq, Structural)]
pub struct Clock {
    pub at: i64,
    pub hour: u32,
    pub minute: u32,
    pub second: u32,
}

/// The clock shows an hour of the day, a minute of the hour and a second of the minute.
pub open spec fn clock_ok(c: Clock) -> bool {
    c.hour < 24 && c.minute < 60 && c.second < 60
}

/// The first of January 1970, the first of January of the year 1 being day 1.
pub const EPOCH_DAY: i32 = 719163;

/// The day in Greenwich at a time, in seconds since the start of 1970.
pub open spec fn greenwich_day(t: int) -> int {
    EPOCH_DAY + t / 86400
}

/// The calendar reaches to a time.
pub open spec fn known_time(t: int) -> bool {
    FIRST_DAY <= greenwich_day(t) <= LAST_DAY
}

/// `chrono::Local`, asked for the time of the day at a time. A time to which the calendar reaches has
/// one clock, any other has none. The clock is that of the time that was asked for. What it shows
/// depends on the time zone of the machine and is not said.
#[verifier::external_body]
fn local_clock(timestamp: i64) -> (r: Option<Clock>)
    ensures
        r matches Some(c) ==> c.at == timestamp && clock_ok(c),
        r is Some <==> known_time(timestamp as int),
{
    let time = chrono::TimeZone::timestamp_opt(&chrono::Local, timestamp, 0).single()?;
    Some(Clock {
        at: time.timestamp(),
        hour: chrono::Timelike::hour(&time),
        minute: chrono::Timelike::minute(&time),
        second: chrono::Timelike::second(&time),
    })
}

/// The seconds read under a date.
pub open spec fn seconds_under(days: Seq<(Seq<char>, Day)>, date: Seq<char>) -> int {
    match place_of(days, date, 0) {
        Some(i) => days[i].1.total_seconds as int,
        None => 0,
    }
}

/// The seconds read on a day.
pub open spec fn seconds_on(days: Seq<(Seq<char>, Day)>, day: int) -> int {
    seconds_under(days, day_text(day))
}

/// The seconds read on `n` days up to and with `today`.
pub open spec fn seconds_back(days: Seq<(Seq<char>, Day)>, today: int, n: int) -> int
    decreases n,
{
    if n <= 0 {
        0
    } else {
        seconds_back(days, today, n - 1) + seconds_on(days, today - (n - 1))
    }
}

/// The text of a day is that of no other day of the calendar.
pub open spec fn stands_apart(day: int) -> bool {
    forall|e: int|
        FIRST_DAY <= e <= LAST_DAY && e != day ==> #[trigger] day_text(e) != day_text(day)
}

/// The days in a row, up to and with `day`, on which something was read.
pub open spec fn streak_up_to(days: Seq<(Seq<char>, Day)>, day: int) -> int
    decreases day - FIRST_DAY,
{
    if day <= FIRST_DAY || seconds_on(days, day) == 0 {
        0
    } else {
        1 + streak_up_to(days, day - 1)
    }
}

/// The days in a row on which something was read; today need not be one of them yet.
pub open spec fn streak(days: Seq<(Seq<char>, Day)>, today: int) -> int {
    if seconds_on(days, today) > 0 {
        streak_up_to(days, today)
    } else {
        streak_up_to(days, today - 1)
    }
}

/// Whether the day of today leaves room for a year before it.
pub open spec fn today_ok(today: i32) -> bool {
    FIRST_DAY + 365 <= today <= LAST_DAY
}

fn read_seconds_under(days: &Vec<(String, DayStat)>, date: &str) -> (r: u64)
    ensures
        r == seconds_under(days.deep_view(), date@),
{
    match find_key(days, date) {
        Some(i) => {
            assert(days.deep_view()[i as int] == days@[i as int].deep_view());
            days[i].1.total_seconds
        },
        None => 0,
    }
}

/// The seconds of all days.
pub open spec fn all_seconds(days: Seq<(Seq<char>, Day)>) -> int
    decreases days.len(),
{
    if days.len() == 0 {
        0
    } else {
        all_seconds(days.drop_last()) + days.last().1.total_seconds
    }
}

fn read_seconds_back(days: &Vec<(String, DayStat)>, today: i32, n: i32) -> (r: u64)
    requires
        today_ok(today),
        0 <= n <= 365,
        all_seconds(days.deep_view()) <= u64::MAX,
    ensures
        r == seconds_back(days.deep_view(), today as int, n as int),
        r <= all_seconds(days.deep_view()),
{
    let ghost dv = days.deep_view();
    let mut t: u64 = 0;
    let mut k: i32 = 0;
    proof {
        all_seconds_nonnegative(dv);
    }
    while k < n
        invariant
            today_ok(today),
            0 <= k <= n <= 365,
            dv == days.deep_view(),
            forall|d: int| today - k < d <= today ==> #[trigger] stands_apart(d),
            t == seconds_back(dv, today as int, k as int),
            t <= all_seconds(dv) <= u64::MAX,
        decreases n - k,
    {
        let d = write_day(today - k);
        proof {
            assert(stands_apart(today - k));
            no_day_counts_twice(dv, today as int, k + 1);
        }
        t = t + read_seconds_under(days, d.as_str());
        k = k + 1;
    }
    t
}

/// One more day in the list adds its seconds to those of some days in a row at most once.
proof fn one_day_more(days: Seq<(Seq<char>, Day)>, today: int, n: int)
    requires
        days.len() > 0,
        0 <= n,
        FIRST_DAY <= today - n,
        today <= LAST_DAY,
        forall|d: int| today - n < d <= today ==> #[trigger] stands_apart(d),
    ensures
        seconds_back(days, today, n) <= seconds_back(days.drop_last(), today, n)
            + days.last().1.total_seconds,
        (forall|d: int| today - n < d <= today ==> #[trigger] day_text(d) != days.last().0)
            ==> seconds_back(days, today, n) == seconds_back(days.drop_last(), today, n),
    decreases n,
{
    let fewer = days.drop_last();
    if n > 0 {
        one_day_more(days, today, n - 1);
        let day = today - (n - 1);
        let date = day_text(day);
        place_of_is_first(days, date, 0);
        place_of_is_first(fewer, date, 0);
        assert(stands_apart(day));
        match place_of(fewer, date, 0) {
            Some(k) => {
                assert(fewer[k] == days[k]);
                assert(days[place_of(days, date, 0)->Some_0].0 == date);
                let i = place_of(days, date, 0)->Some_0;
                if i < k {
                    assert(fewer[i] == days[i]);
                }
                assert(i == k);
            },
            None => {
                match place_of(days, date, 0) {
                    Some(i) => {
                        if i < fewer.len() {
                            assert(fewer[i] == days[i]);
                        }
                        assert(days[i] == days.last());
                        assert forall|d: int| today - (n - 1) < d <= today implies #[trigger] day_text(
                            d,
                        ) != days.last().0 by {
                            assert(FIRST_DAY <= d <= LAST_DAY && d != day);
                        }
                    },
                    None => {},
                }
            },
        }
    }
}

/// No day counts twice among days in a row: their seconds are no more than those of all days.
proof fn no_day_counts_twice(days: Seq<(Seq<char>, Day)>, today: int, n: int)
    requires
        0 <= n,
        FIRST_DAY <= today - n,
        today <= LAST_DAY,
        forall|d: int| today - n < d <= today ==> #[trigger] stands_apart(d),
    ensures
        seconds_back(days, today, n) <= all_seconds(days),
    decreases days.len(),
{
    if days.len() == 0 {
        nothing_back(days, today, n);
    } else {
        one_day_more(days, today, n);
        no_day_counts_twice(days.drop_last(), today, n);
    }
}

proof fn nothing_back(days: Seq<(Seq<char>, Day)>, today: int, n: int)
    requires
        days.len() == 0,
    ensures
        seconds_back(days, today, n) == 0,
    decreases n,
{
    if n > 0 {
        nothing_back(days, today, n - 1);
    }
}

proof fn back_grows(days: Seq<(Seq<char>, Day)>, today: int, k: int, n: int)
    requires
        0 <= k <= n,
    ensures
        0 <= seconds_back(days, today, k) <= seconds_back(days, today, n),
    decreases n,
{
    if n > 0 {
        if k < n {
            back_grows(days, today, k, n - 1);
        } else {
            back_grows(days, today, k - 1, n - 1);
        }
    }
}

fn read_streak(days: &Vec<(String, DayStat)>, today: i32) -> (r: u32)
    requires
        today_ok(today),
    ensures
        r == streak(days.deep_view(), today as int),
{
    let ghost dv = days.deep_view();
    let now = write_day(today);
    let first: i32 = if read_seconds_under(days, now.as_str()) > 0 {
        today
    } else {
        today - 1
    };
    let mut day: i32 = first;
    let mut n: u32 = 0;
    while day > FIRST_DAY
        invariant_except_break
            streak_up_to(dv, first as int) == n + streak_up_to(dv, day as int),
        invariant
            dv == days.deep_view(),
            FIRST_DAY <= day <= first <= LAST_DAY,
            n == first - day,
        ensures
            n == streak_up_to(dv, first as int),
        decreases day - FIRST_DAY,
    {
        let d = write_day(day);
        if read_seconds_under(days, d.as_str()) == 0 {
            break;
        }
        n = n + 1;
        day = day - 1;
    }
    n
}

/// The last 365 days, the oldest first, with the seconds read on each.
pub open spec fn daily_points(days: Seq<(Seq<char>, Day)>, today: int) -> Seq<(Seq<char>, u64)> {
    Seq::new(
        365,
        |i: int| (day_text(today - (364 - i)), seconds_on(days, today - (364 - i)) as u64),
    )
}

/// No two of the days have the same date.
pub open spec fn dates_differ(daily: Seq<DailyPoint>) -> bool {
    forall|i: int, j: int|
        0 <= i < j < daily.len() ==> (#[trigger] daily[i]).date@ != (#[trigger] daily[j]).date@
}

fn read_daily(days: &Vec<(String, DayStat)>, today: i32) -> (r: Vec<DailyPoint>)
    requires
        today_ok(today),
    ensures
        r.deep_view() == daily_points(days.deep_view(), today as int),
        dates_differ(r@),
{
    let ghost want = daily_points(days.deep_view(), today as int);
    let mut out: Vec<DailyPoint> = Vec::new();
    proof {
        deep_empty(out);
        assert(want.take(0) =~= Seq::empty());
    }
    let mut i: i32 = 0;
    while i < 365
        invariant
            today_ok(today),
            0 <= i <= 365,
            want == daily_points(days.deep_view(), today as int),
            out.deep_view() == want.take(i as int),
            out@.len() == i,
            forall|k: int| 0 <= k < i ==> (#[trigger] out@[k]).date@ == day_text(today - (364 - k)),
            dates_differ(out@),
        decreases 365 - i,
    {
        let date = write_day(today - (364 - i));
        let seconds = read_seconds_under(days, date.as_str());
        assert forall|k: int| 0 <= k < i implies (#[trigger] out@[k]).date@ != date@ by {
            assert(day_text(today - (364 - k)) != date@);
        }
        let point = DailyPoint { date, seconds };
        let ghost before = out;
        out.push(point);
        proof {
            deep_push(before, point, out);
            take_push(want, i as int);
        }
        i = i + 1;
    }
    assert(want.take(365) =~= want);
    out
}

// ---------------------------------------------------------------------------
// Days
// ---------------------------------------------------------------------------

/// How many days have any seconds.
pub open spec fn days_read(days: Seq<(Seq<char>, Day)>) -> int
    decreases days.len(),
{
    if days.len() == 0 {
        0
    } else {
        days_read(days.drop_last()) + if days.last().1.total_seconds > 0 {
            1int
        } else {
            0
        }
    }
}

/// The day with the most seconds, none where nothing was read; the last of several.
pub open spec fn peak(days: Seq<(Seq<char>, Day)>) -> Option<int>
    decreases days.len(),
{
    if days.len() == 0 {
        None
    } else {
        let before = peak(days.drop_last());
        let n = days.last().1.total_seconds;
        match before {
            Some(k) => if n > 0 && n >= days[k].1.total_seconds {
                Some(days.len() - 1)
            } else {
                before
            },
            None => if n > 0 {
                Some(days.len() - 1)
            } else {
                None
            },
        }
    }
}

/// The peak is a day that was read on, and no day was read on more.
pub proof fn peak_is_most(days: Seq<(Seq<char>, Day)>)
    ensures
        match peak(days) {
            Some(k) => 0 <= k < days.len() && days[k].1.total_seconds > 0 && forall|i: int|
                0 <= i < days.len() ==> (#[trigger] days[i]).1.total_seconds
                    <= days[k].1.total_seconds,
            None => forall|i: int| 0 <= i < days.len() ==> (#[trigger] days[i]).1.total_seconds
                == 0,
        },
    decreases days.len(),
{
    if days.len() > 0 {
        let d = days.drop_last();
        peak_is_most(d);
        assert forall|i: int| 0 <= i < d.len() implies #[trigger] days[i] == d[i] by {}
        match peak(d) {
            Some(k) => {
                assert(days[k] == d[k]);
            },
            None => {
                assert forall|i: int| 0 <= i < d.len() implies (
                #[trigger] days[i]).1.total_seconds == 0 by {
                    assert(d[i].1.total_seconds == 0);
                }
            },
        }
        match peak(days) {
            Some(m) => {
                assert forall|i: int| 0 <= i < days.len() implies (
                #[trigger] days[i]).1.total_seconds <= days[m].1.total_seconds by {
                    if i < d.len() {
                        assert(d[i].1.total_seconds == days[i].1.total_seconds);
                    }
                }
            },
            None => {},
        }
    }
}

/// What is counted over all days.
struct DayCounts {
    total: u64,
    read: u32,
    peak: Option<usize>,
}

proof fn all_seconds_step(days: Seq<(Seq<char>, Day)>, k: int)
    requires
        0 <= k < days.len(),
    ensures
        0 <= all_seconds(days.take(k)),
        all_seconds(days.take(k)) + days[k].1.total_seconds == all_seconds(days.take(k + 1)),
        all_seconds(days.take(k + 1)) <= all_seconds(days),
    decreases days.len() - k,
{
    assert(days.take(k + 1).drop_last() =~= days.take(k));
    all_seconds_nonnegative(days.take(k));
    if k + 1 < days.len() {
        all_seconds_step(days, k + 1);
    } else {
        assert(days.take(k + 1) =~= days);
    }
}

proof fn all_seconds_nonnegative(days: Seq<(Seq<char>, Day)>)
    ensures
        all_seconds(days) >= 0,
    decreases days.len(),
{
    if days.len() > 0 {
        all_seconds_nonnegative(days.drop_last());
    }
}

fn count_days(days: &Vec<(String, DayStat)>) -> (r: DayCounts)
    requires
        all_seconds(days.deep_view()) <= u64::MAX,
        days@.len() <= u32::MAX,
    ensures
        r.total == all_seconds(days.deep_view()),
        r.read == days_read(days.deep_view()),
        match r.peak {
            Some(k) => peak(days.deep_view()) == Some(k as int) && k < days@.len(),
            None => peak(days.deep_view()) is None,
        },
{
    let ghost dv = days.deep_view();
    let mut total: u64 = 0;
    let mut read: u32 = 0;
    let mut best: Option<usize> = None;
    let mut i: usize = 0;
    assert(dv.take(0) =~= Seq::empty());
    while i < days.len()
        invariant
            i <= days@.len() <= u32::MAX,
            dv == days.deep_view(),
            all_seconds(dv) <= u64::MAX,
            total == all_seconds(dv.take(i as int)),
            read == days_read(dv.take(i as int)),
            read <= i,
            match best {
                Some(k) => peak(dv.take(i as int)) == Some(k as int) && k < i,
                None => peak(dv.take(i as int)) is None,
            },
        decreases days@.len() - i,
    {
        let n = days[i].1.total_seconds;
        proof {
            all_seconds_step(dv, i as int);
            assert(dv.take(i + 1).drop_last() =~= dv.take(i as int));
            assert(dv[i as int] == days@[i as int].deep_view());
        }
        total = total + n;
        if n > 0 {
            read = read + 1;
            match best {
                Some(k) => {
                    assert(dv[k as int] == days@[k as int].deep_view());
                    if n >= days[k].1.total_seconds {
                        best = Some(i);
                    }
                },
                None => {
                    best = Some(i);
                },
            }
        }
        i = i + 1;
    }
    assert(dv.take(i as int) =~= dv);
    DayCounts { total, read, peak: best }
}

// ---------------------------------------------------------------------------
// Books
// ---------------------------------------------------------------------------

/// A list of times added up behind another, from the `k`-th on.
pub open spec fn all_added(
    acc: Seq<(Seq<char>, u64)>,
    list: Seq<(Seq<char>, u64)>,
    n: int,
) -> Seq<(Seq<char>, u64)>
    decreases n,
{
    if n <= 0 {
        acc
    } else {
        added(all_added(acc, list, n - 1), list[n - 1].0, list[n - 1].1 as int)
    }
}

/// The times of the books over all days, in the order in which the books first come.
pub open spec fn book_times(days: Seq<(Seq<char>, Day)>) -> Seq<(Seq<char>, u64)>
    decreases days.len(),
{
    if days.len() == 0 {
        Seq::empty()
    } else {
        let per = days.last().1.per_book;
        all_added(book_times(days.drop_last()), per, per.len() as int)
    }
}

/// The seconds of all books over all days.
pub open spec fn all_book_seconds(days: Seq<(Seq<char>, Day)>) -> int
    decreases days.len(),
{
    if days.len() == 0 {
        0
    } else {
        all_book_seconds(days.drop_last()) + sum(days.last().1.per_book)
    }
}

proof fn book_seconds_nonnegative(days: Seq<(Seq<char>, Day)>)
    ensures
        all_book_seconds(days) >= 0,
    decreases days.len(),
{
    if days.len() > 0 {
        book_seconds_nonnegative(days.drop_last());
        sum_nonnegative(days.last().1.per_book);
    }
}

proof fn book_seconds_step(days: Seq<(Seq<char>, Day)>, k: int)
    requires
        0 <= k < days.len(),
    ensures
        0 <= all_book_seconds(days.take(k)),
        all_book_seconds(days.take(k)) + sum(days[k].1.per_book) == all_book_seconds(
            days.take(k + 1),
        ),
        all_book_seconds(days.take(k + 1)) <= all_book_seconds(days),
    decreases days.len() - k,
{
    assert(days.take(k + 1).drop_last() =~= days.take(k));
    book_seconds_nonnegative(days.take(k));
    if k + 1 < days.len() {
        book_seconds_step(days, k + 1);
        sum_nonnegative(days[k + 1].1.per_book);
    } else {
        assert(days.take(k + 1) =~= days);
    }
}

proof fn all_added_sum(acc: Seq<(Seq<char>, u64)>, list: Seq<(Seq<char>, u64)>, n: int)
    requires
        0 <= n <= list.len(),
        sum(acc) + sum(list.take(n)) <= u64::MAX,
    ensures
        sum(all_added(acc, list, n)) == sum(acc) + sum(list.take(n)),
    decreases n,
{
    if n > 0 {
        assert(list.take(n).drop_last() =~= list.take(n - 1));
        all_added_sum(acc, list, n - 1);
        sum_nonnegative(acc);
        added_sum(all_added(acc, list, n - 1), list[n - 1].0, list[n - 1].1 as int);
    } else {
        assert(list.take(0) =~= Seq::empty());
    }
}

/// No second is lost or counted twice when the times of the books are added up.
pub proof fn book_times_keep_seconds(days: Seq<(Seq<char>, Day)>)
    requires
        all_book_seconds(days) <= u64::MAX,
    ensures
        sum(book_times(days)) == all_book_seconds(days),
    decreases days.len(),
{
    if days.len() > 0 {
        let per = days.last().1.per_book;
        sum_nonnegative(per);
        book_times_keep_seconds(days.drop_last());
        assert(per.take(per.len() as int) =~= per);
        all_added_sum(book_times(days.drop_last()), per, per.len() as int);
    }
}

fn add_times(acc: Vec<(String, u64)>, list: &Vec<(String, u64)>) -> (r: Vec<(String, u64)>)
    requires
        sum(acc.deep_view()) + sum(list.deep_view()) <= u64::MAX,
    ensures
        r.deep_view() == all_added(acc.deep_view(), list.deep_view(), list@.len() as int),
        sum(r.deep_view()) == sum(acc.deep_view()) + sum(list.deep_view()),
{
    let ghost a = acc.deep_view();
    let ghost l = list.deep_view();
    let mut out = acc;
    let mut i: usize = 0;
    assert(l.take(0) =~= Seq::empty());
    while i < list.len()
        invariant
            i <= list@.len(),
            l == list.deep_view(),
            sum(a) + sum(l) <= u64::MAX,
            out.deep_view() == all_added(a, l, i as int),
            sum(out.deep_view()) == sum(a) + sum(l.take(i as int)),
        decreases list@.len() - i,
    {
        proof {
            assert(l[i as int] == list@[i as int].deep_view());
            sum_bounds(l, i as int);
            under_bound(out.deep_view(), l[i as int].0);
            added_sum(out.deep_view(), l[i as int].0, l[i as int].1 as int);
            assert(l.take(i + 1).drop_last() =~= l.take(i as int));
        }
        add_time(&mut out, list[i].0.as_str(), list[i].1);
        i = i + 1;
    }
    assert(l.take(i as int) =~= l);
    out
}

proof fn under_bound(list: Seq<(Seq<char>, u64)>, key: Seq<char>)
    ensures
        0 <= under(list, key) <= sum(list),
{
    place_of_is_first(list, key, 0);
    sum_nonnegative(list);
    match place_of(list, key, 0) {
        Some(i) => {
            sum_bounds(list, i);
        },
        None => {},
    }
}

fn read_book_times(days: &Vec<(String, DayStat)>) -> (r: Vec<(String, u64)>)
    requires
        all_book_seconds(days.deep_view()) <= u64::MAX,
    ensures
        r.deep_view() == book_times(days.deep_view()),
        sum(r.deep_view()) == all_book_seconds(days.deep_view()),
{
    let ghost dv = days.deep_view();
    let mut out: Vec<(String, u64)> = Vec::new();
    proof {
        deep_empty(out);
        assert(dv.take(0) =~= Seq::empty());
    }
    let mut i: usize = 0;
    while i < days.len()
        invariant
            i <= days@.len(),
            dv == days.deep_view(),
            all_book_seconds(dv) <= u64::MAX,
            out.deep_view() == book_times(dv.take(i as int)),
            sum(out.deep_view()) == all_book_seconds(dv.take(i as int)),
        decreases days@.len() - i,
    {
        proof {
            book_seconds_step(dv, i as int);
            assert(dv.take(i + 1).drop_last() =~= dv.take(i as int));
            assert(dv[i as int] == days@[i as int].deep_view());
        }
        out = add_times(out, &days[i].1.per_book);
        i = i + 1;
    }
    assert(dv.take(i as int) =~= dv);
    out
}

/// The first book with an identifier, from the `i`-th on.
pub open spec fn book_place(books: Seq<Shelved>, id: Seq<char>, i: int) -> Option<int>
    decreases books.len() - i,
{
    if i < 0 || i >= books.len() {
        None
    } else if books[i].id == id {
        Some(i)
    } else {
        book_place(books, id, i + 1)
    }
}

/// The first book with an identifier.
pub fn find_book(books: &Vec<ShelfBook>, id: &str) -> (r: Option<usize>)
    ensures
        match r {
            Some(i) => book_place(books.deep_view(), id@, 0) == Some(i as int) && i < books@.len()
                && books@[i as int].id@ == id@,
            None => book_place(books.deep_view(), id@, 0) is None,
        },
{
    let k = chars_of(id);
    let mut i: usize = 0;
    while i < books.len()
        invariant
            i <= books@.len(),
            k@ == id@,
            book_place(books.deep_view(), id@, 0) == book_place(books.deep_view(), id@, i as int),
        decreases books@.len() - i,
    {
        let c = chars_of(books[i].id.as_str());
        assert(books.deep_view()[i as int] == books@[i as int].deep_view());
        if same(&c, &k) {
            return Some(i);
        }
        i = i + 1;
    }
    None
}

/// The title under which a book stands: that of the shelf, else the last one recorded.
pub open spec fn title_of(
    books: Seq<Shelved>,
    titles: Seq<(Seq<char>, Seq<char>)>,
    id: Seq<char>,
) -> Seq<char> {
    match book_place(books, id, 0) {
        Some(i) => books[i].title,
        None => match place_of(titles, id, 0) {
            Some(k) => titles[k].1,
            None => "未在书架的书籍"@,
        },
    }
}

/// The ten books that were read most, with their titles.
pub open spec fn top_books(
    times: Seq<(Seq<char>, u64)>,
    books: Seq<Shelved>,
    titles: Seq<(Seq<char>, Seq<char>)>,
) -> Seq<(Seq<char>, Seq<char>, u64)> {
    let r = ranked(times);
    let n = if r.len() < 10 {
        r.len()
    } else {
        10
    };
    Seq::new(n, |i: int| (r[i].0, title_of(books, titles, r[i].0), r[i].1))
}

fn read_title(books: &Vec<ShelfBook>, titles: &Vec<(String, String)>, id: &str) -> (r: String)
    ensures
        r@ == title_of(books.deep_view(), titles.deep_view(), id@),
{
    match find_book(books, id) {
        Some(i) => {
            assert(books.deep_view()[i as int] == books@[i as int].deep_view());
            books[i].title.clone()
        },
        None => match find_key(titles, id) {
            Some(k) => {
                assert(titles.deep_view()[k as int] == titles@[k as int].deep_view());
                titles[k].1.clone()
            },
            None => "未在书架的书籍".to_owned(),
        },
    }
}

fn read_top(
    times: &Vec<(String, u64)>,
    books: &Vec<ShelfBook>,
    titles: &Vec<(String, String)>,
) -> (r: Vec<BookTimeStat>)
    ensures
        r.deep_view() == top_books(times.deep_view(), books.deep_view(), titles.deep_view()),
{
    let ghost want = top_books(times.deep_view(), books.deep_view(), titles.deep_view());
    let order = rank(times);
    let n: usize = if order.len() < 10 {
        order.len()
    } else {
        10
    };
    let mut out: Vec<BookTimeStat> = Vec::new();
    proof {
        deep_empty(out);
        assert(want.take(0) =~= Seq::empty());
    }
    let mut i: usize = 0;
    while i < n
        invariant
            i <= n <= order@.len(),
            n == want.len(),
            order.deep_view() == ranked(times.deep_view()),
            want == top_books(times.deep_view(), books.deep_view(), titles.deep_view()),
            out.deep_view() == want.take(i as int),
        decreases n - i,
    {
        assert(order.deep_view()[i as int] == order@[i as int].deep_view());
        let item = BookTimeStat {
            book_id: order[i].0.clone(),
            title: read_title(books, titles, order[i].0.as_str()),
            seconds: order[i].1,
        };
        let ghost before = out;
        out.push(item);
        proof {
            deep_push(before, item, out);
            take_push(want, i as int);
        }
        i = i + 1;
    }
    assert(want.take(n as int) =~= want);
    out
}

// ---------------------------------------------------------------------------
// Distributions
// ---------------------------------------------------------------------------

/// The word for a format.
pub open spec fn format_word(f: BookFormat) -> Seq<char> {
    match f {
        BookFormat::Epub => "epub"@,
        BookFormat::Mobi => "mobi"@,
        BookFormat::Azw3 => "azw3"@,
        BookFormat::Txt => "txt"@,
        BookFormat::Markdown => "markdown"@,
        BookFormat::Fb2 => "fb2"@,
        BookFormat::Cbz => "cbz"@,
        BookFormat::Pdf => "pdf"@,
    }
}

/// The word for a format.
pub fn word_of_format(f: BookFormat) -> (r: &'static str)
    ensures
        r@ == format_word(f),
{
    match f {
        BookFormat::Epub => "epub",
        BookFormat::Mobi => "mobi",
        BookFormat::Azw3 => "azw3",
        BookFormat::Txt => "txt",
        BookFormat::Markdown => "markdown",
        BookFormat::Fb2 => "fb2",
        BookFormat::Cbz => "cbz",
        BookFormat::Pdf => "pdf",
    }
}

/// An equal share added under each of the first `n` genres.
pub open spec fn shares_added(
    acc: Seq<(Seq<char>, u64)>,
    genres: Seq<Seq<char>>,
    share: int,
    n: int,
) -> Seq<(Seq<char>, u64)>
    decreases n,
{
    if n <= 0 {
        acc
    } else {
        added(shares_added(acc, genres, share, n - 1), genres[n - 1], share)
    }
}

/// The time of a book added under its genres, in equal whole shares; under a word of its own
/// where it has none.
pub open spec fn genre_added(
    acc: Seq<(Seq<char>, u64)>,
    genres: Seq<Seq<char>>,
    seconds: int,
) -> Seq<(Seq<char>, u64)> {
    if genres.len() == 0 {
        added(acc, "未标注"@, seconds)
    } else {
        shares_added(acc, genres, seconds / genres.len() as int, genres.len() as int)
    }
}

/// The times of the first `n` books by genre; books that are not on the shelf do not count.
pub open spec fn by_genre(times: Seq<(Seq<char>, u64)>, books: Seq<Shelved>, n: int) -> Seq<
    (Seq<char>, u64),
>
    decreases n,
{
    if n <= 0 {
        Seq::empty()
    } else {
        let acc = by_genre(times, books, n - 1);
        match book_place(books, times[n - 1].0, 0) {
            Some(i) => genre_added(acc, books[i].genres, times[n - 1].1 as int),
            None => acc,
        }
    }
}

/// The times of the first `n` books by format; books that are not on the shelf do not count.
pub open spec fn by_format(times: Seq<(Seq<char>, u64)>, books: Seq<Shelved>, n: int) -> Seq<
    (Seq<char>, u64),
>
    decreases n,
{
    if n <= 0 {
        Seq::empty()
    } else {
        let acc = by_format(times, books, n - 1);
        match book_place(books, times[n - 1].0, 0) {
            Some(i) => added(acc, format_word(books[i].format), times[n - 1].1 as int),
            None => acc,
        }
    }
}

proof fn shares_added_sum(
    acc: Seq<(Seq<char>, u64)>,
    genres: Seq<Seq<char>>,
    share: int,
    n: int,
    all: int,
)
    requires
        0 <= n <= all,
        0 <= share,
        sum(acc) + share * all <= u64::MAX,
    ensures
        sum(shares_added(acc, genres, share, n)) == sum(acc) + share * n,
    decreases n,
{
    assert(share * n <= share * all) by (nonlinear_arith)
        requires
            n <= all,
            share >= 0,
    ;
    if n > 0 {
        shares_added_sum(acc, genres, share, n - 1, all);
        assert(share * n == share * (n - 1) + share) by (nonlinear_arith);
        added_sum(shares_added(acc, genres, share, n - 1), genres[n - 1], share);
    } else {
        assert(share * n == 0) by (nonlinear_arith)
            requires
                n == 0,
        ;
    }
}

/// The time of a book is parted among its genres and not counted for each of them: all genres
/// together have no more seconds than the books, and so have all formats.
pub proof fn genres_count_no_second_twice(times: Seq<(Seq<char>, u64)>, books: Seq<Shelved>, n: int)
    requires
        0 <= n <= times.len(),
        sum(times) <= u64::MAX,
    ensures
        sum(by_genre(times, books, n)) <= sum(times.take(n)),
        sum(by_format(times, books, n)) <= sum(times.take(n)),
    decreases n,
{
    if n > 0 {
        genres_count_no_second_twice(times, books, n - 1);
        sum_bounds(times, n - 1);
        assert(times.take(n).drop_last() =~= times.take(n - 1));
        let seconds = times[n - 1].1 as int;
        if let Some(i) = book_place(books, times[n - 1].0, 0) {
            let g = books[i].genres;
            let acc = by_genre(times, books, n - 1);
            if g.len() == 0 {
                added_sum(acc, "未标注"@, seconds);
            } else {
                let share = seconds / g.len() as int;
                vstd::arithmetic::div_mod::lemma_fundamental_div_mod(seconds, g.len() as int);
                assert(share * g.len() == g.len() * (seconds / g.len() as int))
                    by (nonlinear_arith)
                    requires
                        share == seconds / g.len() as int,
                ;
                shares_added_sum(acc, g, share, g.len() as int, g.len() as int);
            }
            added_sum(by_format(times, books, n - 1), format_word(books[i].format), seconds);
        }
    } else {
        assert(times.take(0) =~= Seq::empty());
    }
}

fn add_shares(acc: Vec<(String, u64)>, genres: &Vec<String>, share: u64) -> (r: Vec<(String, u64)>)
    requires
        sum(acc.deep_view()) + share * genres@.len() <= u64::MAX,
    ensures
        r.deep_view() == shares_added(
            acc.deep_view(),
            genres.deep_view(),
            share as int,
            genres@.len() as int,
        ),
        sum(r.deep_view()) == sum(acc.deep_view()) + share * genres@.len(),
{
    let ghost a = acc.deep_view();
    let ghost g = genres.deep_view();
    let mut out = acc;
    let mut i: usize = 0;
    while i < genres.len()
        invariant
            i <= genres@.len(),
            g == genres.deep_view(),
            sum(a) + share * genres@.len() <= u64::MAX,
            out.deep_view() == shares_added(a, g, share as int, i as int),
            sum(out.deep_view()) == sum(a) + share * i,
        decreases genres@.len() - i,
    {
        proof {
            assert(g[i as int] == genres@[i as int].deep_view());
            let n = genres@.len() as int;
            assert(share * (i + 1) == share * i + share) by (nonlinear_arith);
            assert(share * (i + 1) <= share * n) by (nonlinear_arith)
                requires
                    i + 1 <= n,
                    share >= 0,
            ;
            under_bound(out.deep_view(), g[i as int]);
            added_sum(out.deep_view(), g[i as int], share as int);
        }
        add_time(&mut out, genres[i].as_str(), share);
        i = i + 1;
    }
    out
}

fn add_genres(acc: Vec<(String, u64)>, genres: &Vec<String>, seconds: u64) -> (r: Vec<
    (String, u64),
>)
    requires
        sum(acc.deep_view()) + seconds <= u64::MAX,
    ensures
        r.deep_view() == genre_added(acc.deep_view(), genres.deep_view(), seconds as int),
        sum(r.deep_view()) <= sum(acc.deep_view()) + seconds,
{
    if genres.len() == 0 {
        let mut out = acc;
        proof {
            under_bound(out.deep_view(), "未标注"@);
            added_sum(out.deep_view(), "未标注"@, seconds as int);
        }
        add_time(&mut out, "未标注", seconds);
        out
    } else {
        let n = genres.len() as u64;
        let share = seconds / n;
        proof {
            vstd::arithmetic::div_mod::lemma_fundamental_div_mod(seconds as int, n as int);
            assert(share * n == n * (seconds / n)) by (nonlinear_arith)
                requires
                    share == seconds / n,
                    n > 0,
            ;
        }
        add_shares(acc, genres, share)
    }
}

struct Distributions {
    genres: Vec<(String, u64)>,
    formats: Vec<(String, u64)>,
}

fn read_distributions(times: &Vec<(String, u64)>, books: &Vec<ShelfBook>) -> (r: Distributions)
    requires
        sum(times.deep_view()) <= u64::MAX,
    ensures
        r.genres.deep_view() == by_genre(
            times.deep_view(),
            books.deep_view(),
            times@.len() as int,
        ),
        r.formats.deep_view() == by_format(
            times.deep_view(),
            books.deep_view(),
            times@.len() as int,
        ),
{
    let ghost t = times.deep_view();
    let ghost b = books.deep_view();
    let mut genres: Vec<(String, u64)> = Vec::new();
    let mut formats: Vec<(String, u64)> = Vec::new();
    proof {
        deep_empty(genres);
        deep_empty(formats);
        assert(t.take(0) =~= Seq::empty());
    }
    let mut i: usize = 0;
    while i < times.len()
        invariant
            i <= times@.len(),
            t == times.deep_view(),
            b == books.deep_view(),
            sum(t) <= u64::MAX,
            genres.deep_view() == by_genre(t, b, i as int),
            formats.deep_view() == by_format(t, b, i as int),
            sum(genres.deep_view()) <= sum(t.take(i as int)),
            sum(formats.deep_view()) <= sum(t.take(i as int)),
        decreases times@.len() - i,
    {
        proof {
            assert(t[i as int] == times@[i as int].deep_view());
            sum_bounds(t, i as int);
            assert(t.take(i + 1).drop_last() =~= t.take(i as int));
        }
        if let Some(k) = find_book(books, times[i].0.as_str()) {
            assert(b[k as int] == books@[k as int].deep_view());
            let seconds = times[i].1;
            genres = add_genres(genres, &books[k].genres, seconds);
            let word = word_of_format(books[k].format);
            proof {
                under_bound(formats.deep_view(), word@);
                added_sum(formats.deep_view(), word@, seconds as int);
            }
            add_time(&mut formats, word, seconds);
        }
        i = i + 1;
    }
    Distributions { genres, formats }
}

/// A ranked list, its first `most` entries at most.
pub open spec fn leading(list: Seq<(Seq<char>, u64)>, most: int) -> Seq<(Seq<char>, u64)> {
    let r = ranked(list);
    if r.len() <= most {
        r
    } else {
        r.take(most)
    }
}

fn name_values(list: &Vec<(String, u64)>, most: usize) -> (r: Vec<NameValue>)
    ensures
        r.deep_view() == leading(list.deep_view(), most as int),
{
    let order = rank(list);
    let ghost o = order.deep_view();
    let n: usize = if order.len() <= most {
        order.len()
    } else {
        most
    };
    let mut out: Vec<NameValue> = Vec::new();
    proof {
        deep_empty(out);
        assert(o.take(0) =~= Seq::empty());
    }
    let mut i: usize = 0;
    while i < n
        invariant
            i <= n <= order@.len(),
            o == order.deep_view(),
            out.deep_view() == o.take(i as int),
        decreases n - i,
    {
        assert(o[i as int] == order@[i as int].deep_view());
        let item = NameValue { name: order[i].0.clone(), value: order[i].1 };
        let ghost before = out;
        out.push(item);
        proof {
            deep_push(before, item, out);
            take_push(o, i as int);
        }
        i = i + 1;
    }
    assert(o.take(o.len() as int) =~= o);
    out
}

// ---------------------------------------------------------------------------
// Stretches of reading
// ---------------------------------------------------------------------------

/// The stretches of all days.
pub open spec fn all_sessions(days: Seq<(Seq<char>, Day)>) -> Seq<Session>
    decreases days.len(),
{
    if days.len() == 0 {
        Seq::empty()
    } else {
        all_sessions(days.drop_last()) + days.last().1.sessions
    }
}

/// How many stretches have any seconds.
pub open spec fn session_count(s: Seq<Session>) -> int
    decreases s.len(),
{
    if s.len() == 0 {
        0
    } else {
        session_count(s.drop_last()) + if s.last().seconds > 0 {
            1int
        } else {
            0
        }
    }
}

/// The seconds of all stretches.
pub open spec fn session_sum(s: Seq<Session>) -> int
    decreases s.len(),
{
    if s.len() == 0 {
        0
    } else {
        session_sum(s.drop_last()) + s.last().seconds
    }
}

/// The seconds of the longest stretch.
pub open spec fn session_max(s: Seq<Session>) -> int
    decreases s.len(),
{
    if s.len() == 0 {
        0
    } else {
        let m = session_max(s.drop_last());
        if s.last().seconds > m {
            s.last().seconds as int
        } else {
            m
        }
    }
}

/// The seconds since the hour on the clock began.
pub open spec fn into_hour(c: Clock) -> int {
    c.minute * 60 + c.second
}

/// Where the part of a stretch that starts at `t` ends, given what the clock shows then: with the
/// hour on the clock, or with the stretch.
pub open spec fn part_end(t: int, e: int, c: Clock) -> int {
    if e < t + 3600 - into_hour(c) {
        e
    } else {
        t + 3600 - into_hour(c)
    }
}

/// The buckets with the seconds from `t` to `e` put in, part by part, each into that of its
/// hour. What the clock shows at the start of each part is given from the `i`-th on; where that
/// is unknown it ends.
pub open spec fn hours_added(b: Seq<u64>, t: int, e: int, clocks: Seq<Option<Clock>>, i: int) -> Seq<
    u64,
>
    decreases clocks.len() - i,
{
    if t >= e || i < 0 || i >= clocks.len() {
        b
    } else {
        match clocks[i] {
            Some(c) => hours_added(
                b.update(c.hour as int, (b[c.hour as int] + (part_end(t, e, c) - t)) as u64),
                part_end(t, e, c),
                e,
                clocks,
                i + 1,
            ),
            None => b,
        }
    }
}

/// The clocks, from the `i`-th on, are those at the start of each part of the time from `t` to
/// `e`, up to the end or to the first that is unknown. A clock is known at a time to which the
/// calendar reaches, and at no other.
pub open spec fn clocks_from(t: int, e: int, clocks: Seq<Option<Clock>>, i: int) -> bool
    decreases clocks.len() - i,
{
    if t >= e {
        i == clocks.len()
    } else if i < 0 || i >= clocks.len() {
        false
    } else {
        match clocks[i] {
            Some(c) => c.at == t && known_time(t) && clock_ok(c) && clocks_from(
                part_end(t, e, c),
                e,
                clocks,
                i + 1,
            ),
            None => i + 1 == clocks.len() && !known_time(t),
        }
    }
}

/// The clocks of a stretch: one at the start of each of its parts, or up to the first that is
/// unknown.
pub open spec fn clocks_of(s: Session, clocks: Seq<Option<Clock>>) -> bool {
    clocks_from(s.started_at as int, s.started_at + s.seconds, clocks, 0)
}

/// The seconds of the stretches by the hour of the day, given the clocks of each.
pub open spec fn hour_buckets(s: Seq<Session>, clocks: Seq<Seq<Option<Clock>>>) -> Seq<u64>
    decreases s.len(),
{
    if s.len() == 0 {
        Seq::new(24, |i: int| 0u64)
    } else {
        let k = s.len() - 1;
        hours_added(
            hour_buckets(s.drop_last(), clocks),
            s[k].started_at as int,
            s[k].started_at + s[k].seconds,
            clocks[k],
            0,
        )
    }
}

/// The clocks are those of the stretches, one list for each.
pub open spec fn all_clocks_of(s: Seq<Session>, clocks: Seq<Seq<Option<Clock>>>) -> bool {
    clocks.len() == s.len() && forall|k: int|
        0 <= k < s.len() ==> clocks_of(#[trigger] s[k], clocks[k])
}

/// The times of the stretches can be added up.
pub open spec fn sessions_fit(s: Seq<Session>) -> bool {
    &&& session_sum(s) <= u64::MAX
    &&& forall|k: int|
        0 <= k < s.len() ==> (#[trigger] s[k]).started_at + s[k].seconds <= i64::MAX
}

/// The sum of the buckets.
pub open spec fn bucket_sum(b: Seq<u64>) -> int
    decreases b.len(),
{
    if b.len() == 0 {
        0
    } else {
        bucket_sum(b.drop_last()) + b.last()
    }
}

proof fn bucket_bound(b: Seq<u64>, i: int)
    requires
        0 <= i < b.len(),
    ensures
        0 <= b[i] <= bucket_sum(b),
    decreases b.len(),
{
    if i < b.len() - 1 {
        bucket_bound(b.drop_last(), i);
    } else {
        bucket_nonnegative(b.drop_last());
    }
}

proof fn bucket_nonnegative(b: Seq<u64>)
    ensures
        bucket_sum(b) >= 0,
    decreases b.len(),
{
    if b.len() > 0 {
        bucket_nonnegative(b.drop_last());
    }
}

proof fn bucket_update(b: Seq<u64>, i: int, v: u64)
    requires
        0 <= i < b.len(),
    ensures
        bucket_sum(b.update(i, v)) == bucket_sum(b) - b[i] + v,
    decreases b.len(),
{
    let u = b.update(i, v);
    if i == b.len() - 1 {
        assert(u.drop_last() =~= b.drop_last());
    } else {
        bucket_update(b.drop_last(), i, v);
        assert(u.drop_last() =~= b.drop_last().update(i, v));
    }
}

/// Where the part of a stretch that starts at `t` ends, and the next one starts, given what the
/// clock shows at `t`.
pub fn end_of_part(t: i64, e: i64, c: Clock) -> (r: i64)
    requires
        t < e,
        clock_ok(c),
    ensures
        r == part_end(t as int, e as int, c),
        t < r <= e,
        r - t <= 3600,
{
    let h: i128 = t as i128 + 3600 - (c.minute as i128 * 60 + c.second as i128);
    if (e as i128) < h {
        e
    } else {
        h as i64
    }
}

/// Asks what the clock shows at the start of each part of a stretch.
fn read_clocks(started_at: i64, seconds: u64) -> (r: Vec<Option<Clock>>)
    requires
        started_at + seconds <= i64::MAX,
    ensures
        clocks_from(started_at as int, started_at + seconds, r@, 0),
{
    let e: i64 = (started_at as i128 + seconds as i128) as i64;
    let mut t: i64 = started_at;
    let mut out: Vec<Option<Clock>> = Vec::new();
    while t < e
        invariant
            t <= e,
            e == started_at + seconds,
            forall|all: Seq<Option<Clock>>|
                all.len() >= out@.len() && all.take(out@.len() as int) == out@ && clocks_from(
                    t as int,
                    e as int,
                    all,
                    out@.len() as int,
                ) ==> #[trigger] clocks_from(started_at as int, e as int, all, 0),
        decreases e - t,
    {
        let ghost before = out@;
        let c = local_clock(t);
        out.push(c);
        match c {
            None => {
                assert(out@.take(before.len() as int) =~= before);
                assert(clocks_from(t as int, e as int, out@, before.len() as int));
                return out;
            },
            Some(c) => {
                let next = end_of_part(t, e, c);
                assert forall|all: Seq<Option<Clock>>|
                    all.len() >= out@.len() && all.take(out@.len() as int) == out@ && clocks_from(
                        next as int,
                        e as int,
                        all,
                        out@.len() as int,
                    ) implies #[trigger] clocks_from(started_at as int, e as int, all, 0) by {
                    assert(all.take(before.len() as int) =~= all.take(out@.len() as int).take(
                        before.len() as int,
                    ));
                    assert(out@.take(before.len() as int) =~= before);
                    assert(all[before.len() as int] == all.take(out@.len() as int)[before.len() as int]);
                    assert(clocks_from(t as int, e as int, all, before.len() as int));
                }
                t = next;
            },
        }
    }
    assert(out@.take(out@.len() as int) =~= out@);
    assert(clocks_from(t as int, e as int, out@, out@.len() as int));
    out
}

/// Puts the seconds of a stretch into the buckets of their hours.
fn add_hours(buckets: &mut Vec<u64>, started_at: i64, seconds: u64, clocks: &Vec<Option<Clock>>)
    requires
        old(buckets)@.len() == 24,
        started_at + seconds <= i64::MAX,
        bucket_sum(old(buckets)@) + seconds <= u64::MAX,
        clocks_from(started_at as int, started_at + seconds, clocks@, 0),
    ensures
        final(buckets)@.len() == 24,
        final(buckets)@ == hours_added(
            old(buckets)@,
            started_at as int,
            started_at + seconds,
            clocks@,
            0,
        ),
        bucket_sum(final(buckets)@) <= bucket_sum(old(buckets)@) + seconds,
{
    let e: i64 = (started_at as i128 + seconds as i128) as i64;
    let ghost first = buckets@;
    let mut t: i64 = started_at;
    let mut i: usize = 0;
    while t < e && i < clocks.len()
        invariant
            i <= clocks@.len(),
            started_at <= t <= e,
            e == started_at + seconds,
            first == old(buckets)@,
            buckets@.len() == 24,
            bucket_sum(first) + seconds <= u64::MAX,
            bucket_sum(buckets@) == bucket_sum(first) + (t - started_at),
            clocks_from(t as int, e as int, clocks@, i as int),
            hours_added(first, started_at as int, e as int, clocks@, 0) == hours_added(
                buckets@,
                t as int,
                e as int,
                clocks@,
                i as int,
            ),
        decreases e - t,
    {
        match clocks[i] {
            Some(c) => {
                assert(clocks@[i as int] == Some(c));
                let next = end_of_part(t, e, c);
                let h = c.hour;
                let had = buckets[h as usize];
                let gain: u64 = (next as i128 - t as i128) as u64;
                proof {
                    bucket_bound(buckets@, h as int);
                    bucket_update(buckets@, h as int, (had + gain) as u64);
                }
                buckets.set(h as usize, had + gain);
                t = next;
            },
            None => {
                return ;
            },
        }
        i = i + 1;
    }
}

/// What is counted over all stretches.
struct SessionCounts {
    count: u64,
    total: u64,
    longest: u64,
    buckets: Vec<u64>,
}

/// The stretches of all days, one behind the other.
fn list_sessions(days: &Vec<(String, DayStat)>) -> (r: Vec<&SessionEntry>)
    ensures
        deep_refs(r@) == all_sessions(days.deep_view()),
{
    let ghost dv = days.deep_view();
    let mut out: Vec<&SessionEntry> = Vec::new();
    assert(deep_refs(out@) =~= Seq::empty());
    assert(dv.take(0) =~= Seq::empty());
    let mut i: usize = 0;
    while i < days.len()
        invariant
            i <= days@.len(),
            dv == days.deep_view(),
            deep_refs(out@) == all_sessions(dv.take(i as int)),
        decreases days@.len() - i,
    {
        let list = &days[i].1.sessions;
        let ghost lv = list.deep_view();
        let ghost had = deep_refs(out@);
        assert(dv[i as int] == days@[i as int].deep_view());
        let mut k: usize = 0;
        assert(had + lv.take(0) =~= had);
        while k < list.len()
            invariant
                k <= list@.len(),
                lv == list.deep_view(),
                deep_refs(out@) == had + lv.take(k as int),
            decreases list@.len() - k,
        {
            let ghost before = out@;
            out.push(&list[k]);
            proof {
                take_push(lv, k as int);
                assert(deep_refs(out@) =~= deep_refs(before).push(lv[k as int]));
                assert((had + lv.take(k as int)).push(lv[k as int]) =~= had + lv.take(k + 1));
            }
            k = k + 1;
        }
        assert(lv.take(k as int) =~= lv);
        assert(dv.take(i + 1).drop_last() =~= dv.take(i as int));
        i = i + 1;
    }
    assert(dv.take(i as int) =~= dv);
    out
}

/// The deep views behind references.
pub open spec fn deep_refs(s: Seq<&SessionEntry>) -> Seq<Session> {
    Seq::new(s.len(), |i: int| s[i].deep_view())
}

proof fn session_step(s: Seq<Session>, k: int)
    requires
        0 <= k < s.len(),
    ensures
        0 <= session_sum(s.take(k)),
        session_sum(s.take(k + 1)) == session_sum(s.take(k)) + s[k].seconds,
        session_sum(s.take(k + 1)) <= session_sum(s),
        s.take(k + 1).drop_last() == s.take(k),
        s.take(k + 1).last() == s[k],
    decreases s.len() - k,
{
    assert(s.take(k + 1).drop_last() =~= s.take(k));
    session_sum_nonnegative(s.take(k));
    if k + 1 < s.len() {
        session_step(s, k + 1);
    } else {
        assert(s.take(k + 1) =~= s);
    }
}

proof fn session_sum_nonnegative(s: Seq<Session>)
    ensures
        session_sum(s) >= 0,
    decreases s.len(),
{
    if s.len() > 0 {
        session_sum_nonnegative(s.drop_last());
    }
}

/// Clocks as they are held in memory.
pub open spec fn clock_lists(v: Seq<Vec<Option<Clock>>>) -> Seq<Seq<Option<Clock>>> {
    Seq::new(v.len(), |i: int| v[i]@)
}

fn count_sessions(list: &Vec<&SessionEntry>, clocks: &Vec<Vec<Option<Clock>>>) -> (r: SessionCounts)
    requires
        sessions_fit(deep_refs(list@)),
        all_clocks_of(deep_refs(list@), clock_lists(clocks@)),
    ensures
        r.count == session_count(deep_refs(list@)),
        r.total == session_sum(deep_refs(list@)),
        r.longest == session_max(deep_refs(list@)),
        r.buckets@ == hour_buckets(deep_refs(list@), clock_lists(clocks@)),
{
    let ghost s = deep_refs(list@);
    let ghost hv = clock_lists(clocks@);
    let mut count: u64 = 0;
    let mut total: u64 = 0;
    let mut longest: u64 = 0;
    let mut buckets: Vec<u64> = Vec::new();
    let mut k: usize = 0;
    while k < 24
        invariant
            k <= 24,
            buckets@.len() == k,
            forall|m: int| 0 <= m < k ==> buckets@[m] == 0,
        decreases 24 - k,
    {
        buckets.push(0);
        k = k + 1;
    }
    proof {
        assert(buckets@ =~= Seq::new(24, |i: int| 0u64));
        zero_buckets(buckets@);
        assert(s.take(0) =~= Seq::empty());
    }
    let n = list.len();
    let mut i: usize = 0;
    while i < n
        invariant
            i <= n,
            n == list@.len(),
            s == deep_refs(list@),
            hv == clock_lists(clocks@),
            sessions_fit(s),
            all_clocks_of(s, hv),
            count == session_count(s.take(i as int)),
            count <= i,
            total == session_sum(s.take(i as int)),
            longest == session_max(s.take(i as int)),
            buckets@.len() == 24,
            buckets@ == hour_buckets(s.take(i as int), hv),
            bucket_sum(buckets@) <= total,
        decreases n - i,
    {
        let e = list[i];
        proof {
            session_step(s, i as int);
            assert(s[i as int] == e.deep_view());
            assert(clocks_of(s[i as int], hv[i as int]));
        }
        if e.seconds > 0 {
            count = count + 1;
        }
        if e.seconds > longest {
            longest = e.seconds;
        }
        add_hours(&mut buckets, e.started_at, e.seconds, &clocks[i]);
        total = total + e.seconds;
        assert(hour_buckets(s.take(i + 1), hv) == buckets@);
        i = i + 1;
    }
    assert(s.take(n as int) =~= s);
    SessionCounts { count, total, longest, buckets }
}

proof fn zero_buckets(b: Seq<u64>)
    requires
        forall|i: int| 0 <= i < b.len() ==> b[i] == 0,
    ensures
        bucket_sum(b) == 0,
    decreases b.len(),
{
    if b.len() > 0 {
        zero_buckets(b.drop_last());
    }
}

proof fn hours_added_keep_seconds(
    b: Seq<u64>,
    t: int,
    e: int,
    clocks: Seq<Option<Clock>>,
    i: int,
)
    requires
        b.len() == 24,
        0 <= i <= clocks.len(),
        t <= e,
        clocks_from(t, e, clocks, i),
        bucket_sum(b) + (e - t) <= u64::MAX,
        forall|k: int| 0 <= k < clocks.len() ==> (#[trigger] clocks[k]) is Some,
    ensures
        hours_added(b, t, e, clocks, i).len() == 24,
        bucket_sum(hours_added(b, t, e, clocks, i)) == bucket_sum(b) + (e - t),
    decreases clocks.len() - i,
{
    if t < e {
        let c = clocks[i]->Some_0;
        let h = c.hour as int;
        bucket_bound(b, h);
        let v = (b[h] + (part_end(t, e, c) - t)) as u64;
        bucket_update(b, h, v);
        hours_added_keep_seconds(b.update(h, v), part_end(t, e, c), e, clocks, i + 1);
    }
}

proof fn first_hours_keep_seconds(s: Seq<Session>, clocks: Seq<Seq<Option<Clock>>>, k: int)
    requires
        0 <= k <= s.len(),
        sessions_fit(s),
        all_clocks_of(s, clocks),
        forall|j: int, i: int|
            0 <= j < s.len() && 0 <= i < clocks[j].len() ==> (#[trigger] clocks[j][i]) is Some,
    ensures
        hour_buckets(s.take(k), clocks).len() == 24,
        bucket_sum(hour_buckets(s.take(k), clocks)) == session_sum(s.take(k)),
    decreases k,
{
    if k == 0 {
        zero_buckets(hour_buckets(s.take(0), clocks));
    } else {
        first_hours_keep_seconds(s, clocks, k - 1);
        session_step(s, k - 1);
        assert(s.take(k).drop_last() =~= s.take(k - 1));
        let x = s[k - 1];
        assert(clocks_of(x, clocks[k - 1]));
        hours_added_keep_seconds(
            hour_buckets(s.take(k - 1), clocks),
            x.started_at as int,
            x.started_at + x.seconds,
            clocks[k - 1],
            0,
        );
    }
}

/// Every second of reading falls into an hour of the day: where the clocks are known, the seconds
/// of all buckets are those of all stretches.
pub proof fn hours_keep_seconds(s: Seq<Session>, clocks: Seq<Seq<Option<Clock>>>)
    requires
        sessions_fit(s),
        all_clocks_of(s, clocks),
        forall|j: int, i: int|
            0 <= j < s.len() && 0 <= i < clocks[j].len() ==> (#[trigger] clocks[j][i]) is Some,
    ensures
        bucket_sum(hour_buckets(s, clocks)) == session_sum(s),
{
    first_hours_keep_seconds(s, clocks, s.len() as int);
    assert(s.take(s.len() as int) =~= s);
}

/// The calendar reaches to the start and to the end of each stretch.
pub open spec fn times_known(s: Seq<Session>) -> bool {
    forall|k: int|
        0 <= k < s.len() ==> known_time((#[trigger] s[k]).started_at as int) && known_time(
            s[k].started_at + s[k].seconds,
        )
}

proof fn known_times_have_clocks(t: int, e: int, clocks: Seq<Option<Clock>>, i: int)
    requires
        0 <= i <= clocks.len(),
        known_time(t),
        known_time(e),
        clocks_from(t, e, clocks, i),
    ensures
        forall|k: int| i <= k < clocks.len() ==> (#[trigger] clocks[k]) is Some,
    decreases clocks.len() - i,
{
    if t < e {
        known_times_have_clocks(part_end(t, e, clocks[i]->Some_0), e, clocks, i + 1);
    }
}

/// Every second of reading falls into an hour of the day: where the calendar reaches to the
/// stretches, the seconds of all buckets are those of all stretches.
pub proof fn known_times_keep_seconds(s: Seq<Session>, clocks: Seq<Seq<Option<Clock>>>)
    requires
        sessions_fit(s),
        all_clocks_of(s, clocks),
        times_known(s),
    ensures
        bucket_sum(hour_buckets(s, clocks)) == session_sum(s),
{
    assert forall|j: int, i: int|
        0 <= j < s.len() && 0 <= i < clocks[j].len() implies (#[trigger] clocks[j][i]) is Some by {
        assert(clocks_of(s[j], clocks[j]));
        known_times_have_clocks(
            s[j].started_at as int,
            s[j].started_at + s[j].seconds,
            clocks[j],
            0,
        );
    }
    hours_keep_seconds(s, clocks);
}

/// A part of a stretch stays within one hour of the clock: it goes no further than the sixty
/// minutes that began when the clock last showed a whole hour.
pub proof fn a_part_stays_in_its_hour(t: int, e: int, c: Clock)
    requires
        t < e,
        clock_ok(c),
    ensures
        t < part_end(t, e, c) <= e,
        into_hour(c) + (part_end(t, e, c) - t) <= 3600,
        part_end(t, e, c) < e ==> into_hour(c) + (part_end(t, e, c) - t) == 3600,
{
}

/// Asks for the clocks of all stretches.
fn read_all_clocks(list: &Vec<&SessionEntry>) -> (r: Vec<Vec<Option<Clock>>>)
    requires
        sessions_fit(deep_refs(list@)),
    ensures
        all_clocks_of(deep_refs(list@), clock_lists(r@)),
{
    let ghost s = deep_refs(list@);
    let mut out: Vec<Vec<Option<Clock>>> = Vec::new();
    let mut i: usize = 0;
    while i < list.len()
        invariant
            i <= list@.len(),
            s == deep_refs(list@),
            sessions_fit(s),
            out@.len() == i,
            forall|k: int| 0 <= k < i ==> clocks_of(#[trigger] s[k], clock_lists(out@)[k]),
        decreases list@.len() - i,
    {
        let e = list[i];
        assert(s[i as int] == e.deep_view());
        let clocks = read_clocks(e.started_at, e.seconds);
        let ghost before = out@;
        out.push(clocks);
        assert forall|k: int| 0 <= k < i + 1 implies clocks_of(
            #[trigger] s[k],
            clock_lists(out@)[k],
        ) by {
            if k < i {
                assert(clock_lists(out@)[k] == clock_lists(before)[k]);
            }
        }
        i = i + 1;
    }
    out
}

// ---------------------------------------------------------------------------
// The whole
// ---------------------------------------------------------------------------

/// What the summary is given from elsewhere: how many notes and bookmarks there are, the
/// characters read, and the bits of the reading speed, a number of double precision.
#[derive(Clone, Copy)]
pub struct Counted {
    pub note_count: u64,
    pub bookmark_count: u64,
    pub total_chars_read: u64,
    pub avg_speed_bits: Option<u64>,
}

/// The summary of all reading.
pub struct StatsSummary {
    pub today_seconds: u64,
    pub week_seconds: u64,
    pub month_seconds: u64,
    pub total_seconds: u64,
    pub daily: Vec<DailyPoint>,
    pub top_books: Vec<BookTimeStat>,
    pub book_count: usize,
    pub finished_count: usize,
    pub streak_days: u32,
    pub total_read_days: u32,
    pub peak_day_seconds: u64,
    pub peak_day_date: Option<String>,
    pub avg_daily_30: u64,
    pub hour_buckets: Vec<u64>,
    pub session_count: u64,
    pub avg_session_seconds: u64,
    pub max_session_seconds: u64,
    pub genre_dist: Vec<NameValue>,
    pub format_dist: Vec<NameValue>,
    pub counted: Counted,
}

/// `StatsSummary` over sequences.
#[verifier::ext_equal]
pub struct Summary {
    pub today_seconds: int,
    pub week_seconds: int,
    pub month_seconds: int,
    pub total_seconds: int,
    pub daily: Seq<(Seq<char>, u64)>,
    pub top_books: Seq<(Seq<char>, Seq<char>, u64)>,
    pub book_count: int,
    pub finished_count: int,
    pub streak_days: int,
    pub total_read_days: int,
    pub peak_day_seconds: int,
    pub peak_day_date: Option<Seq<char>>,
    pub avg_daily_30: int,
    pub hour_buckets: Seq<u64>,
    pub session_count: int,
    pub avg_session_seconds: int,
    pub max_session_seconds: int,
    pub genre_dist: Seq<(Seq<char>, u64)>,
    pub format_dist: Seq<(Seq<char>, u64)>,
    pub counted: Counted,
}

impl DeepView for StatsSummary {
    type V = Summary;

    open spec fn deep_view(&self) -> Summary {
        Summary {
            today_seconds: self.today_seconds as int,
            week_seconds: self.week_seconds as int,
            month_seconds: self.month_seconds as int,
            total_seconds: self.total_seconds as int,
            daily: self.daily.deep_view(),
            top_books: self.top_books.deep_view(),
            book_count: self.book_count as int,
            finished_count: self.finished_count as int,
            streak_days: self.streak_days as int,
            total_read_days: self.total_read_days as int,
            peak_day_seconds: self.peak_day_seconds as int,
            peak_day_date: self.peak_day_date.deep_view(),
            avg_daily_30: self.avg_daily_30 as int,
            hour_buckets: self.hour_buckets@,
            session_count: self.session_count as int,
            avg_session_seconds: self.avg_session_seconds as int,
            max_session_seconds: self.max_session_seconds as int,
            genre_dist: self.genre_dist.deep_view(),
            format_dist: self.format_dist.deep_view(),
            counted: self.counted,
        }
    }
}

/// How many books are read to the end.
pub open spec fn finished_books(books: Seq<Shelved>) -> int
    decreases books.len(),
{
    if books.len() == 0 {
        0
    } else {
        finished_books(books.drop_last()) + if books.last().finished {
            1int
        } else {
            0
        }
    }
}

/// The summary of the statistics and the shelf on the day `today`, given the clocks of the
/// stretches of reading.
pub open spec fn summary(
    s: Stats,
    shelf: Shelf,
    today: int,
    clocks: Seq<Seq<Option<Clock>>>,
    counted: Counted,
) -> Summary {
    let times = book_times(s.days);
    let sessions = all_sessions(s.days);
    let month = seconds_back(s.days, today, 30);
    Summary {
        today_seconds: seconds_on(s.days, today),
        week_seconds: seconds_back(s.days, today, 7),
        month_seconds: month,
        total_seconds: all_seconds(s.days),
        daily: daily_points(s.days, today),
        top_books: top_books(times, shelf.books, s.book_titles),
        book_count: shelf.books.len() as int,
        finished_count: finished_books(shelf.books),
        streak_days: streak(s.days, today),
        total_read_days: days_read(s.days),
        peak_day_seconds: match peak(s.days) {
            Some(k) => s.days[k].1.total_seconds as int,
            None => 0,
        },
        peak_day_date: match peak(s.days) {
            Some(k) => Some(s.days[k].1.date),
            None => None,
        },
        avg_daily_30: month / 30,
        hour_buckets: hour_buckets(sessions, clocks),
        session_count: session_count(sessions),
        avg_session_seconds: if session_count(sessions) > 0 {
            session_sum(sessions) / session_count(sessions)
        } else {
            0
        },
        max_session_seconds: session_max(sessions),
        genre_dist: leading(by_genre(times, shelf.books, times.len() as int), 10),
        format_dist: ranked(by_format(times, shelf.books, times.len() as int)),
        counted,
    }
}

/// The seconds of the statistics can be added up in sixty-four bits, and the days are no more
/// than thirty-two bits can count.
pub open spec fn stats_fit(s: Stats) -> bool {
    &&& all_seconds(s.days) <= u64::MAX
    &&& all_book_seconds(s.days) <= u64::MAX
    &&& sessions_fit(all_sessions(s.days))
    &&& s.days.len() <= u32::MAX
}

fn count_finished(books: &Vec<ShelfBook>) -> (r: usize)
    ensures
        r == finished_books(books.deep_view()),
{
    let ghost b = books.deep_view();
    let mut n: usize = 0;
    let mut i: usize = 0;
    assert(b.take(0) =~= Seq::empty());
    while i < books.len()
        invariant
            i <= books@.len(),
            b == books.deep_view(),
            n <= i,
            n == finished_books(b.take(i as int)),
        decreases books@.len() - i,
    {
        assert(b.take(i + 1).drop_last() =~= b.take(i as int));
        assert(b[i as int] == books@[i as int].deep_view());
        if books[i].finished {
            n = n + 1;
        }
        i = i + 1;
    }
    assert(b.take(i as int) =~= b);
    n
}

/// The summary, given the clocks of the stretches of reading in the order of the days.
pub fn summarize(
    stats: &StatsFile,
    shelf: &ShelfData,
    today: i32,
    clocks: &Vec<Vec<Option<Clock>>>,
    counted: Counted,
) -> (r: StatsSummary)
    requires
        today_ok(today),
        stats_fit(stats.deep_view()),
        all_clocks_of(all_sessions(stats.deep_view().days), clock_lists(clocks@)),
    ensures
        r.deep_view() == summary(
            stats.deep_view(),
            shelf.deep_view(),
            today as int,
            clock_lists(clocks@),
            counted,
        ),
        r.today_seconds <= r.week_seconds <= r.month_seconds <= r.total_seconds,
        dates_differ(r.daily@),
{
    let ghost dv = stats.days.deep_view();
    let now = write_day(today);
    proof {
        back_grows(dv, today as int, 7, 30);
        back_grows(dv, today as int, 1, 7);
        assert(seconds_back(dv, today as int, 0) == 0);
        assert(seconds_back(dv, today as int, 1) == seconds_on(dv, today as int));
    }
    let month_seconds = read_seconds_back(&stats.days, today, 30);
    let days = count_days(&stats.days);
    let times = read_book_times(&stats.days);
    let dist = read_distributions(&times, &shelf.books);
    let sessions = list_sessions(&stats.days);
    let counts = count_sessions(&sessions, clocks);
    let (peak_day_seconds, peak_day_date): (u64, Option<String>) = match days.peak {
        Some(k) => {
            assert(dv[k as int] == stats.days@[k as int].deep_view());
            (stats.days[k].1.total_seconds, Some(stats.days[k].1.date.clone()))
        },
        None => (0, None),
    };
    let avg_session_seconds: u64 = if counts.count > 0 {
        counts.total / counts.count
    } else {
        0
    };
    let _all = dist.formats.len();
    let format_dist = name_values(&dist.formats, usize::MAX);
    proof {
        ranked_len(dist.formats.deep_view());
    }
    let r = StatsSummary {
        today_seconds: read_seconds_under(&stats.days, now.as_str()),
        week_seconds: read_seconds_back(&stats.days, today, 7),
        month_seconds,
        total_seconds: days.total,
        daily: read_daily(&stats.days, today),
        top_books: read_top(&times, &shelf.books, &stats.book_titles),
        book_count: shelf.books.len(),
        finished_count: count_finished(&shelf.books),
        streak_days: read_streak(&stats.days, today),
        total_read_days: days.read,
        peak_day_seconds,
        peak_day_date,
        avg_daily_30: month_seconds / 30,
        hour_buckets: counts.buckets,
        session_count: counts.count,
        avg_session_seconds,
        max_session_seconds: counts.longest,
        genre_dist: name_values(&dist.genres, 10),
        format_dist,
        counted,
    };
    assert(r.deep_view() =~= summary(
        stats.deep_view(),
        shelf.deep_view(),
        today as int,
        clock_lists(clocks@),
        counted,
    ));
    r
}

proof fn ranked_len(s: Seq<(Seq<char>, u64)>)
    ensures
        ranked(s).len() == s.len(),
    decreases s.len(),
{
    if s.len() > 0 {
        ranked_len(s.drop_last());
        with_ranked_len(ranked(s.drop_last()), s.last());
    }
}

proof fn with_ranked_len(s: Seq<(Seq<char>, u64)>, x: (Seq<char>, u64))
    ensures
        crate::keyed::with_ranked(s, x).len() == s.len() + 1,
    decreases s.len(),
{
    if s.len() > 0 && s.last().1 < x.1 {
        with_ranked_len(s.drop_last(), x);
    }
}

/// The summary of all reading on the day `today`. What the clock shows comes from the time
/// zone of the machine; it is asked at the start of each part of a stretch, and the seconds of the
/// part go to the hour that it shows.
pub fn get_reading_stats(stats: &StatsFile, shelf: &ShelfData, today: i32, counted: Counted) -> (r:
    StatsSummary)
    requires
        today_ok(today),
        stats_fit(stats.deep_view()),
    ensures
        exists|clocks: Seq<Seq<Option<Clock>>>|
            all_clocks_of(all_sessions(stats.deep_view().days), clocks) && r.deep_view()
                == #[trigger] summary(
                stats.deep_view(),
                shelf.deep_view(),
                today as int,
                clocks,
                counted,
            ),
        r.today_seconds <= r.week_seconds <= r.month_seconds <= r.total_seconds,
        dates_differ(r.daily@),
        times_known(all_sessions(stats.deep_view().days)) ==> bucket_sum(r.hour_buckets@)
            == session_sum(all_sessions(stats.deep_view().days)),
{
    let ghost s = all_sessions(stats.deep_view().days);
    let sessions = list_sessions(&stats.days);
    let clocks = read_all_clocks(&sessions);
    proof {
        if times_known(s) {
            known_times_keep_seconds(s, clock_lists(clocks@));
        }
    }
    summarize(stats, shelf, today, &clocks, counted)
}

// ---------------------------------------------------------------------------
// Whether it can be done
// ---------------------------------------------------------------------------

/// The sum of a list, where it fits.
fn checked_total(list: &Vec<(String, u64)>, start: u64) -> (r: Option<u64>)
    ensures
        match r {
            Some(t) => t == start + sum(list.deep_view()),
            None => start + sum(list.deep_view()) > u64::MAX,
        },
{
    let ghost l = list.deep_view();
    let mut t: u64 = start;
    let mut i: usize = 0;
    assert(l.take(0) =~= Seq::empty());
    while i < list.len()
        invariant
            i <= list@.len(),
            l == list.deep_view(),
            t == start + sum(l.take(i as int)),
        decreases list@.len() - i,
    {
        proof {
            sum_bounds(l, i as int);
            assert(l[i as int] == list@[i as int].deep_view());
            assert(l.take(i + 1).drop_last() =~= l.take(i as int));
        }
        if list[i].1 > u64::MAX - t {
            return None;
        }
        t = t + list[i].1;
        i = i + 1;
    }
    assert(l.take(i as int) =~= l);
    Some(t)
}

fn days_can_be_added(days: &Vec<(String, DayStat)>) -> (r: bool)
    ensures
        r == (all_seconds(days.deep_view()) <= u64::MAX && all_book_seconds(days.deep_view())
            <= u64::MAX),
{
    let ghost dv = days.deep_view();
    let mut t: u64 = 0;
    let mut b: u64 = 0;
    let mut i: usize = 0;
    assert(dv.take(0) =~= Seq::empty());
    while i < days.len()
        invariant
            i <= days@.len(),
            dv == days.deep_view(),
            t == all_seconds(dv.take(i as int)),
            b == all_book_seconds(dv.take(i as int)),
        decreases days@.len() - i,
    {
        proof {
            all_seconds_step(dv, i as int);
            book_seconds_step(dv, i as int);
            assert(dv[i as int] == days@[i as int].deep_view());
        }
        let day = &days[i].1;
        if day.total_seconds > u64::MAX - t {
            return false;
        }
        t = t + day.total_seconds;
        match checked_total(&day.per_book, b) {
            Some(next) => {
                b = next;
            },
            None => {
                return false;
            },
        }
        i = i + 1;
    }
    assert(dv.take(i as int) =~= dv);
    true
}

fn sessions_can_be_added(list: &Vec<&SessionEntry>) -> (r: bool)
    ensures
        r == sessions_fit(deep_refs(list@)),
{
    let ghost s = deep_refs(list@);
    let mut t: u64 = 0;
    let mut i: usize = 0;
    assert(s.take(0) =~= Seq::empty());
    while i < list.len()
        invariant
            i <= list@.len(),
            s == deep_refs(list@),
            t == session_sum(s.take(i as int)),
            forall|k: int|
                0 <= k < i ==> (#[trigger] s[k]).started_at + s[k].seconds <= i64::MAX,
        decreases list@.len() - i,
    {
        let e = list[i];
        proof {
            session_step(s, i as int);
            assert(s[i as int] == e.deep_view());
        }
        if e.seconds > u64::MAX - t {
            return false;
        }
        if e.started_at as i128 + e.seconds as i128 > i64::MAX as i128 {
            return false;
        }
        t = t + e.seconds;
        i = i + 1;
    }
    assert(s.take(i as int) =~= s);
    true
}

/// Whether a summary of the statistics can be made: their seconds can be added up.
pub fn can_summarize(stats: &StatsFile, today: i32) -> (r: bool)
    ensures
        r == (today_ok(today) && stats_fit(stats.deep_view())),
{
    if today < FIRST_DAY + 365 || today > LAST_DAY {
        return false;
    }
    let sessions = list_sessions(&stats.days);
    stats.days.len() as u64 <= u32::MAX as u64 && days_can_be_added(&stats.days)
        && sessions_can_be_added(&sessions)
}

} // verus!
