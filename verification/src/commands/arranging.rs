//! What arranging the shelf changes, and what it leaves as it was.
use vstd::prelude::*;
use crate::commands::shelf::{
    books_without, categories_without, changed, comes_before, has_category, highest, kept_genres,
    new_category, on_shelf, place_is_first, progressed, rank_bounds, rank_grows, rating_outcome,
    reordered, shelved, text_place, text_place_first, with_opened, without_category,
};
use crate::commands::summary::book_place;
use crate::model::{Category, Shelf, Shelved};
use crate::text::trimmed;

verus! {

// ---------------------------------------------------------------------------
// Books
// ---------------------------------------------------------------------------

/// Progress that is saved is what the book then has: where it is, whether it is at its end, and when it
/// was read last. The first arrival at the end is dated and counted. Nothing else changes.
pub proof fn progress_is_what_was_saved(b: Shelved, percent_bits: u32, at_end: bool, now: i64)
    ensures
        ({
            let a = progressed(b, percent_bits, at_end, now);
            &&& a.percent_bits == percent_bits
            &&& a.finished == at_end
            &&& a.last_read_at == now
            &&& at_end && !b.finished ==> a.finished_at == Some(now)
            &&& at_end && !b.finished && b.finished_times < u32::MAX ==> a.finished_times
                == b.finished_times + 1
            &&& !at_end || b.finished ==> a.finished_at == b.finished_at && a.finished_times
                == b.finished_times
            &&& a == Shelved {
                percent_bits: a.percent_bits,
                finished: a.finished,
                last_read_at: a.last_read_at,
                finished_at: a.finished_at,
                finished_times: a.finished_times,
                ..b
            }
        }),
{
}

/// A change of one book is found under its identifier, and no other book changes.
pub proof fn one_book_changes(s: Shelf, id: Seq<char>, b: Shelved, k: int)
    requires
        b.id == id,
        on_shelf(s, id),
        0 <= k < s.books.len(),
    ensures
        on_shelf(changed(s, id, b), id),
        shelved(changed(s, id, b), id) == b,
        changed(s, id, b).books.len() == s.books.len(),
        s.books[k].id != id ==> changed(s, id, b).books[k] == s.books[k],
        changed(s, id, b).categories == s.categories,
        changed(s, id, b).uncategorized_order == s.uncategorized_order,
{
    place_is_first(s.books, id, 0);
    let i = book_place(s.books, id, 0).unwrap();
    let after = changed(s, id, b);
    place_is_first(after.books, id, 0);
    assert(after.books[i] == b);
    let j = book_place(after.books, id, 0).unwrap();
    if j < i {
        assert(after.books[j] == s.books[j]);
    }
}

/// Taking a book off the shelf leaves the others, in their order.
pub proof fn the_other_books_stay(books: Seq<Shelved>, id: Seq<char>)
    ensures
        books_without(books, id) == books.filter(|b: Shelved| b.id != id),
    decreases books.len(),
{
    reveal(Seq::filter);
    if books.len() > 0 {
        the_other_books_stay(books.drop_last(), id);
    } else {
        assert(books_without(books, id) =~= books.filter(|b: Shelved| b.id != id));
    }
}

/// A book that is new to the shelf comes behind the others; one that is there keeps its place and what
/// is known of it.
pub proof fn a_new_book_comes_last(s: Shelf, b: Shelved)
    ensures
        !on_shelf(s, b.id) ==> with_opened(s, b).books == s.books.push(b),
        on_shelf(s, b.id) ==> with_opened(s, b) == s,
        with_opened(s, b).categories == s.categories,
        with_opened(s, b).uncategorized_order == s.uncategorized_order,
{
}

/// A rating is kept, with its time, where the book has been read to its end or was rated before; it can
/// always be taken back. It is one of a hundred at most. No other book changes.
pub proof fn a_book_is_rated_when_it_is_read(
    s: Shelf,
    id: Seq<char>,
    rating: Option<u8>,
    now: i64,
)
    requires
        on_shelf(s, id),
    ensures
        (rating matches Some(n) && n > 100) ==> rating_outcome(s, id, rating, now) is Err,
        (rating matches Some(n) && n <= 100 && (shelved(s, id).finished || shelved(
            s,
            id,
        ).rating is Some)) || rating is None ==> (rating_outcome(s, id, rating, now) matches Ok((
            true,
            after,
        )) && {
            &&& shelved(after, id).rating == rating
            &&& shelved(after, id).rated_at == (if rating is Some {
                Some(now)
            } else {
                None
            })
            &&& after.books.len() == s.books.len()
            &&& forall|k: int|
                0 <= k < s.books.len() && s.books[k].id != id ==> #[trigger] after.books[k]
                    == s.books[k]
        }),
        rating is Some && !shelved(s, id).finished && shelved(s, id).rating is None
            ==> rating_outcome(s, id, rating, now) is Err,
{
    place_is_first(s.books, id, 0);
    let b = Shelved {
        rating,
        rated_at: if rating is Some {
            Some(now)
        } else {
            None
        },
        ..shelved(s, id)
    };
    let after = changed(s, id, b);
    assert forall|k: int| 0 <= k < s.books.len() && s.books[k].id != id implies
        #[trigger] after.books[k] == s.books[k] by {
        one_book_changes(s, id, b, k);
    }
    one_book_changes(s, id, b, book_place(s.books, id, 0).unwrap());
}

// ---------------------------------------------------------------------------
// Genres
// ---------------------------------------------------------------------------

proof fn kept_goes_on(list: Seq<Seq<char>>, i: int, acc: Seq<Seq<char>>)
    requires
        0 <= i,
    ensures
        acc.len() <= kept_genres(list, i, acc).len(),
        kept_genres(list, i, acc).take(acc.len() as int) == acc,
    decreases list.len() - i,
{
    if i < list.len() && acc.len() < 24 {
        let g = trimmed(list[i]);
        if g.len() == 0 || g.len() > 30 || acc.contains(g) {
            kept_goes_on(list, i + 1, acc);
        } else {
            kept_goes_on(list, i + 1, acc.push(g));
            let all = kept_genres(list, i, acc);
            assert(all.take(acc.len() as int) =~= all.take(acc.len() as int + 1).take(
                acc.len() as int,
            ));
            assert(acc.push(g).take(acc.len() as int) =~= acc);
        }
    } else {
        assert(acc.take(acc.len() as int) =~= acc);
    }
}

/// A genre is kept where it is neither blank nor longer than thirty characters, as long as there is room:
/// without white space around it, and once. Nothing is kept that was not given.
pub proof fn genres_are_kept(list: Seq<Seq<char>>, i: int, acc: Seq<Seq<char>>, k: int)
    requires
        0 <= i <= k < list.len(),
        0 < trimmed(list[k]).len() <= 30,
    ensures
        kept_genres(list, i, acc).contains(trimmed(list[k])) || kept_genres(list, i, acc).len() >= 24,
    decreases list.len() - i,
{
    let all = kept_genres(list, i, acc);
    if acc.len() < 24 {
        let g = trimmed(list[i]);
        if g.len() == 0 || g.len() > 30 || acc.contains(g) {
            if k == i {
                kept_goes_on(list, i, acc);
                let j = choose|j: int| 0 <= j < acc.len() && acc[j] == g;
                assert(all.take(acc.len() as int)[j] == g);
                assert(all[j] == g);
            } else {
                genres_are_kept(list, i + 1, acc, k);
            }
        } else {
            if k == i {
                kept_goes_on(list, i + 1, acc.push(g));
                assert(all.take(acc.len() as int + 1)[acc.len() as int] == g);
                assert(all[acc.len() as int] == g);
            } else {
                genres_are_kept(list, i + 1, acc.push(g), k);
            }
        }
    }
}

/// Every genre that is kept was given.
pub proof fn kept_genres_were_given(list: Seq<Seq<char>>, i: int, acc: Seq<Seq<char>>, j: int)
    requires
        0 <= i,
        acc.len() <= j < kept_genres(list, i, acc).len(),
    ensures
        exists|k: int|
            i <= k < list.len() && trimmed(#[trigger] list[k]) == kept_genres(list, i, acc)[j],
    decreases list.len() - i,
{
    let g = trimmed(list[i]);
    let all = kept_genres(list, i, acc);
    if g.len() == 0 || g.len() > 30 || acc.contains(g) {
        kept_genres_were_given(list, i + 1, acc, j);
        let k = choose|k: int| i + 1 <= k < list.len() && trimmed(#[trigger] list[k]) == all[j];
        assert(trimmed(list[k]) == all[j]);
    } else if j == acc.len() {
        kept_goes_on(list, i + 1, acc.push(g));
        assert(all.take(acc.len() as int + 1)[j] == g);
        assert(trimmed(list[i]) == all[j]);
    } else {
        kept_genres_were_given(list, i + 1, acc.push(g), j);
        let k = choose|k: int| i + 1 <= k < list.len() && trimmed(#[trigger] list[k]) == all[j];
        assert(trimmed(list[k]) == all[j]);
    }
}

// ---------------------------------------------------------------------------
// Categories
// ---------------------------------------------------------------------------

proof fn highest_is_highest(cats: Seq<Category>, at_least: u32)
    ensures
        at_least <= highest(cats, at_least),
        forall|i: int| 0 <= i < cats.len() ==> (#[trigger] cats[i]).order <= highest(cats, at_least),
    decreases cats.len(),
{
    if cats.len() > 0 {
        let d = cats.drop_last();
        highest_is_highest(d, at_least);
        assert forall|i: int| 0 <= i < cats.len() implies (#[trigger] cats[i]).order <= highest(
            cats,
            at_least,
        ) by {
            if i < d.len() {
                assert(d[i].order <= highest(d, at_least));
            }
        }
    }
}

/// A new category comes behind all others, and behind the books without one.
pub proof fn a_new_category_comes_last(s: Shelf, id: Seq<char>, name: Seq<char>, i: int)
    requires
        0 <= i < s.categories.len(),
        highest(s.categories, s.uncategorized_order) < u32::MAX,
    ensures
        s.categories[i].order < new_category(s, id, name).order,
        s.uncategorized_order < new_category(s, id, name).order,
        new_category(s, id, name).id == id,
        new_category(s, id, name).name == name,
{
    highest_is_highest(s.categories, s.uncategorized_order);
}

/// Removing a category leaves the others in their order, and a book of another category where it is.
pub proof fn other_categories_stay(s: Shelf, id: Seq<char>, i: int)
    requires
        has_category(s, id),
        0 <= i < s.books.len(),
    ensures
        without_category(s, id).categories == s.categories.filter(|c: Category| c.id != id),
        s.books[i].category_id != Some(id) ==> without_category(s, id).books[i] == s.books[i],
        without_category(s, id).books[i] == (Shelved {
            category_id: without_category(s, id).books[i].category_id,
            ..s.books[i]
        }),
        without_category(s, id).uncategorized_order == s.uncategorized_order,
{
    the_rest_of(s.categories, id);
}

proof fn the_rest_of(cats: Seq<Category>, id: Seq<char>)
    ensures
        categories_without(cats, id) == cats.filter(|c: Category| c.id != id),
    decreases cats.len(),
{
    reveal(Seq::filter);
    if cats.len() > 0 {
        the_rest_of(cats.drop_last(), id);
    } else {
        assert(categories_without(cats, id) =~= cats.filter(|c: Category| c.id != id));
    }
}

proof fn listed_at(ids: Seq<Seq<char>>, t: Seq<char>, p: int, i: int)
    requires
        0 <= i <= p < ids.len(),
        ids[p] == t,
        forall|k: int| 0 <= k < p ==> ids[k] != t,
    ensures
        text_place(ids, t, i) == Some(p),
    decreases p - i,
{
    if i < p {
        assert(ids[i] != t);
        listed_at(ids, t, p, i + 1);
    }
}

proof fn not_listed(ids: Seq<Seq<char>>, t: Seq<char>, i: int)
    requires
        0 <= i,
        !ids.contains(t),
    ensures
        text_place(ids, t, i) is None,
    decreases ids.len() - i,
{
    if i < ids.len() {
        assert(ids.contains(ids[i]));
        not_listed(ids, t, i + 1);
    }
}

/// Categories come in the order of the list, those that are not listed behind it in the order that they
/// had; nothing but their places changes.
pub proof fn categories_come_as_listed(s: Shelf, ids: Seq<Seq<char>>, i: int, j: int, p: int, q: int)
    requires
        0 <= i < s.categories.len(),
        0 <= j < s.categories.len(),
        ids.len() + s.categories.len() < u32::MAX,
    ensures
        ({
            let a = s.categories[i];
            let b = s.categories[j];
            let after = reordered(s, ids);
            let listed_a = 0 <= p < ids.len() && ids[p] == a.id && forall|k: int|
                0 <= k < p ==> ids[k] != a.id;
            let listed_b = 0 <= q < ids.len() && ids[q] == b.id && forall|k: int|
                0 <= k < q ==> ids[k] != b.id;
            &&& after.categories.len() == s.categories.len()
            &&& after.books == s.books
            &&& after.categories[i].id == a.id && after.categories[i].name == a.name
            &&& listed_a && listed_b && p < q ==> after.categories[i].order
                < after.categories[j].order
            &&& listed_a && !ids.contains(b.id) ==> after.categories[i].order
                < after.categories[j].order
            &&& !ids.contains(a.id) && !ids.contains(b.id) && a.order < b.order
                ==> after.categories[i].order < after.categories[j].order
        }),
{
    let cats = s.categories;
    let a = cats[i];
    let b = cats[j];
    let n = cats.len() as int;
    text_place_first(ids, a.id, 0);
    text_place_first(ids, b.id, 0);
    rank_bounds(cats, ids, i, n);
    rank_bounds(cats, ids, j, n);
    if 0 <= p < ids.len() && ids[p] == a.id && forall|k: int| 0 <= k < p ==> ids[k] != a.id {
        listed_at(ids, a.id, p, 0);
    }
    if 0 <= q < ids.len() && ids[q] == b.id && forall|k: int| 0 <= k < q ==> ids[k] != b.id {
        listed_at(ids, b.id, q, 0);
    }
    if !ids.contains(b.id) {
        not_listed(ids, b.id, 0);
    }
    if !ids.contains(a.id) && !ids.contains(b.id) && a.order < b.order {
        not_listed(ids, a.id, 0);
        assert(comes_before(cats, ids, i, j));
        rank_grows(cats, ids, i, j, n);
    }
}

} // verus!
