//! Lists of pairs that are looked up by a text, and of times that are added up under one.
use vstd::prelude::*;
use crate::text::{chars_of, same};
use crate::views::{deep_empty, deep_push};

verus! {

/// The first pair with a key, from the `i`-th on.
pub open spec fn place_of<T>(list: Seq<(Seq<char>, T)>, key: Seq<char>, i: int) -> Option<int>
    decreases list.len() - i,
{
    if i < 0 || i >= list.len() {
        None
    } else if list[i].0 == key {
        Some(i)
    } else {
        place_of(list, key, i + 1)
    }
}

/// `place_of` gives a place that holds the key, the first one there is.
pub proof fn place_of_is_first<T>(list: Seq<(Seq<char>, T)>, key: Seq<char>, i: int)
    requires
        0 <= i,
    ensures
        match place_of(list, key, i) {
            Some(k) => i <= k < list.len() && list[k].0 == key && forall|j: int|
                i <= j < k ==> (#[trigger] list[j]).0 != key,
            None => forall|j: int| i <= j < list.len() ==> (#[trigger] list[j]).0 != key,
        },
    decreases list.len() - i,
{
    if i < list.len() && list[i].0 != key {
        place_of_is_first(list, key, i + 1);
    }
}

/// The list with a value put under a key: in the place it has, or at the end.
pub open spec fn put<T>(list: Seq<(Seq<char>, T)>, key: Seq<char>, value: T) -> Seq<
    (Seq<char>, T),
> {
    match place_of(list, key, 0) {
        Some(i) => list.update(i, (key, value)),
        None => list.push((key, value)),
    }
}

/// The list with a number added under a key.
pub open spec fn added(list: Seq<(Seq<char>, u64)>, key: Seq<char>, n: int) -> Seq<
    (Seq<char>, u64),
> {
    match place_of(list, key, 0) {
        Some(i) => list.update(i, (key, (list[i].1 + n) as u64)),
        None => list.push((key, n as u64)),
    }
}

/// The sum of the numbers of a list.
pub open spec fn sum(list: Seq<(Seq<char>, u64)>) -> int
    decreases list.len(),
{
    if list.len() == 0 {
        0
    } else {
        sum(list.drop_last()) + list.last().1
    }
}

/// What stands under a key; zero where nothing does.
pub open spec fn under(list: Seq<(Seq<char>, u64)>, key: Seq<char>) -> int {
    match place_of(list, key, 0) {
        Some(i) => list[i].1 as int,
        None => 0,
    }
}

/// A sum is at least any of its terms, and that of a prefix no more than that of the whole.
pub proof fn sum_bounds(list: Seq<(Seq<char>, u64)>, i: int)
    requires
        0 <= i < list.len(),
    ensures
        0 <= list[i].1 <= sum(list),
        0 <= sum(list.take(i)),
        sum(list.take(i)) + list[i].1 <= sum(list),
    decreases list.len(),
{
    let d = list.drop_last();
    if i < d.len() {
        sum_bounds(d, i);
        assert(d.take(i) =~= list.take(i));
    } else {
        assert(list.take(i) =~= d);
        sum_nonnegative(d);
    }
}

/// A sum is not negative.
pub proof fn sum_nonnegative(list: Seq<(Seq<char>, u64)>)
    ensures
        sum(list) >= 0,
    decreases list.len(),
{
    if list.len() > 0 {
        sum_nonnegative(list.drop_last());
    }
}

/// Changing one term changes the sum by as much.
proof fn sum_update(list: Seq<(Seq<char>, u64)>, i: int, v: (Seq<char>, u64))
    requires
        0 <= i < list.len(),
    ensures
        sum(list.update(i, v)) == sum(list) - list[i].1 + v.1,
    decreases list.len(),
{
    let u = list.update(i, v);
    if i == list.len() - 1 {
        assert(u.drop_last() =~= list.drop_last());
    } else {
        sum_update(list.drop_last(), i, v);
        assert(u.drop_last() =~= list.drop_last().update(i, v));
    }
}

/// Adding under a key adds to the sum.
pub proof fn added_sum(list: Seq<(Seq<char>, u64)>, key: Seq<char>, n: int)
    requires
        0 <= n,
        sum(list) + n <= u64::MAX,
    ensures
        sum(added(list, key, n)) == sum(list) + n,
{
    place_of_is_first(list, key, 0);
    sum_nonnegative(list);
    match place_of(list, key, 0) {
        Some(i) => {
            sum_bounds(list, i);
            sum_update(list, i, (key, (list[i].1 + n) as u64));
        },
        None => {
            let p = list.push((key, n as u64));
            assert(p.drop_last() =~= list);
        },
    }
}

/// Adding under a key changes what stands under that key and no other.
pub proof fn added_under(list: Seq<(Seq<char>, u64)>, key: Seq<char>, n: int, other: Seq<char>)
    requires
        0 <= n,
        sum(list) + n <= u64::MAX,
    ensures
        under(added(list, key, n), key) == under(list, key) + n,
        other != key ==> under(added(list, key, n), other) == under(list, other),
{
    let a = added(list, key, n);
    place_of_is_first(list, key, 0);
    place_of_is_first(a, key, 0);
    place_of_is_first(list, other, 0);
    place_of_is_first(a, other, 0);
    sum_nonnegative(list);
    match place_of(list, key, 0) {
        Some(i) => {
            sum_bounds(list, i);
            let k = place_of(a, key, 0).unwrap();
            assert(a[i].0 == key);
            assert(k <= i);
            if k < i {
                assert(a[k].0 == list[k].0);
            }
        },
        None => {
            assert(a[list.len() as int].0 == key);
            let k = place_of(a, key, 0).unwrap();
            if k < list.len() {
                assert(a[k].0 == list[k].0);
            }
        },
    }
    if other != key {
        match place_of(list, other, 0) {
            Some(j) => {
                assert(a[j].0 == other);
                let k = place_of(a, other, 0).unwrap();
                if k < j {
                    assert(a[k].0 == list[k].0);
                }
                assert(a[j] == list[j]);
            },
            None => {
                match place_of(a, other, 0) {
                    Some(k) => {
                        assert(a[k].0 == other);
                        if k < list.len() {
                            assert(a[k].0 == list[k].0 || a[k].0 == key);
                            assert(list[k].0 != other);
                        }
                    },
                    None => {},
                }
            },
        }
    }
}

/// Adding under a key changes what stands under that key and no other, as long as what stands there
/// has room.
pub proof fn added_under_fits(list: Seq<(Seq<char>, u64)>, key: Seq<char>, n: int, other: Seq<char>)
    requires
        0 <= n,
        under(list, key) + n <= u64::MAX,
    ensures
        under(added(list, key, n), key) == under(list, key) + n,
        other != key ==> under(added(list, key, n), other) == under(list, other),
{
    let a = added(list, key, n);
    place_of_is_first(list, key, 0);
    place_of_is_first(a, key, 0);
    place_of_is_first(list, other, 0);
    place_of_is_first(a, other, 0);
    match place_of(list, key, 0) {
        Some(i) => {
            let k = place_of(a, key, 0).unwrap();
            assert(a[i].0 == key);
            assert(k <= i);
            if k < i {
                assert(a[k].0 == list[k].0);
            }
        },
        None => {
            assert(a[list.len() as int].0 == key);
            let k = place_of(a, key, 0).unwrap();
            if k < list.len() {
                assert(a[k].0 == list[k].0);
            }
        },
    }
    if other != key {
        match place_of(list, other, 0) {
            Some(j) => {
                assert(a[j].0 == other);
                let k = place_of(a, other, 0).unwrap();
                if k < j {
                    assert(a[k].0 == list[k].0);
                }
                assert(a[j] == list[j]);
            },
            None => {
                match place_of(a, other, 0) {
                    Some(k) => {
                        assert(a[k].0 == other);
                        if k < list.len() {
                            assert(a[k].0 == list[k].0 || a[k].0 == key);
                            assert(list[k].0 != other);
                        }
                    },
                    None => {},
                }
            },
        }
    }
}

/// The first pair with a key.
pub fn find_key<T: DeepView>(list: &Vec<(String, T)>, key: &str) -> (r: Option<usize>)
    ensures
        match r {
            Some(i) => place_of(list.deep_view(), key@, 0) == Some(i as int) && i < list@.len(),
            None => place_of(list.deep_view(), key@, 0) is None,
        },
{
    let k = chars_of(key);
    let mut i: usize = 0;
    while i < list.len()
        invariant
            i <= list@.len(),
            k@ == key@,
            place_of(list.deep_view(), key@, 0) == place_of(list.deep_view(), key@, i as int),
        decreases list@.len() - i,
    {
        let c = chars_of(list[i].0.as_str());
        assert(list.deep_view()[i as int] == list@[i as int].deep_view());
        if same(&c, &k) {
            return Some(i);
        }
        i = i + 1;
    }
    None
}

/// Adds a number under a key.
pub fn add_time(list: &mut Vec<(String, u64)>, key: &str, n: u64)
    requires
        under(old(list).deep_view(), key@) + n <= u64::MAX,
    ensures
        final(list).deep_view() == added(old(list).deep_view(), key@, n as int),
{
    let ghost before = *list;
    match find_key(list, key) {
        Some(i) => {
            let had = list[i].1;
            assert(before.deep_view()[i as int] == before@[i as int].deep_view());
            let item = (key.to_owned(), had + n);
            list.set(i, item);
            proof {
                deep_update(before, i as int, item, *list);
            }
        },
        None => {
            let item = (key.to_owned(), n);
            list.push(item);
            proof {
                deep_push(before, item, *list);
            }
        },
    }
}

/// A value exchanged in a vector is exchanged in its deep view.
pub proof fn deep_update<T: DeepView>(v: Vec<T>, i: int, x: T, w: Vec<T>)
    requires
        0 <= i < v@.len(),
        w@ == v@.update(i, x),
    ensures
        w.deep_view() == v.deep_view().update(i, x.deep_view()),
{
    assert forall|k: int| 0 <= k < w@.len() implies w.deep_view()[k] == v.deep_view().update(
        i,
        x.deep_view(),
    )[k] by {
        if k != i {
            assert(w@[k] == v@[k]);
        }
    }
    assert(w.deep_view() =~= v.deep_view().update(i, x.deep_view()));
}

/// A pair put into a row that descends by number, behind those with the same number.
pub open spec fn with_ranked(s: Seq<(Seq<char>, u64)>, x: (Seq<char>, u64)) -> Seq<
    (Seq<char>, u64),
>
    decreases s.len(),
{
    if s.len() == 0 || s.last().1 >= x.1 {
        s.push(x)
    } else {
        with_ranked(s.drop_last(), x).push(s.last())
    }
}

/// The pairs by descending number; those with the same number stay in order.
pub open spec fn ranked(s: Seq<(Seq<char>, u64)>) -> Seq<(Seq<char>, u64)>
    decreases s.len(),
{
    if s.len() == 0 {
        s
    } else {
        with_ranked(ranked(s.drop_last()), s.last())
    }
}

/// The row descends by number.
pub open spec fn descends(s: Seq<(Seq<char>, u64)>) -> bool {
    forall|i: int, j: int| 0 <= i <= j < s.len() ==> s[i].1 >= s[j].1
}

spec fn at_least(s: Seq<(Seq<char>, u64)>, b: u64) -> bool {
    forall|i: int| 0 <= i < s.len() ==> (#[trigger] s[i]).1 >= b
}

proof fn with_ranked_descends(s: Seq<(Seq<char>, u64)>, x: (Seq<char>, u64))
    requires
        descends(s),
    ensures
        descends(with_ranked(s, x)),
        with_ranked(s, x).to_multiset() == s.push(x).to_multiset(),
        forall|b: u64|
            #![trigger at_least(with_ranked(s, x), b)]
            at_least(s, b) && x.1 >= b ==> at_least(with_ranked(s, x), b),
    decreases s.len(),
{
    broadcast use vstd::seq_lib::group_to_multiset_ensures;

    if s.len() == 0 || s.last().1 >= x.1 {
        assert forall|i: int, j: int| 0 <= i <= j < s.push(x).len() implies s.push(x)[i].1
            >= s.push(x)[j].1 by {
            if i < s.len() {
                assert(s[i].1 >= s[s.len() - 1].1);
            }
        }
    } else {
        let d = s.drop_last();
        with_ranked_descends(d, x);
        let w = with_ranked(d, x);
        assert(at_least(d, s.last().1));
        assert(at_least(w, s.last().1));
        assert(s =~= d.push(s.last()));
        assert(w.push(s.last()).to_multiset() == s.push(x).to_multiset()) by {
            assert(w.push(s.last()).to_multiset() =~= w.to_multiset().insert(s.last()));
            assert(s.push(x).to_multiset() =~= s.to_multiset().insert(x));
            assert(s.to_multiset() =~= d.to_multiset().insert(s.last()));
            assert(d.push(x).to_multiset() =~= d.to_multiset().insert(x));
        }
        assert forall|b: u64| at_least(s, b) && x.1 >= b implies #[trigger] at_least(
            w.push(s.last()),
            b,
        ) by {
            assert(at_least(d, b));
            assert(at_least(w, b));
            assert(s[s.len() - 1].1 >= b);
        }
    }
}

/// Ranking descends by number and keeps every pair.
pub proof fn ranked_is_sorted(s: Seq<(Seq<char>, u64)>)
    ensures
        descends(ranked(s)),
        ranked(s).to_multiset() == s.to_multiset(),
    decreases s.len(),
{
    broadcast use vstd::seq_lib::group_to_multiset_ensures;

    if s.len() > 0 {
        ranked_is_sorted(s.drop_last());
        with_ranked_descends(ranked(s.drop_last()), s.last());
        assert(s =~= s.drop_last().push(s.last()));
        assert(ranked(s.drop_last()).push(s.last()).to_multiset() =~= ranked(
            s.drop_last(),
        ).to_multiset().insert(s.last()));
        assert(s.to_multiset() =~= s.drop_last().to_multiset().insert(s.last()));
    }
}

fn insert_ranked(v: &mut Vec<(String, u64)>, x: (String, u64))
    ensures
        final(v).deep_view() == with_ranked(old(v).deep_view(), x.deep_view()),
{
    let ghost s = v.deep_view();
    let ghost before = *v;
    let ghost xv = x.deep_view();
    let mut i: usize = v.len();
    assert(s.take(i as int) =~= s);
    assert(s.skip(i as int) =~= Seq::empty());
    while i > 0 && v[i - 1].1 < x.1
        invariant
            *v == before,
            s == v.deep_view(),
            xv == x.deep_view(),
            i <= s.len(),
            with_ranked(s, xv) == with_ranked(s.take(i as int), xv) + s.skip(i as int),
        decreases i,
    {
        assert(s[i - 1] == v@[i - 1].deep_view());
        assert(s.take(i as int).drop_last() =~= s.take(i - 1));
        assert(with_ranked(s.take(i - 1), xv).push(s[i - 1]) + s.skip(i as int) =~= with_ranked(
            s.take(i - 1),
            xv,
        ) + s.skip(i - 1));
        i = i - 1;
    }
    proof {
        if i > 0 {
            assert(s[i - 1] == v@[i - 1].deep_view());
        }
    }
    v.insert(i, x);
    proof {
        let w = v.deep_view();
        assert forall|k: int| 0 <= k < w.len() implies w[k] == (s.take(i as int).push(xv) + s.skip(
            i as int,
        ))[k] by {
            if k < i {
                assert(v@[k] == before@[k]);
            } else if k > i {
                assert(v@[k] == before@[k - 1]);
            }
        }
        assert(w =~= s.take(i as int).push(xv) + s.skip(i as int));
    }
}

/// The pairs by descending number.
pub fn rank(list: &Vec<(String, u64)>) -> (r: Vec<(String, u64)>)
    ensures
        r.deep_view() == ranked(list.deep_view()),
{
    let ghost s = list.deep_view();
    let mut out: Vec<(String, u64)> = Vec::new();
    proof {
        deep_empty(out);
        assert(s.take(0) =~= Seq::empty());
    }
    let mut i: usize = 0;
    while i < list.len()
        invariant
            i <= list@.len(),
            s == list.deep_view(),
            out.deep_view() == ranked(s.take(i as int)),
        decreases list@.len() - i,
    {
        assert(s.take(i + 1).drop_last() =~= s.take(i as int));
        assert(s[i as int] == list@[i as int].deep_view());
        let item = (list[i].0.clone(), list[i].1);
        insert_ranked(&mut out, item);
        i = i + 1;
    }
    assert(s.take(i as int) =~= s);
    out
}

} // verus!
