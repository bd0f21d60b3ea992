//! The order of names in which numbers count by their value: `img2` before `img10`.
use vstd::prelude::*;
use crate::decoding::{lower_expansion, lower_letters};
use crate::numbers::{decimal, digit_value, number, written_digits};
use crate::text::{chars_of, digit, is_digit};
use crate::views::deep_empty;

verus! {

/// The first character of what a character is made small to.
pub open spec fn small_letter(c: char) -> char {
    lower_expansion(c)[0]
}

/// How far a run of digits goes, from position `i` on.
pub open spec fn digits_end(s: Seq<char>, i: int) -> int
    decreases s.len() - i,
{
    if 0 <= i < s.len() && is_digit(s[i]) {
        digits_end(s, i + 1)
    } else {
        i
    }
}

/// The value of a run of digits, however long it is.
pub open spec fn run_value(s: Seq<char>, i: int) -> int {
    number(s.subrange(i, digits_end(s, i)), 10)
}

/// -1, 0 or 1 as the first number is less than, equal to or greater than the second.
pub open spec fn sign(a: int, b: int) -> int {
    if a < b {
        -1
    } else if a == b {
        0
    } else {
        1
    }
}

/// How a character counts when it is not read as a number: digits as they are, others made small.
/// None but a digit counts as one.
pub open spec fn weight(c: char) -> int {
    if is_digit(c) {
        c as int
    } else if is_digit(small_letter(c)) {
        0x110000 + c as int
    } else {
        small_letter(c) as int
    }
}

/// How the name `a` from `i` on stands to the name `b` from `j` on: runs of digits are compared by
/// their values, other characters one by one without regard to case, and a name that ends first
/// comes first.
pub open spec fn order_from(a: Seq<char>, i: int, b: Seq<char>, j: int) -> int
    decreases a.len() - i + b.len() - j,
{
    if i < 0 || j < 0 || i >= a.len() || j >= b.len() {
        sign(a.len() - i, b.len() - j)
    } else if is_digit(a[i]) && is_digit(b[j]) {
        if run_value(a, i) != run_value(b, j) {
            sign(run_value(a, i), run_value(b, j))
        } else if !(i < digits_end(a, i) <= a.len()) || !(j < digits_end(b, j) <= b.len()) {
            0
        } else {
            order_from(a, digits_end(a, i), b, digits_end(b, j))
        }
    } else if weight(a[i]) != weight(b[j]) {
        sign(weight(a[i]), weight(b[j]))
    } else {
        order_from(a, i + 1, b, j + 1)
    }
}

/// How two names stand to each other: -1, 0 or 1.
pub open spec fn natural(a: Seq<char>, b: Seq<char>) -> int {
    order_from(a, 0, b, 0)
}

proof fn digits_end_within(s: Seq<char>, i: int)
    requires
        0 <= i <= s.len(),
    ensures
        i <= digits_end(s, i) <= s.len(),
        i < s.len() && is_digit(s[i]) ==> i < digits_end(s, i),
    decreases s.len() - i,
{
    if i < s.len() && is_digit(s[i]) {
        digits_end_within(s, i + 1);
    }
}

/// Digits weigh what digits do, and nothing else does.
proof fn weight_of_digits(c: char)
    ensures
        is_digit(c) <==> 0x30 <= weight(c) <= 0x39,
{
    let l = small_letter(c);
    assert(is_digit(l) <==> 0x30 <= l as int <= 0x39);
}

proof fn order_turned(a: Seq<char>, i: int, b: Seq<char>, j: int)
    requires
        0 <= i <= a.len(),
        0 <= j <= b.len(),
    ensures
        order_from(a, i, b, j) == -order_from(b, j, a, i),
        -1 <= order_from(a, i, b, j) <= 1,
    decreases a.len() - i + b.len() - j,
{
    if i < a.len() && j < b.len() {
        if is_digit(a[i]) && is_digit(b[j]) {
            digits_end_within(a, i);
            digits_end_within(b, j);
            if run_value(a, i) == run_value(b, j) {
                order_turned(a, digits_end(a, i), b, digits_end(b, j));
            }
        } else if weight(a[i]) == weight(b[j]) {
            order_turned(a, i + 1, b, j + 1);
        }
    }
}

proof fn order_chained(a: Seq<char>, i: int, b: Seq<char>, j: int, c: Seq<char>, k: int)
    requires
        0 <= i <= a.len(),
        0 <= j <= b.len(),
        0 <= k <= c.len(),
        order_from(a, i, b, j) <= 0,
        order_from(b, j, c, k) <= 0,
    ensures
        order_from(a, i, c, k) <= 0,
    decreases a.len() - i + b.len() - j + c.len() - k,
{
    if i < a.len() && j < b.len() && k < c.len() {
        digits_end_within(a, i);
        digits_end_within(b, j);
        digits_end_within(c, k);
        weight_of_digits(a[i]);
        weight_of_digits(b[j]);
        weight_of_digits(c[k]);
        if is_digit(a[i]) && is_digit(b[j]) && is_digit(c[k]) {
            if run_value(a, i) == run_value(b, j) && run_value(b, j) == run_value(c, k) {
                order_chained(a, digits_end(a, i), b, digits_end(b, j), c, digits_end(c, k));
            }
        } else if !is_digit(a[i]) && !is_digit(b[j]) && !is_digit(c[k]) {
            if weight(a[i]) == weight(b[j]) && weight(b[j]) == weight(c[k]) {
                order_chained(a, i + 1, b, j + 1, c, k + 1);
            }
        }
    }
}

/// Of two names either comes first as the other comes last.
pub proof fn natural_is_antisymmetric(a: Seq<char>, b: Seq<char>)
    ensures
        natural(a, b) == -natural(b, a),
        -1 <= natural(a, b) <= 1,
{
    order_turned(a, 0, b, 0);
}

/// The order of names is transitive.
pub proof fn natural_is_transitive(a: Seq<char>, b: Seq<char>, c: Seq<char>)
    requires
        natural(a, b) <= 0,
        natural(b, c) <= 0,
    ensures
        natural(a, c) <= 0,
{
    order_chained(a, 0, b, 0, c, 0);
}

fn end_of_digits(s: &[char], i: usize) -> (r: usize)
    requires
        i <= s@.len(),
    ensures
        r == digits_end(s@, i as int),
        i <= r <= s@.len(),
{
    let mut k: usize = i;
    while k < s.len() && digit(s[k])
        invariant
            i <= k <= s@.len(),
            digits_end(s@, i as int) == digits_end(s@, k as int),
        decreases s@.len() - k,
    {
        k = k + 1;
    }
    k
}

/// Every character is a decimal digit.
pub open spec fn is_run(s: Seq<char>) -> bool {
    forall|i: int| 0 <= i < s.len() ==> is_digit(#[trigger] s[i])
}

proof fn digits_to_the_end(s: Seq<char>, i: int)
    requires
        0 <= i <= s.len(),
    ensures
        is_run(s.subrange(i, digits_end(s, i))),
    decreases s.len() - i,
{
    digits_end_within(s, i);
    if i < s.len() && is_digit(s[i]) {
        digits_to_the_end(s, i + 1);
        digits_end_within(s, i + 1);
        let rest = s.subrange(i + 1, digits_end(s, i));
        let all = s.subrange(i, digits_end(s, i));
        assert forall|k: int| 0 <= k < all.len() implies is_digit(#[trigger] all[k]) by {
            if k > 0 {
                assert(all[k] == rest[k - 1]);
            }
        }
    }
}

/// A zero before a run of digits does not count.
proof fn zero_before(s: Seq<char>)
    requires
        s.len() > 0,
        s[0] == '0',
    ensures
        number(s, 10) == number(s.skip(1), 10),
    decreases s.len(),
{
    if s.len() == 1 {
        assert(s.drop_last() =~= Seq::empty());
        assert(s.skip(1) =~= Seq::empty());
        assert(digit_value(s.last(), 10) == Some(0int));
        assert(number(s.drop_last(), 10) == 0);
    } else {
        zero_before(s.drop_last());
        assert(s.drop_last().skip(1) =~= s.skip(1).drop_last());
    }
}

proof fn run_bounds(s: Seq<char>)
    requires
        is_run(s),
    ensures
        number(s, 10) >= 0,
        s.len() > 0 && s[0] != '0' ==> number(s, 10) > 0,
    decreases s.len(),
{
    if s.len() > 0 {
        assert(is_digit(s[s.len() - 1]));
        assert(is_run(s.drop_last()));
        run_bounds(s.drop_last());
        if s.len() == 1 {
            assert(s.last() == s[0]);
        }
    }
}

/// Of two runs of digits the one that is longer is the greater, where it starts with no zero.
proof fn longer_is_greater(x: Seq<char>, y: Seq<char>)
    requires
        is_run(x),
        is_run(y),
        x.len() > y.len(),
        x[0] != '0',
    ensures
        number(x, 10) > number(y, 10),
    decreases y.len(),
{
    if y.len() == 0 {
        run_bounds(x);
    } else {
        assert(is_run(x.drop_last()));
        assert(is_run(y.drop_last()));
        longer_is_greater(x.drop_last(), y.drop_last());
        assert(is_digit(x[x.len() - 1]));
        assert(is_digit(y[y.len() - 1]));
    }
}

/// Of two runs of digits of one length the one whose first digits stand for less is the less.
proof fn first_digits_decide(x: Seq<char>, y: Seq<char>, k: int)
    requires
        is_run(x),
        is_run(y),
        x.len() == y.len(),
        0 <= k <= x.len(),
        number(x.take(k), 10) < number(y.take(k), 10),
    ensures
        number(x, 10) < number(y, 10),
    decreases x.len() - k,
{
    if k == x.len() {
        assert(x.take(k) =~= x);
        assert(y.take(k) =~= y);
    } else {
        assert(x.take(k + 1).drop_last() =~= x.take(k));
        assert(y.take(k + 1).drop_last() =~= y.take(k));
        assert(is_digit(x[k]));
        assert(is_digit(y[k]));
        first_digits_decide(x, y, k + 1);
    }
}

fn without_zeros(s: &[char], i: usize, e: usize) -> (r: usize)
    requires
        i <= e <= s@.len(),
        is_run(s@.subrange(i as int, e as int)),
    ensures
        i <= r <= e,
        is_run(s@.subrange(r as int, e as int)),
        number(s@.subrange(r as int, e as int), 10) == number(s@.subrange(i as int, e as int), 10),
        r < e ==> s@[r as int] != '0',
{
    let mut k: usize = i;
    while k < e && s[k] == '0'
        invariant
            i <= k <= e <= s@.len(),
            is_run(s@.subrange(k as int, e as int)),
            number(s@.subrange(k as int, e as int), 10) == number(
                s@.subrange(i as int, e as int),
                10,
            ),
        decreases e - k,
    {
        proof {
            let all = s@.subrange(k as int, e as int);
            zero_before(all);
            assert(all.skip(1) =~= s@.subrange(k + 1, e as int));
        }
        k = k + 1;
    }
    k
}

/// How the values of two runs of digits stand to each other. Zeros before them do not count, the
/// longer of what is left is the greater, and of two of one length the first digit in which they
/// differ decides: so no run is too long.
fn order_of_runs(a: &[char], i: usize, b: &[char], j: usize) -> (r: i8)
    requires
        i <= a@.len(),
        j <= b@.len(),
    ensures
        r == sign(run_value(a@, i as int), run_value(b@, j as int)),
{
    let e = end_of_digits(a, i);
    let f = end_of_digits(b, j);
    proof {
        digits_to_the_end(a@, i as int);
        digits_to_the_end(b@, j as int);
    }
    let p = without_zeros(a, i, e);
    let q = without_zeros(b, j, f);
    let ghost x = a@.subrange(p as int, e as int);
    let ghost y = b@.subrange(q as int, f as int);
    if e - p > f - q {
        proof {
            longer_is_greater(x, y);
        }
        return 1;
    }
    if e - p < f - q {
        proof {
            longer_is_greater(y, x);
        }
        return -1;
    }
    let n = e - p;
    let mut k: usize = 0;
    assert(x.take(0) =~= y.take(0));
    while k < n
        invariant
            k <= n,
            p + n == e <= a@.len(),
            q + n == f <= b@.len(),
            x == a@.subrange(p as int, e as int),
            y == b@.subrange(q as int, f as int),
            is_run(x),
            is_run(y),
            run_value(a@, i as int) == number(x, 10),
            run_value(b@, j as int) == number(y, 10),
            number(x.take(k as int), 10) == number(y.take(k as int), 10),
        decreases n - k,
    {
        let c = a[p + k];
        let d = b[q + k];
        proof {
            assert(x.take(k + 1).drop_last() =~= x.take(k as int));
            assert(y.take(k + 1).drop_last() =~= y.take(k as int));
            assert(x[k as int] == c && y[k as int] == d);
            assert(is_digit(c) && is_digit(d));
        }
        if c < d {
            proof {
                first_digits_decide(x, y, k + 1);
            }
            return -1;
        }
        if d < c {
            proof {
                first_digits_decide(y, x, k + 1);
            }
            return 1;
        }
        k = k + 1;
    }
    assert(x.take(k as int) =~= x);
    assert(y.take(k as int) =~= y);
    0
}

fn weigh(c: char) -> (r: u32)
    ensures
        r == weight(c),
{
    if digit(c) {
        c as u32
    } else {
        let l = lower_letters(c)[0];
        if digit(l) {
            0x110000 + c as u32
        } else {
            l as u32
        }
    }
}

/// How two names stand to each other: -1, 0 or 1.
pub fn natural_order(a: &[char], b: &[char]) -> (r: i8)
    ensures
        r == natural(a@, b@),
{
    let n = a.len();
    let m = b.len();
    let mut i: usize = 0;
    let mut j: usize = 0;
    while i < n && j < m
        invariant
            n == a@.len(),
            m == b@.len(),
            i <= n,
            j <= m,
            natural(a@, b@) == order_from(a@, i as int, b@, j as int),
        decreases n - i + m - j,
    {
        proof {
            digits_end_within(a@, i as int);
            digits_end_within(b@, j as int);
        }
        if digit(a[i]) && digit(b[j]) {
            let o = order_of_runs(a, i, b, j);
            if o != 0 {
                return o;
            }
            i = end_of_digits(a, i);
            j = end_of_digits(b, j);
        } else {
            let x = weigh(a[i]);
            let y = weigh(b[j]);
            if x < y {
                return -1;
            }
            if x > y {
                return 1;
            }
            i = i + 1;
            j = j + 1;
        }
    }
    if n - i < m - j {
        -1
    } else if n - i == m - j {
        0
    } else {
        1
    }
}

// ---------------------------------------------------------------------------
// Sorting
// ---------------------------------------------------------------------------

/// Where a name goes among the first `p` of an ordered list: behind the last that does not come
/// after it.
pub open spec fn slot(list: Seq<Seq<char>>, x: Seq<char>, p: int) -> int
    decreases p,
{
    if 0 < p <= list.len() && natural(list[p - 1], x) > 0 {
        slot(list, x, p - 1)
    } else {
        p
    }
}

/// The names of a list in their order; what is equal keeps the order it had.
pub open spec fn in_natural_order(list: Seq<Seq<char>>) -> Seq<Seq<char>>
    decreases list.len(),
{
    if list.len() == 0 {
        Seq::empty()
    } else {
        let front = in_natural_order(list.drop_last());
        front.insert(slot(front, list.last(), front.len() as int), list.last())
    }
}

/// No name comes after one that follows it.
pub open spec fn is_ordered(list: Seq<Seq<char>>) -> bool {
    forall|i: int, j: int|
        #![trigger list[i], list[j]]
        0 <= i < j < list.len() ==> natural(list[i], list[j]) <= 0
}

proof fn slot_fits(list: Seq<Seq<char>>, x: Seq<char>, p: int)
    requires
        is_ordered(list),
        0 <= p <= list.len(),
    ensures
        0 <= slot(list, x, p) <= p,
        forall|k: int| slot(list, x, p) <= k < p ==> natural(#[trigger] list[k], x) > 0,
        forall|k: int| 0 <= k < slot(list, x, p) ==> natural(#[trigger] list[k], x) <= 0,
    decreases p,
{
    if p > 0 && natural(list[p - 1], x) > 0 {
        slot_fits(list, x, p - 1);
    } else if p > 0 {
        assert forall|k: int| 0 <= k < p implies natural(#[trigger] list[k], x) <= 0 by {
            if k < p - 1 {
                assert(natural(list[k], list[p - 1]) <= 0);
                natural_is_transitive(list[k], list[p - 1], x);
            }
        }
    }
}

/// Sorting gives a list in order that holds the same names, each as often.
pub proof fn sorted_names_are_ordered(list: Seq<Seq<char>>)
    ensures
        is_ordered(in_natural_order(list)),
        in_natural_order(list).len() == list.len(),
        in_natural_order(list).to_multiset() =~= list.to_multiset(),
    decreases list.len(),
{
    broadcast use vstd::seq_lib::group_to_multiset_ensures;

    if list.len() > 0 {
        let front_in = list.drop_last();
        let x = list.last();
        sorted_names_are_ordered(front_in);
        let front = in_natural_order(front_in);
        slot_fits(front, x, front.len() as int);
        let p = slot(front, x, front.len() as int);
        let out = front.insert(p, x);
        assert forall|i: int, j: int|
            #![trigger out[i], out[j]]
            0 <= i < j < out.len() implies natural(out[i], out[j]) <= 0 by {
            let a = if i < p {
                i
            } else {
                i - 1
            };
            let b = if j < p {
                j
            } else {
                j - 1
            };
            if i == p {
                assert(out[j] == front[b]);
                natural_is_antisymmetric(front[b], x);
            } else if j == p {
                assert(out[i] == front[a]);
            } else {
                assert(out[i] == front[a] && out[j] == front[b]);
            }
        }
        assert(front_in.push(x) =~= list);
        vstd::seq_lib::to_multiset_insert(front, p, x);
    } else {
        assert(in_natural_order(list) =~= list);
    }
}

/// Puts names in their order.
pub fn sort_names(list: &Vec<String>) -> (r: Vec<String>)
    ensures
        r.deep_view() == in_natural_order(list.deep_view()),
{
    let ghost all = list.deep_view();
    let mut out: Vec<String> = Vec::new();
    proof {
        deep_empty(out);
        assert(all.take(0) =~= Seq::empty());
    }
    let mut i: usize = 0;
    while i < list.len()
        invariant
            i <= list@.len(),
            all == list.deep_view(),
            out@.len() == i,
            out.deep_view() == in_natural_order(all.take(i as int)),
        decreases list@.len() - i,
    {
        let x = chars_of(list[i].as_str());
        let ghost sorted = out.deep_view();
        assert(all[i as int] == x@);
        let mut p: usize = out.len();
        while p > 0 && natural_order(&chars_of(out[p - 1].as_str()), &x) > 0
            invariant
                p <= out@.len(),
                sorted == out.deep_view(),
                slot(sorted, x@, sorted.len() as int) == slot(sorted, x@, p as int),
            decreases p,
        {
            assert(sorted[p - 1] == out@[p - 1]@);
            p = p - 1;
        }
        assert(p > 0 ==> sorted[p - 1] == out@[p - 1]@);
        let ghost before = out@;
        let name = list[i].clone();
        out.insert(p, name);
        assert(out.deep_view() =~= sorted.insert(p as int, x@)) by {
            assert forall|k: int| 0 <= k < out@.len() implies out.deep_view()[k] == sorted.insert(
                p as int,
                x@,
            )[k] by {
                if k < p {
                    assert(out@[k] == before[k]);
                } else if k > p {
                    assert(out@[k] == before[k - 1]);
                }
            }
        }
        assert(all.take(i + 1).drop_last() =~= all.take(i as int));
        i = i + 1;
    }
    assert(all.take(i as int) =~= all);
    out
}


// ---------------------------------------------------------------------------
// What the order is for
// ---------------------------------------------------------------------------

proof fn run_in_front(pre: Seq<char>, x: Seq<char>, i: int)
    requires
        0 <= i < pre.len(),
        !is_digit(pre.last()),
    ensures
        digits_end(pre + x, i) == digits_end(pre, i),
        i <= digits_end(pre, i) < pre.len(),
    decreases pre.len() - i,
{
    assert((pre + x)[i] == pre[i]);
    if is_digit(pre[i]) {
        assert(i != pre.len() - 1);
        run_in_front(pre, x, i + 1);
    }
}

proof fn run_behind(pre: Seq<char>, x: Seq<char>, k: int)
    requires
        0 <= k <= x.len(),
    ensures
        digits_end(pre + x, pre.len() + k) == pre.len() + digits_end(x, k),
        k <= digits_end(x, k) <= x.len(),
    decreases x.len() - k,
{
    if k < x.len() {
        assert((pre + x)[pre.len() + k] == x[k]);
        if is_digit(x[k]) {
            run_behind(pre, x, k + 1);
        }
    }
}

proof fn order_behind(pre: Seq<char>, x: Seq<char>, k: int, other: Seq<char>, y: Seq<char>, l: int)
    requires
        0 <= k <= x.len(),
        0 <= l <= y.len(),
    ensures
        order_from(pre + x, pre.len() + k, other + y, other.len() + l) == order_from(x, k, y, l),
    decreases x.len() - k + y.len() - l,
{
    let a = pre + x;
    let b = other + y;
    if k < x.len() && l < y.len() {
        assert(a[pre.len() + k] == x[k]);
        assert(b[other.len() + l] == y[l]);
        run_behind(pre, x, k);
        run_behind(other, y, l);
        if is_digit(x[k]) && is_digit(y[l]) {
            assert(a.subrange(pre.len() + k, pre.len() + digits_end(x, k)) =~= x.subrange(
                k,
                digits_end(x, k),
            ));
            assert(b.subrange(other.len() + l, other.len() + digits_end(y, l)) =~= y.subrange(
                l,
                digits_end(y, l),
            ));
            run_behind(pre, x, k + 1);
            run_behind(other, y, l + 1);
            order_behind(pre, x, digits_end(x, k), other, y, digits_end(y, l));
        } else {
            order_behind(pre, x, k + 1, other, y, l + 1);
        }
    }
}

proof fn order_through(pre: Seq<char>, x: Seq<char>, y: Seq<char>, i: int)
    requires
        0 <= i <= pre.len(),
        pre.len() > 0 ==> !is_digit(pre.last()),
    ensures
        order_from(pre + x, i, pre + y, i) == order_from(pre + x, pre.len() as int, pre + y, pre.len() as int),
    decreases pre.len() - i,
{
    let a = pre + x;
    let b = pre + y;
    if i < pre.len() {
        assert(a[i] == pre[i] && b[i] == pre[i]);
        run_in_front(pre, x, i);
        run_in_front(pre, y, i);
        let e = digits_end(pre, i);
        if is_digit(pre[i]) {
            assert(a.subrange(i, e) =~= b.subrange(i, e));
            run_in_front(pre, x, i + 1);
            order_through(pre, x, y, e);
        } else {
            order_through(pre, x, y, i + 1);
        }
    }
}

/// What two names start with in common has no say, unless a number goes on behind it.
pub proof fn a_common_start_has_no_say(pre: Seq<char>, x: Seq<char>, y: Seq<char>)
    requires
        pre.len() > 0 ==> !is_digit(pre.last()),
    ensures
        natural(pre + x, pre + y) == natural(x, y),
{
    order_through(pre, x, y, 0);
    order_behind(pre, x, 0, pre, y, 0);
}

proof fn the_run_of_a_number(n: int, x: Seq<char>, k: int)
    requires
        0 <= n,
        x.len() > 0 ==> !is_digit(x[0]),
        0 <= k <= decimal(n).len(),
    ensures
        digits_end(decimal(n) + x, k) == decimal(n).len(),
        k < decimal(n).len() ==> is_digit((decimal(n) + x)[k]),
    decreases decimal(n).len() - k,
{
    written_digits(n, 10);
    let d = decimal(n);
    if k < d.len() {
        assert(digit_value(d[k], 10) is Some);
        assert((d + x)[k] == d[k]);
        the_run_of_a_number(n, x, k + 1);
    } else if x.len() > 0 {
        assert((d + x)[k] == x[0]);
    }
}

/// Of two names that are alike up to a number, the one with the smaller number comes first, however the
/// numbers are spelled and whatever follows them.
pub proof fn numbers_count_by_their_value(
    pre: Seq<char>,
    n: int,
    m: int,
    x: Seq<char>,
    y: Seq<char>,
)
    requires
        pre.len() > 0 ==> !is_digit(pre.last()),
        0 <= n < m,
        x.len() > 0 ==> !is_digit(x[0]),
        y.len() > 0 ==> !is_digit(y[0]),
    ensures
        natural(pre + (decimal(n) + x), pre + (decimal(m) + y)) == -1,
        natural(pre + (decimal(m) + y), pre + (decimal(n) + x)) == 1,
        natural(pre + (decimal(n) + x), pre + (decimal(n) + y)) == natural(x, y),
{
    let a = decimal(n) + x;
    let b = decimal(m) + y;
    let c = decimal(n) + y;
    a_common_start_has_no_say(pre, a, b);
    a_common_start_has_no_say(pre, b, a);
    a_common_start_has_no_say(pre, a, c);
    written_digits(n, 10);
    written_digits(m, 10);
    the_run_of_a_number(n, x, 0);
    the_run_of_a_number(m, y, 0);
    the_run_of_a_number(n, y, 0);
    assert(a.subrange(0, decimal(n).len() as int) =~= decimal(n));
    assert(b.subrange(0, decimal(m).len() as int) =~= decimal(m));
    assert(c.subrange(0, decimal(n).len() as int) =~= decimal(n));
    order_behind(decimal(n), x, 0, decimal(n), y, 0);
}

/// Two letters that differ only in case stand alike.
pub proof fn case_has_no_say(c: char, d: char, x: Seq<char>, y: Seq<char>)
    requires
        lower_expansion(c) == lower_expansion(d),
        !is_digit(c) && !is_digit(d),
        !is_digit(lower_expansion(c)[0]),
    ensures
        natural(seq![c] + x, seq![d] + y) == natural(x, y),
{
    order_behind(seq![c], x, 0, seq![d], y, 0);
}

/// A name that goes on where another ends comes behind it.
pub proof fn what_ends_first_comes_first(pre: Seq<char>, x: Seq<char>)
    requires
        pre.len() > 0 ==> !is_digit(pre.last()),
        x.len() > 0,
    ensures
        natural(pre, pre + x) == -1,
{
    a_common_start_has_no_say(pre, Seq::empty(), x);
    assert(pre + Seq::<char>::empty() =~= pre);
}

} // verus!
