//! Sorting, by insertion from the left: what is equal keeps its order.
use vstd::prelude::*;

verus! {

/// `x` put into an ascending row, unless it is there.
pub open spec fn with_unique(s: Seq<u32>, x: u32) -> Seq<u32>
    decreases s.len(),
{
    if s.len() == 0 || s.last() < x {
        s.push(x)
    } else if s.last() == x {
        s
    } else {
        with_unique(s.drop_last(), x).push(s.last())
    }
}

/// The numbers of a row in ascending order, each once.
pub open spec fn sorted_set(s: Seq<u32>) -> Seq<u32>
    decreases s.len(),
{
    if s.len() == 0 {
        s
    } else {
        with_unique(sorted_set(s.drop_last()), s.last())
    }
}

/// The row ascends, without repetition.
pub open spec fn strictly_ascending(s: Seq<u32>) -> bool {
    forall|i: int, j: int| 0 <= i < j < s.len() ==> s[i] < s[j]
}

proof fn with_unique_ascends(s: Seq<u32>, x: u32)
    requires
        strictly_ascending(s),
    ensures
        strictly_ascending(with_unique(s, x)),
        forall|y: u32| #[trigger]
            with_unique(s, x).contains(y) <==> (s.contains(y) || y == x),
    decreases s.len(),
{
    let w = with_unique(s, x);
    if s.len() == 0 || s.last() < x {
        assert forall|y: u32| #[trigger] w.contains(y) <==> (s.contains(y) || y == x) by {
            if s.contains(y) {
                let k = s.index_of(y);
                assert(w[k] == y);
            }
            assert(w[s.len() as int] == x);
        }
        assert forall|i: int, j: int| 0 <= i < j < w.len() implies w[i] < w[j] by {
            if j == s.len() && i < s.len() - 1 {
                assert(s[i] < s[s.len() - 1]);
            }
        }
    } else if s.last() == x {
        assert(s[s.len() - 1] == x);
    } else {
        let d = s.drop_last();
        assert(strictly_ascending(d));
        with_unique_ascends(d, x);
        let v = with_unique(d, x);
        assert forall|y: u32| #[trigger] w.contains(y) <==> (s.contains(y) || y == x) by {
            if w.contains(y) {
                let k = w.index_of(y);
                if k < v.len() {
                    assert(v[k] == y);
                    assert(v.contains(y));
                    if d.contains(y) {
                        let m = d.index_of(y);
                        assert(s[m] == y);
                    }
                } else {
                    assert(s[s.len() - 1] == y);
                }
            }
            if s.contains(y) || y == x {
                if y == s.last() {
                    assert(w[v.len() as int] == y);
                } else {
                    if s.contains(y) {
                        let m = s.index_of(y);
                        assert(d[m] == y);
                    }
                    assert(v.contains(y));
                    let k = v.index_of(y);
                    assert(w[k] == y);
                }
            }
        }
        assert forall|i: int, j: int| 0 <= i < j < w.len() implies w[i] < w[j] by {
            if j == v.len() {
                assert(v[i] == w[i]);
                assert(v.contains(w[i]));
                if d.contains(w[i]) {
                    let m = d.index_of(w[i]);
                    assert(s[m] < s[s.len() - 1]);
                }
            }
        }
    }
}

/// `sorted_set` ascends without repetition and holds exactly what the row holds.
pub proof fn sorted_set_is_the_set(s: Seq<u32>)
    ensures
        strictly_ascending(sorted_set(s)),
        forall|y: u32| #[trigger] sorted_set(s).contains(y) <==> s.contains(y),
    decreases s.len(),
{
    if s.len() > 0 {
        let d = s.drop_last();
        sorted_set_is_the_set(d);
        with_unique_ascends(sorted_set(d), s.last());
        assert forall|y: u32| #[trigger] sorted_set(s).contains(y) <==> s.contains(y) by {
            if s.contains(y) {
                let k = s.index_of(y);
                if k < d.len() {
                    assert(d[k] == y);
                    assert(d.contains(y));
                }
            }
            if d.contains(y) {
                let k = d.index_of(y);
                assert(s[k] == y);
            }
            assert(s[s.len() - 1] == s.last());
        }
    }
}

/// Puts a number into an ascending row, unless it is there.
pub fn insert_unique(v: &mut Vec<u32>, x: u32)
    ensures
        final(v)@ == with_unique(old(v)@, x),
{
    let ghost s = v@;
    let mut i: usize = v.len();
    assert(s.take(i as int) =~= s);
    assert(s.skip(i as int) =~= Seq::empty());
    while i > 0 && v[i - 1] > x
        invariant
            v@ == s,
            i <= s.len(),
            with_unique(s, x) == with_unique(s.take(i as int), x) + s.skip(i as int),
        decreases i,
    {
        let ghost t = s.take(i as int);
        assert(t.drop_last() =~= s.take(i - 1));
        assert(with_unique(s.take(i - 1), x).push(s[i - 1]) + s.skip(i as int) =~= with_unique(
            s.take(i - 1),
            x,
        ) + s.skip(i - 1));
        i = i - 1;
    }
    if i > 0 && v[i - 1] == x {
        assert(s.take(i as int) + s.skip(i as int) =~= s);
    } else {
        v.insert(i, x);
        assert(v@ =~= s.take(i as int).push(x) + s.skip(i as int));
    }
}

/// The numbers in ascending order, each once.
pub fn sort_dedup(s: &Vec<u32>) -> (r: Vec<u32>)
    ensures
        r@ == sorted_set(s@),
{
    let mut out: Vec<u32> = Vec::new();
    let mut i: usize = 0;
    assert(s@.take(0) =~= Seq::empty());
    while i < s.len()
        invariant
            i <= s@.len(),
            out@ == sorted_set(s@.take(i as int)),
        decreases s@.len() - i,
    {
        assert(s@.take(i + 1).drop_last() =~= s@.take(i as int));
        insert_unique(&mut out, s[i]);
        i = i + 1;
    }
    assert(s@.take(i as int) =~= s@);
    out
}

} // verus!
