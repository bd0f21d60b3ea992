//! How the deep view of a vector follows its changes.
use vstd::prelude::*;

verus! {

/// The deep view of an empty vector is empty.
pub proof fn deep_empty<T: DeepView>(v: Vec<T>)
    requires
        v@.len() == 0,
    ensures
        v.deep_view() == Seq::<T::V>::empty(),
{
    assert(v.deep_view() =~= Seq::<T::V>::empty());
}

/// A value put behind a vector is put behind its deep view.
pub proof fn deep_push<T: DeepView>(v: Vec<T>, x: T, w: Vec<T>)
    requires
        w@ == v@.push(x),
    ensures
        w.deep_view() == v.deep_view().push(x.deep_view()),
{
    assert forall|i: int| 0 <= i < w@.len() implies w.deep_view()[i] == v.deep_view().push(
        x.deep_view(),
    )[i] by {
        if i < v@.len() {
            assert(w@[i] == v@[i]);
        }
    }
    assert(w.deep_view() =~= v.deep_view().push(x.deep_view()));
}

/// What is left of a vector without its last value.
pub proof fn deep_pop<T: DeepView>(v: Vec<T>, w: Vec<T>)
    requires
        v@.len() > 0,
        w@ == v@.drop_last(),
    ensures
        w.deep_view() == v.deep_view().drop_last(),
        v@.last().deep_view() == v.deep_view().last(),
{
    assert forall|i: int| 0 <= i < w@.len() implies w.deep_view()[i]
        == v.deep_view().drop_last()[i] by {
        assert(w@[i] == v@[i]);
    }
    assert(w.deep_view() =~= v.deep_view().drop_last());
}

/// The deep views of the elements of a sequence.
pub open spec fn deep_seq<T: DeepView>(s: Seq<T>) -> Seq<T::V> {
    Seq::new(s.len(), |i: int| s[i].deep_view())
}

/// The deep views of one more element.
pub proof fn deep_seq_step<T: DeepView>(s: Seq<T>, k: int)
    requires
        0 <= k < s.len(),
    ensures
        deep_seq(s.take(k + 1)).drop_last() == deep_seq(s.take(k)),
        deep_seq(s.take(k + 1)).last() == s[k].deep_view(),
        deep_seq(s.take(k + 1)).len() == k + 1,
{
    assert(deep_seq(s.take(k + 1)).drop_last() =~= deep_seq(s.take(k)));
}

/// The deep view of a vector is that of its elements.
pub proof fn deep_seq_of<T: DeepView>(v: Vec<T>)
    ensures
        deep_seq(v@) == v.deep_view(),
        deep_seq(v@.take(0)) == Seq::<T::V>::empty(),
        deep_seq(v@.take(v@.len() as int)) == v.deep_view(),
{
    assert(deep_seq(v@) =~= v.deep_view());
    assert(v@.take(v@.len() as int) =~= v@);
    assert(deep_seq(v@.take(0)) =~= Seq::<T::V>::empty());
}

/// Taking a prefix and then one more element.
pub proof fn take_push<A>(s: Seq<A>, k: int)
    requires
        0 <= k < s.len(),
    ensures
        s.take(k + 1) == s.take(k).push(s[k]),
{
    assert(s.take(k + 1) =~= s.take(k).push(s[k]));
}

} // verus!
