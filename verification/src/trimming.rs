//! What dropping white space at the ends of a text leaves.
use vstd::prelude::*;
use crate::text::{is_space, trimmed, trimmed_end, trimmed_start};

verus! {

/// All characters of a text are white space.
pub open spec fn all_space(s: Seq<char>) -> bool {
    forall|i: int| 0 <= i < s.len() ==> is_space(#[trigger] s[i])
}

/// A text that neither starts nor ends with white space.
pub open spec fn is_trim(s: Seq<char>) -> bool {
    s.len() > 0 ==> !is_space(s[0]) && !is_space(s.last())
}

proof fn start_goes(a: Seq<char>, t: Seq<char>)
    requires
        all_space(a),
        t.len() > 0 ==> !is_space(t[0]),
    ensures
        trimmed_start(a + t) == t,
    decreases a.len(),
{
    if a.len() == 0 {
        assert(a + t =~= t);
    } else {
        assert((a + t)[0] == a[0]);
        assert((a + t).skip(1) =~= a.skip(1) + t);
        assert(all_space(a.skip(1))) by {
            assert forall|i: int| 0 <= i < a.skip(1).len() implies is_space(#[trigger] a.skip(1)[i]) by {
                assert(a.skip(1)[i] == a[i + 1]);
            }
        }
        start_goes(a.skip(1), t);
    }
}

proof fn end_goes(t: Seq<char>, b: Seq<char>)
    requires
        all_space(b),
        t.len() > 0 ==> !is_space(t.last()),
    ensures
        trimmed_end(t + b) == t,
    decreases b.len(),
{
    if b.len() == 0 {
        assert(t + b =~= t);
    } else {
        assert((t + b).last() == b.last());
        assert(is_space(b[b.len() - 1]));
        assert((t + b).drop_last() =~= t + b.drop_last());
        end_goes(t, b.drop_last());
    }
}

/// White space around a text goes, and nothing else.
pub proof fn only_white_space_around_goes(a: Seq<char>, t: Seq<char>, b: Seq<char>)
    requires
        all_space(a),
        all_space(b),
        is_trim(t),
    ensures
        trimmed(a + t + b) == t,
        trimmed_start(a + t) == t,
        trimmed_end(t + b) == t,
        trimmed(t) == t,
{
    start_goes(a, t);
    end_goes(t, b);
    let none = Seq::<char>::empty();
    start_goes(none, t);
    assert(none + t =~= t);
    end_goes(t, none);
    assert(t + none =~= t);
    if t.len() > 0 {
        start_goes(a, t + b);
        assert((t + b)[0] == t[0]);
        assert(a + t + b =~= a + (t + b));
    } else {
        assert(a + t + b =~= (a + b) + none);
        assert(all_space(a + b)) by {
            assert forall|i: int| 0 <= i < (a + b).len() implies is_space(#[trigger] (a + b)[i]) by {
                if i >= a.len() {
                    assert((a + b)[i] == b[i - a.len()]);
                } else {
                    assert((a + b)[i] == a[i]);
                }
            }
        }
        start_goes(a + b, none);
        assert(t =~= none);
    }
}

/// What is left of any text neither starts nor ends with white space.
pub proof fn what_is_left_is_trim(s: Seq<char>)
    ensures
        is_trim(trimmed(s)),
        is_trim(trimmed(s)) && trimmed(trimmed(s)) == trimmed(s),
{
    start_is_bare(s);
    end_is_bare(trimmed_start(s));
    only_white_space_around_goes(Seq::empty(), trimmed(s), Seq::empty());
}

proof fn start_is_bare(s: Seq<char>)
    ensures
        trimmed_start(s).len() > 0 ==> !is_space(trimmed_start(s)[0]),
    decreases s.len(),
{
    if s.len() > 0 {
        start_is_bare(s.skip(1));
    }
}

proof fn end_is_bare(s: Seq<char>)
    ensures
        trimmed_end(s).len() > 0 ==> !is_space(trimmed_end(s).last()) && s.len() > 0
            && trimmed_end(s)[0] == s[0],
    decreases s.len(),
{
    if s.len() > 0 {
        end_is_bare(s.drop_last());
    }
}

} // verus!
