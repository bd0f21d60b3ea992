//! What folding the white space of a text keeps and what it leaves.
use vstd::prelude::*;
use crate::text::{collapsed, is_space, join, word_end, words_from};

verus! {

/// The characters of a text that are no white space, in their order.
pub open spec fn letters(s: Seq<char>) -> Seq<char>
    decreases s.len(),
{
    if s.len() == 0 {
        Seq::empty()
    } else if is_space(s.last()) {
        letters(s.drop_last())
    } else {
        letters(s.drop_last()).push(s.last())
    }
}

/// For each character that is no white space, whether white space parts it from the one before.
/// None parts the first.
pub open spec fn partings(s: Seq<char>) -> Seq<bool>
    decreases s.len(),
{
    if s.len() == 0 {
        Seq::empty()
    } else if is_space(s.last()) {
        partings(s.drop_last())
    } else {
        partings(s.drop_last()).push(
            letters(s.drop_last()).len() > 0 && is_space(s.drop_last().last()),
        )
    }
}

/// The only white space is the blank; it stands neither first nor last, nor twice in a row.
pub open spec fn single_blanks(s: Seq<char>) -> bool {
    &&& forall|i: int| 0 <= i < s.len() && is_space(#[trigger] s[i]) ==> s[i] == ' '
    &&& s.len() > 0 ==> !is_space(s[0]) && !is_space(s.last())
    &&& forall|i: int, j: int|
        #![trigger s[i], s[j]]
        0 <= i && j == i + 1 && j < s.len() ==> !(is_space(s[i]) && is_space(s[j]))
}

proof fn word_end_within(s: Seq<char>, i: int)
    requires
        0 <= i <= s.len(),
    ensures
        i <= word_end(s, i) <= s.len(),
        i < s.len() && !is_space(s[i]) ==> i < word_end(s, i),
        word_end(s, i) < s.len() ==> is_space(s[word_end(s, i)]),
        forall|k: int| i <= k < word_end(s, i) ==> !is_space(#[trigger] s[k]),
    decreases s.len() - i,
{
    if i < s.len() && !is_space(s[i]) {
        word_end_within(s, i + 1);
    }
}

/// A character put behind a text moves the end of a word only where the word goes to the end of
/// the text.
proof fn word_end_push(s: Seq<char>, c: char, i: int)
    requires
        0 <= i <= s.len(),
    ensures
        word_end(s.push(c), i) == if word_end(s, i) == s.len() && !is_space(c) {
            s.len() as int + 1
        } else {
            word_end(s, i)
        },
    decreases s.len() - i,
{
    word_end_within(s, i);
    if i < s.len() {
        assert(s.push(c)[i] == s[i]);
        if !is_space(s[i]) {
            word_end_push(s, c, i + 1);
        }
    } else {
        assert(s.push(c)[i] == c);
        assert(word_end(s.push(c), i + 1) == i + 1);
    }
}

/// The words of a text with a character put behind it, from position `i` on.
pub open spec fn words_grown(w: Seq<Seq<char>>, c: char, goes_on: bool) -> Seq<Seq<char>> {
    if is_space(c) {
        w
    } else if goes_on && w.len() > 0 {
        w.drop_last().push(w.last().push(c))
    } else {
        w.push(seq![c])
    }
}

proof fn words_push(s: Seq<char>, c: char, i: int)
    requires
        0 <= i <= s.len(),
    ensures
        words_from(s.push(c), i) == words_grown(
            words_from(s, i),
            c,
            i < s.len() && !is_space(s.last()),
        ),
        i < s.len() && !is_space(s.last()) ==> words_from(s, i).len() > 0,
    decreases s.len() - i,
{
    let t = s.push(c);
    if i == s.len() {
        assert(t[i] == c);
        assert(words_from(s, i) =~= Seq::empty());
        assert(words_from(t, i + 1) =~= Seq::empty());
        if !is_space(c) {
            assert(word_end(t, i + 1) == i + 1);
            assert(t.subrange(i, i + 1) =~= seq![c]);
            assert(words_from(t, i) =~= seq![seq![c]]);
            assert(Seq::<Seq<char>>::empty().push(seq![c]) =~= seq![seq![c]]);
        }
    } else if is_space(s[i]) {
        assert(t[i] == s[i]);
        words_push(s, c, i + 1);
        if i + 1 == s.len() {
            assert(s.last() == s[i]);
        }
    } else {
        assert(t[i] == s[i]);
        word_end_within(s, i);
        word_end_push(s, c, i);
        let e = word_end(s, i);
        let head = s.subrange(i, e);
        words_push(s, c, e);
        if e == s.len() {
            assert(s.last() == s[e - 1]);
            assert(words_from(s, e) =~= Seq::empty());
            assert(words_from(s, i) =~= seq![head]);
            if is_space(c) {
                assert(t.subrange(i, e) =~= head);
                assert(words_from(t, e) =~= Seq::empty());
            } else {
                assert(t.subrange(i, e + 1) =~= head.push(c));
                assert(words_from(t, e + 1) =~= Seq::empty());
                assert(words_from(t, i) =~= seq![head.push(c)]);
                assert(seq![head].drop_last().push(head.push(c)) =~= seq![head.push(c)]);
            }
        } else {
            assert(t.subrange(i, e) =~= head);
            let rest = words_from(s, e);
            let on = e < s.len() && !is_space(s.last());
            assert(words_from(t, i) == seq![head] + words_grown(rest, c, on));
            if is_space(c) {
            } else if on && rest.len() > 0 {
                assert((seq![head] + rest).drop_last().push((seq![head] + rest).last().push(c))
                    =~= seq![head] + rest.drop_last().push(rest.last().push(c)));
            } else {
                assert((seq![head] + rest).push(seq![c]) =~= seq![head] + rest.push(seq![c]));
            }
        }
    }
}

/// What a character put behind a text adds to the folded text: white space nothing, another
/// character itself, and a blank before it where white space parts it from another.
proof fn folded_push(s: Seq<char>, c: char)
    ensures
        collapsed(s.push(c)) == if is_space(c) {
            collapsed(s)
        } else if s.len() > 0 && !is_space(s.last()) {
            collapsed(s).push(c)
        } else if collapsed(s).len() == 0 {
            seq![c]
        } else {
            collapsed(s).push(' ').push(c)
        },
    decreases s.len(),
{
    words_push(s, c, 0);
    words_have_letters(s, 0);
    reveal_strlit(" ");
    let w = words_from(s, 0);
    let v = words_from(s.push(c), 0);
    if is_space(c) {
    } else if s.len() > 0 && !is_space(s.last()) {
        assert(v.drop_last() =~= w.drop_last());
        if w.len() == 1 {
            assert(v[0] =~= w[0].push(c));
        } else {
            assert(join(v, " "@) =~= join(w, " "@).push(c));
        }
    } else {
        assert(v.drop_last() =~= w);
        if w.len() == 0 {
            assert(v[0] =~= seq![c]);
        } else {
            joined_is_not_empty(w);
            assert(join(v, " "@) =~= join(w, " "@).push(' ').push(c));
        }
    }
}

proof fn words_have_letters(s: Seq<char>, i: int)
    requires
        0 <= i <= s.len(),
    ensures
        forall|k: int| 0 <= k < words_from(s, i).len() ==> (#[trigger] words_from(s, i)[k]).len() > 0,
    decreases s.len() - i,
{
    if i < s.len() {
        if is_space(s[i]) {
            words_have_letters(s, i + 1);
            assert(words_from(s, i) == words_from(s, i + 1));
        } else {
            word_end_within(s, i);
            let e = word_end(s, i);
            words_have_letters(s, e);
            assert forall|k: int| 0 <= k < words_from(s, i).len() implies (
            #[trigger] words_from(s, i)[k]).len() > 0 by {
                assert(words_from(s, i) == seq![s.subrange(i, e)] + words_from(s, e));
                if k > 0 {
                    assert(words_from(s, i)[k] == words_from(s, e)[k - 1]);
                }
            }
        }
    }
}

proof fn joined_is_not_empty(w: Seq<Seq<char>>)
    requires
        w.len() > 0,
        forall|k: int| 0 <= k < w.len() ==> (#[trigger] w[k]).len() > 0,
    ensures
        join(w, " "@).len() > 0,
{
    assert(w[w.len() - 1].len() > 0);
}

/// In a folded text the only white space is the blank; it stands neither first nor last, nor twice
/// in a row.
pub proof fn folded_text_has_single_blanks(s: Seq<char>)
    ensures
        single_blanks(collapsed(s)),
    decreases s.len(),
{
    if s.len() == 0 {
        assert(words_from(s, 0) =~= Seq::empty());
    } else {
        let front = s.drop_last();
        folded_text_has_single_blanks(front);
        assert(front.push(s.last()) =~= s);
        folded_push(front, s.last());
        let before = collapsed(front);
        let after = collapsed(s);
        if !is_space(s.last()) {
            assert forall|i: int, j: int|
                #![trigger after[i], after[j]]
                0 <= i && j == i + 1 && j < after.len() implies !(is_space(after[i]) && is_space(
                after[j],
            )) by {
                if j < before.len() {
                    assert(after[i] == before[i] && after[j] == before[j]);
                } else if i < before.len() {
                    assert(after[i] == before[i]);
                    assert(i == before.len() - 1);
                }
            }
            assert forall|i: int| 0 <= i < after.len() && is_space(
                #[trigger] after[i],
            ) implies after[i] == ' ' by {
                if i < before.len() {
                    assert(after[i] == before[i]);
                }
            }
            if before.len() > 0 {
                assert(after[0] == before[0]);
            } else {
                assert(front.len() > 0 && !is_space(front.last()) ==> false) by {
                    letters_of_folded(front);
                    if front.len() > 0 && !is_space(front.last()) {
                        assert(letters(front).len() > 0);
                        assert(letters(before) =~= Seq::empty());
                    }
                }
            }
        }
    }
}

proof fn letters_push(s: Seq<char>, c: char)
    ensures
        letters(s.push(c)) == if is_space(c) {
            letters(s)
        } else {
            letters(s).push(c)
        },
        partings(s.push(c)) == if is_space(c) {
            partings(s)
        } else {
            partings(s).push(letters(s).len() > 0 && is_space(s.last()))
        },
{
    assert(s.push(c).drop_last() =~= s);
    assert(s.push(c).last() == c);
}

proof fn letters_of_folded(s: Seq<char>)
    ensures
        letters(collapsed(s)) == letters(s),
        letters(s).len() > 0 <==> collapsed(s).len() > 0,
    decreases s.len(),
{
    if s.len() == 0 {
        assert(words_from(s, 0) =~= Seq::empty());
        assert(collapsed(s) =~= Seq::empty());
    } else {
        let front = s.drop_last();
        let c = s.last();
        letters_of_folded(front);
        assert(front.push(c) =~= s);
        folded_push(front, c);
        let before = collapsed(front);
        letters_push(front, c);
        if !is_space(c) {
            letters_push(before, c);
            letters_push(before, ' ');
            letters_push(before.push(' '), c);
            assert(before.len() == 0 ==> before.push(c) =~= seq![c]);
        }
    }
}

/// Folding keeps the characters that are no white space, in their order, and parts two of them by a
/// blank where white space parts them in the text, and nowhere else.
pub proof fn folding_keeps_the_letters(s: Seq<char>)
    ensures
        letters(collapsed(s)) == letters(s),
        partings(collapsed(s)) == partings(s),
    decreases s.len(),
{
    letters_of_folded(s);
    if s.len() == 0 {
        assert(words_from(s, 0) =~= Seq::empty());
        assert(collapsed(s) =~= Seq::empty());
    } else {
        let front = s.drop_last();
        let c = s.last();
        folding_keeps_the_letters(front);
        folded_text_has_single_blanks(front);
        letters_of_folded(front);
        assert(front.push(c) =~= s);
        folded_push(front, c);
        let before = collapsed(front);
        letters_push(front, c);
        if !is_space(c) {
            letters_push(before, c);
            letters_push(before, ' ');
            letters_push(before.push(' '), c);
            assert(before.len() == 0 ==> before.push(c) =~= seq![c]);
            assert(front.len() > 0 && !is_space(front.last()) ==> letters(front).len() > 0);
        }
    }
}

proof fn word_end_behind(s: Seq<char>, i: int, k: int)
    requires
        0 <= i,
        0 <= k,
        i + k <= s.len(),
    ensures
        word_end(s, i + k) == word_end(s.skip(i), k) + i,
    decreases s.len() - i - k,
{
    if i + k < s.len() {
        assert(s.skip(i)[k] == s[i + k]);
        word_end_behind(s, i, k + 1);
    }
}

proof fn words_behind(s: Seq<char>, i: int, k: int)
    requires
        0 <= i,
        0 <= k,
        i + k <= s.len(),
    ensures
        words_from(s, i + k) == words_from(s.skip(i), k),
    decreases s.len() - i - k,
{
    let t = s.skip(i);
    if i + k < s.len() {
        assert(t[k] == s[i + k]);
        words_behind(s, i, k + 1);
        if !is_space(s[i + k]) {
            word_end_behind(s, i, k);
            word_end_within(t, k);
            let e = word_end(t, k);
            assert(s.subrange(i + k, i + e) =~= t.subrange(k, e));
            words_behind(s, i, e);
        }
    }
}

/// Blanks before and behind a text change nothing when it is folded.
pub proof fn blanks_around_change_nothing(s: Seq<char>)
    ensures
        collapsed(seq![' '] + s + seq![' ']) == collapsed(s),
{
    let t = seq![' '] + s;
    assert(seq![' '] + s + seq![' '] =~= t.push(' '));
    folded_push(t, ' ');
    words_behind(t, 1, 0);
    assert(t.skip(1) =~= s);
    assert(t[0] == ' ');
}

/// Folding twice changes nothing.
pub proof fn folding_twice_changes_nothing(s: Seq<char>)
    ensures
        collapsed(collapsed(s)) == collapsed(s),
    decreases s.len(),
{
    if s.len() == 0 {
        assert(words_from(s, 0) =~= Seq::empty());
        assert(collapsed(s) =~= Seq::empty());
        assert(words_from(collapsed(s), 0) =~= Seq::empty());
    } else {
        let front = s.drop_last();
        let c = s.last();
        folding_twice_changes_nothing(front);
        folded_text_has_single_blanks(front);
        assert(front.push(c) =~= s);
        folded_push(front, c);
        let before = collapsed(front);
        if !is_space(c) {
            folded_push(before, c);
            folded_push(before, ' ');
            folded_push(before.push(' '), c);
            assert(before.len() == 0 ==> before.push(c) =~= seq![c]);
        }
    }
}

} // verus!
