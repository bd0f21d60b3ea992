//! Paths and references within a book.
use vstd::prelude::*;
use crate::archive::leaf;
use crate::parser::{is_word, swap_char};
use crate::text::{
    char_from, char_from_none, chars_of, find_char, join, join_all, join_holds, last_char, part, push_all, push_str, replace,
    replaced, replaced_absent, replaced_leaves_none, rfind_char, split, split_at, split_from,
    split_of_join, split_parts, strip_start, stripped_start, string_of, texts,
    texts_push,
};
use crate::transfer::{percent_decode, percent_decoded};

verus! {

/// One segment of a path behind those that count so far: empty segments and `.` say nothing, and
/// `..` takes the last away.
pub open spec fn seg_step(done: Seq<Seq<char>>, seg: Seq<char>) -> Seq<Seq<char>> {
    if seg == ""@ || seg == "."@ {
        done
    } else if seg == ".."@ {
        if done.len() > 0 {
            done.drop_last()
        } else {
            done
        }
    } else {
        done.push(seg)
    }
}

/// The segments of a path that count.
pub open spec fn counted_segs(segs: Seq<Seq<char>>) -> Seq<Seq<char>>
    decreases segs.len(),
{
    if segs.len() == 0 {
        Seq::empty()
    } else {
        seg_step(counted_segs(segs.drop_last()), segs.last())
    }
}

/// A path with `/` between its segments and none that says nothing or leads up.
pub open spec fn normalized(p: Seq<char>) -> Seq<char> {
    join(counted_segs(split(replaced(p, seq!['\\'], "/"@), '/')), "/"@)
}

/// A segment that is the name of something: not empty, and neither `.` nor `..`.
pub open spec fn is_name(seg: Seq<char>) -> bool {
    seg != ""@ && seg != "."@ && seg != ".."@
}

/// Every segment of a normalized path is a name, and one of the segments of the path.
pub proof fn counted_segs_are_names(segs: Seq<Seq<char>>)
    ensures
        forall|i: int|
            0 <= i < counted_segs(segs).len() ==> is_name(#[trigger] counted_segs(segs)[i])
                && segs.contains(counted_segs(segs)[i]),
    decreases segs.len(),
{
    if segs.len() > 0 {
        let front = segs.drop_last();
        counted_segs_are_names(front);
        let done = counted_segs(front);
        let all = counted_segs(segs);
        assert forall|i: int| 0 <= i < all.len() implies is_name(#[trigger] all[i])
            && segs.contains(all[i]) by {
            if i < done.len() {
                assert(all[i] == done[i]);
                let k = choose|k: int| 0 <= k < front.len() && front[k] == done[i];
                assert(segs[k] == done[i]);
            } else {
                assert(all[i] == segs[segs.len() - 1]);
            }
        }
    }
}

/// Names all count.
proof fn names_all_count(segs: Seq<Seq<char>>)
    requires
        forall|i: int| 0 <= i < segs.len() ==> is_name(#[trigger] segs[i]),
    ensures
        counted_segs(segs) == segs,
    decreases segs.len(),
{
    if segs.len() > 0 {
        assert forall|i: int| 0 <= i < segs.drop_last().len() implies is_name(
            #[trigger] segs.drop_last()[i],
        ) by {
            assert(is_name(segs[i]));
        }
        names_all_count(segs.drop_last());
        assert(is_name(segs[segs.len() - 1]));
        assert(segs.drop_last().push(segs.last()) =~= segs);
    } else {
        assert(counted_segs(segs) =~= segs);
    }
}

/// To normalize a path again changes nothing.
pub proof fn normalized_again(p: Seq<char>)
    ensures
        normalized(normalized(p)) == normalized(p),
{
    reveal_strlit("/");
    reveal_strlit("");
    assert("/"@ =~= seq!['/']);
    let q = replaced(p, seq!['\\'], "/"@);
    let raw = split(q, '/');
    let segs = counted_segs(raw);
    let n = normalized(p);
    replaced_leaves_none(p, '\\', "/"@, 0);
    split_parts(q, '/', 0);
    counted_segs_are_names(raw);
    assert forall|i: int| 0 <= i < segs.len() implies !(#[trigger] segs[i]).contains('\\') by {
        let j = choose|j: int| 0 <= j < raw.len() && raw[j] == segs[i];
        if segs[i].contains('\\') {
            let k = choose|k: int| 0 <= k < segs[i].len() && segs[i][k] == '\\';
            assert(split_from(q, '/', 0)[j][k] == '\\');
        }
    }
    assert forall|i: int, k: int| 0 <= i < segs.len() && 0 <= k < segs[i].len() implies segs[i][k]
        != '/' by {
        assert(raw.contains(segs[i]));
        let j = choose|j: int| 0 <= j < raw.len() && raw[j] == segs[i];
        assert(split_from(q, '/', 0)[j][k] != '/');
    }
    join_holds(segs, "/"@, '\\');
    replaced_absent(n, '\\', "/"@, 0);
    assert(n.skip(0) =~= n);
    if segs.len() == 0 {
        assert(n =~= Seq::empty());
        char_from_none(n, '/', 0);
        assert(n.subrange(0, 0) =~= ""@);
        assert(split(n, '/') =~= seq![""@]);
        assert(seq![""@].drop_last() =~= Seq::<Seq<char>>::empty());
        assert(counted_segs(Seq::<Seq<char>>::empty()) == Seq::<Seq<char>>::empty());
        assert(counted_segs(seq![""@]) == Seq::<Seq<char>>::empty());
    } else {
        split_of_join(segs, '/');
        names_all_count(segs);
    }
}

/// Normalizes a path.
pub fn normalize(p: &[char]) -> (r: Vec<char>)
    ensures
        r@ == normalized(p@),
{
    let q = swap_char(p, '\\', "/");
    let parts = split_at(&q, '/');
    let ghost all = texts(parts@);
    let mut segs: Vec<Vec<char>> = Vec::new();
    let mut i: usize = 0;
    assert(all.take(0) =~= Seq::empty());
    assert(texts(segs@) =~= Seq::empty());
    while i < parts.len()
        invariant
            i <= parts@.len(),
            all == texts(parts@),
            texts(segs@) == counted_segs(all.take(i as int)),
        decreases parts@.len() - i,
    {
        let ghost before = segs@;
        let seg = &parts[i];
        assert(all.take(i + 1).drop_last() =~= all.take(i as int));
        assert(all.take(i + 1).last() == seg@);
        if is_word(seg, "") || is_word(seg, ".") {
        } else if is_word(seg, "..") {
            if segs.len() > 0 {
                segs.pop();
                assert(texts(segs@) =~= texts(before).drop_last());
            }
        } else {
            let copy = part(seg, 0, seg.len());
            assert(copy@ =~= seg@);
            segs.push(copy);
            proof {
                texts_push(before, copy);
            }
        }
        i = i + 1;
    }
    assert(all.take(i as int) =~= all);
    let slash = chars_of("/");
    join_all(&segs, &slash)
}

/// Normalizes a path.
pub fn normalize_path(p: &str) -> (r: String)
    ensures
        r@ == normalized(p@),
{
    let cs = chars_of(p);
    let out = normalize(&cs);
    string_of(&out)
}

/// What precedes the first character `c`; the whole text where it has none.
pub open spec fn before_char(s: Seq<char>, c: char) -> Seq<char> {
    match char_from(s, c, 0) {
        Some(i) => s.take(i),
        None => s,
    }
}

/// What a reference leads to from a folder: a path within the archive, without its fragment.
pub open spec fn resolved(base: Seq<char>, href: Seq<char>) -> Seq<char> {
    let decoded = percent_decoded(before_char(href, '#'));
    if decoded.len() > 0 && decoded[0] == '/' {
        normalized(stripped_start(decoded, '/'))
    } else if base.len() == 0 {
        normalized(decoded)
    } else {
        normalized(base + "/"@ + decoded)
    }
}

/// What a reference leads to from a folder.
pub fn resolve(base: &[char], href: &[char]) -> (r: Vec<char>)
    ensures
        r@ == resolved(base@, href@),
{
    let end = match find_char(href, '#', 0) {
        Some(i) => i,
        None => href.len(),
    };
    let head = part(href, 0, end);
    assert(head@ =~= before_char(href@, '#'));
    let decoded = chars_of(percent_decode(string_of(&head).as_str()).as_str());
    if decoded.len() > 0 && decoded[0] == '/' {
        normalize(strip_start(&decoded, '/'))
    } else if base.len() == 0 {
        normalize(&decoded)
    } else {
        let mut whole = part(base, 0, base.len());
        assert(whole@ =~= base@);
        push_str(&mut whole, "/");
        push_all(&mut whole, &decoded);
        normalize(&whole)
    }
}

/// What a reference leads to from a folder.
pub fn resolve_href(base_dir: &str, href: &str) -> (r: String)
    ensures
        r@ == resolved(base_dir@, href@),
{
    let b = chars_of(base_dir);
    let h = chars_of(href);
    let out = resolve(&b, &h);
    string_of(&out)
}

/// The path within the archive of a place that is given from a folder.
pub open spec fn placed(dir: Seq<char>, href: Seq<char>) -> Seq<char> {
    if dir.len() == 0 {
        normalized(href)
    } else {
        normalized(dir + "/"@ + href)
    }
}

/// The path within the archive of a place that is given from a folder.
pub fn place(dir: &[char], href: &[char]) -> (r: Vec<char>)
    ensures
        r@ == placed(dir@, href@),
{
    if dir.len() == 0 {
        normalize(href)
    } else {
        let mut whole = part(dir, 0, dir.len());
        assert(whole@ =~= dir@);
        push_str(&mut whole, "/");
        push_all(&mut whole, href);
        normalize(&whole)
    }
}

/// The folder of a path; empty where it has none.
pub open spec fn parent(p: Seq<char>) -> Seq<char> {
    match last_char(p, '/') {
        Some(i) => p.take(i),
        None => Seq::empty(),
    }
}

/// The folder of a path.
pub fn parent_of(p: &[char]) -> (r: Vec<char>)
    ensures
        r@ == parent(p@),
{
    match rfind_char(p, '/') {
        Some(i) => {
            let r = part(p, 0, i);
            assert(r@ =~= p@.take(i as int));
            r
        },
        None => Vec::new(),
    }
}

/// The folder of a path.
pub fn parent_dir(p: &str) -> (r: String)
    ensures
        r@ == parent(p@),
{
    let cs = chars_of(p);
    let out = parent_of(&cs);
    string_of(&out)
}

/// A reference parted at its fragment, where that is not empty.
pub open spec fn fragment_split(href: Seq<char>) -> (Seq<char>, Option<Seq<char>>) {
    match char_from(href, '#', 0) {
        Some(i) => if i + 1 < href.len() {
            (href.take(i), Some(href.skip(i + 1)))
        } else {
            (href, None)
        },
        None => (href, None),
    }
}

/// Parts a reference at its fragment.
pub fn split_fragment(href: &[char]) -> (r: (Vec<char>, Option<String>))
    ensures
        (r.0@, r.1.deep_view()) == fragment_split(href@),
{
    let n = href.len();
    if let Some(i) = find_char(href, '#', 0) {
        if i + 1 < n {
            let a = part(href, 0, i);
            let b = part(href, i + 1, n);
            assert(a@ =~= href@.take(i as int));
            assert(b@ =~= href@.skip(i + 1));
            return (a, Some(string_of(&b)));
        }
    }
    let a = part(href, 0, n);
    assert(a@ =~= href@);
    (a, None)
}

/// The title of a chapter of which nothing is known but its path: the name without its ending.
pub open spec fn href_title(href: Seq<char>) -> Seq<char> {
    let name = leaf(href);
    match last_char(name, '.') {
        Some(i) => name.take(i),
        None => name,
    }
}

/// The title of a chapter of which nothing is known but its path.
pub fn fallback_title(href: &str) -> (r: String)
    ensures
        r@ == href_title(href@),
{
    let h = chars_of(href);
    let n = h.len();
    let name = match rfind_char(&h, '/') {
        Some(i) => part(&h, i + 1, n),
        None => part(&h, 0, n),
    };
    assert(name@ =~= leaf(href@));
    match rfind_char(&name, '.') {
        Some(i) => {
            let t = part(&name, 0, i);
            assert(t@ =~= name@.take(i as int));
            string_of(&t)
        },
        None => string_of(&name),
    }
}

/// A text with the few entities of XML resolved, the ampersand last.
pub open spec fn plain_text(s: Seq<char>) -> Seq<char> {
    let a = replaced(s, "&lt;"@, "<"@);
    let b = replaced(a, "&gt;"@, ">"@);
    let c = replaced(b, "&quot;"@, "\""@);
    let d = replaced(c, "&apos;"@, "'"@);
    let e = replaced(d, "&#39;"@, "'"@);
    let f = replaced(e, "&#x27;"@, "'"@);
    let g = replaced(f, "&nbsp;"@, "\u{a0}"@);
    replaced(g, "&amp;"@, "&"@)
}

fn swap(s: &[char], needle: &str, with: &str) -> (r: Vec<char>)
    requires
        needle@.len() > 0,
    ensures
        r@ == replaced(s@, needle@, with@),
{
    let n = chars_of(needle);
    let w = chars_of(with);
    replace(s, &n, &w)
}

/// Resolves the few entities of XML.
pub fn resolve_entities(s: &[char]) -> (r: Vec<char>)
    ensures
        r@ == plain_text(s@),
{
    proof {
        reveal_strlit("&lt;");
        reveal_strlit("&gt;");
        reveal_strlit("&quot;");
        reveal_strlit("&apos;");
        reveal_strlit("&#39;");
        reveal_strlit("&#x27;");
        reveal_strlit("&nbsp;");
        reveal_strlit("&amp;");
    }
    let a = swap(s, "&lt;", "<");
    let b = swap(&a, "&gt;", ">");
    let c = swap(&b, "&quot;", "\"");
    let d = swap(&c, "&apos;", "'");
    let e = swap(&d, "&#39;", "'");
    let f = swap(&e, "&#x27;", "'");
    let g = swap(&f, "&nbsp;", "\u{a0}");
    swap(&g, "&amp;", "&")
}

} // verus!
