//! Where references lead: from the folder of a chapter to what lies beside it, and back from an
//! address to the picture that it was made for.
use vstd::prelude::*;
use crate::addresses::a_path_is_read_back;
use crate::archive::entry_bytes;
use crate::parser::epub::book::Epub;
use crate::parser::epub::content::{epub_resource, resource_ref, stated_size};
use crate::parser::epub::hrefs::{
    before_char, counted_segs, fragment_split, normalized, normalized_again, parent, placed,
    resolved,
};
use crate::parser::mime_of;
use crate::routes::resource_path;
use crate::text::{
    char_from, char_from_is_first, char_from_joint, char_from_none, join, join_holds,
    last_char_before, replaced_absent, split, split_of_join, starts, stripped_start, trimmed,
};
use crate::transfer::{percent_decoded, percent_encoded, percent_undone};
use vstd::utf8::encode_utf8;

verus! {

// ---------------------------------------------------------------------------
// Paths
// ---------------------------------------------------------------------------

/// A segment of a path: it has no slash of either kind.
pub open spec fn is_segment(s: Seq<char>) -> bool {
    !s.contains('/') && !s.contains('\\')
}

/// Segments that are names, none of which says nothing or leads up.
pub open spec fn all_names(segs: Seq<Seq<char>>) -> bool {
    forall|i: int|
        0 <= i < segs.len() ==> is_segment(#[trigger] segs[i]) && segs[i].len() > 0 && segs[i]
            != "."@ && segs[i] != ".."@
}

/// Segments of a path, whatever they say.
pub open spec fn all_segments(segs: Seq<Seq<char>>) -> bool {
    forall|i: int| 0 <= i < segs.len() ==> is_segment(#[trigger] segs[i])
}

/// The path that segments make.
pub open spec fn path_of(segs: Seq<Seq<char>>) -> Seq<char> {
    join(segs, "/"@)
}

proof fn segments_are_counted(segs: Seq<Seq<char>>)
    requires
        segs.len() > 0,
        all_segments(segs),
    ensures
        normalized(path_of(segs)) == path_of(counted_segs(segs)),
{
    reveal_strlit("/");
    assert("/"@ =~= seq!['/']);
    let p = path_of(segs);
    assert forall|i: int| 0 <= i < segs.len() implies !(#[trigger] segs[i]).contains('\\') by {
        assert(is_segment(segs[i]));
    }
    join_holds(segs, "/"@, '\\');
    replaced_absent(p, '\\', "/"@, 0);
    assert(p.skip(0) =~= p);
    assert forall|i: int, k: int| 0 <= i < segs.len() && 0 <= k < segs[i].len() implies segs[i][k]
        != '/' by {
        assert(is_segment(segs[i]));
        assert(segs[i].contains(segs[i][k]));
    }
    split_of_join(segs, '/');
}

proof fn names_count(segs: Seq<Seq<char>>)
    requires
        all_names(segs),
    ensures
        counted_segs(segs) == segs,
    decreases segs.len(),
{
    reveal_strlit("");
    if segs.len() > 0 {
        let front = segs.drop_last();
        assert forall|i: int| 0 <= i < front.len() implies is_segment(#[trigger] front[i])
            && front[i].len() > 0 && front[i] != "."@ && front[i] != ".."@ by {
            assert(front[i] == segs[i]);
        }
        names_count(front);
        assert(is_segment(segs[segs.len() - 1]));
        assert(front.push(segs.last()) =~= segs);
    } else {
        assert(counted_segs(segs) =~= segs);
    }
}

proof fn counted_behind(a: Seq<Seq<char>>, b: Seq<Seq<char>>, c: Seq<Seq<char>>)
    requires
        counted_segs(a) == counted_segs(b),
    ensures
        counted_segs(a + c) == counted_segs(b + c),
    decreases c.len(),
{
    if c.len() == 0 {
        assert(a + c =~= a);
        assert(b + c =~= b);
    } else {
        counted_behind(a, b, c.drop_last());
        assert((a + c).drop_last() =~= a + c.drop_last());
        assert((b + c).drop_last() =~= b + c.drop_last());
    }
}

/// A path of names is what it is. Into a folder and out of it again leads nowhere else, and neither
/// does a dot or an empty segment; nothing leads out of the archive.
pub proof fn a_path_leads_where_it_says(a: Seq<Seq<char>>, name: Seq<char>, b: Seq<Seq<char>>)
    requires
        all_segments(a),
        all_segments(b),
        all_names(seq![name]),
        (a + b).len() > 0,
    ensures
        all_names(a) ==> normalized(path_of(a)) == path_of(a),
        normalized(path_of(a + seq![name, ".."@] + b)) == normalized(path_of(a + b)),
        normalized(path_of(a + seq!["."@] + b)) == normalized(path_of(a + b)),
        normalized(path_of(a + seq![""@] + b)) == normalized(path_of(a + b)),
        normalized(path_of(seq![".."@] + (a + b))) == normalized(path_of(a + b)),
{
    reveal_strlit("");
    reveal_strlit(".");
    reveal_strlit("..");
    assert(seq![name][0] == name);
    if all_names(a) {
        names_count(a);
        if a.len() > 0 {
            segments_are_counted(a);
        } else {
            nothing_stays_nothing();
            assert(path_of(a) =~= Seq::empty());
        }
    }
    let up = seq![name, ".."@];
    assert((a + up).drop_last().drop_last() =~= a);
    assert((a + up).drop_last().last() == name);
    assert(counted_segs((a + up).drop_last()) == counted_segs(a).push(name));
    assert((a + up).last() == ".."@);
    assert(".."@.len() == 2 && "."@.len() == 1 && ""@.len() == 0);
    assert(counted_segs(a + up) =~= counted_segs(a)) by {
        assert(counted_segs(a).push(name).drop_last() =~= counted_segs(a));
    }
    assert((a + seq!["."@]).drop_last() =~= a);
    assert((a + seq![""@]).drop_last() =~= a);
    counted_behind(a + up, a, b);
    counted_behind(a + seq!["."@], a, b);
    counted_behind(a + seq![""@], a, b);
    let none = Seq::<Seq<char>>::empty();
    assert(seq![".."@].drop_last() =~= none);
    assert(counted_segs(none) =~= none);
    assert(counted_segs(seq![".."@]) == none);
    counted_behind(seq![".."@], none, a + b);
    assert(none + (a + b) =~= a + b);
    segments_are_counted(a + b);
    segments_are_counted(a + up + b);
    segments_are_counted(a + seq!["."@] + b);
    segments_are_counted(a + seq![""@] + b);
    segments_are_counted(seq![".."@] + (a + b));
}

proof fn nothing_stays_nothing()
    ensures
        normalized(Seq::empty()) == Seq::<char>::empty(),
{
    reveal_strlit("");
    reveal_strlit("/");
    let n = Seq::<char>::empty();
    replaced_absent(n, '\\', "/"@, 0);
    assert(n.skip(0) =~= n);
    char_from_none(n, '/', 0);
    assert(n.subrange(0, 0) =~= ""@);
    assert(split(n, '/') =~= seq![""@]);
    assert(seq![""@].drop_last() =~= Seq::<Seq<char>>::empty());
    assert(counted_segs(Seq::<Seq<char>>::empty()) == Seq::<Seq<char>>::empty());
    assert(counted_segs(seq![""@]) == Seq::<Seq<char>>::empty());
}

proof fn joining_twice(a: Seq<Seq<char>>, b: Seq<Seq<char>>)
    requires
        a.len() > 0,
        b.len() > 0,
    ensures
        path_of(a) + "/"@ + path_of(b) == path_of(a + b),
    decreases b.len(),
{
    let all = a + b;
    assert(all.drop_last() =~= a + b.drop_last());
    if b.len() == 1 {
        assert(b.drop_last() =~= Seq::empty());
        assert(a + Seq::<Seq<char>>::empty() =~= a);
    } else {
        joining_twice(a, b.drop_last());
        assert(path_of(a) + "/"@ + (path_of(b.drop_last()) + "/"@ + b.last()) =~= path_of(a) + "/"@
            + path_of(b.drop_last()) + "/"@ + b.last());
    }
}

/// A reference leads from the folder it stands in to what lies there, one that starts with two dots to
/// what lies in the folder above, and one that starts with a slash to what lies in the archive
/// itself. Its fragment has no say.
pub proof fn a_reference_leads_from_its_folder(
    dir: Seq<Seq<char>>,
    href: Seq<char>,
    to: Seq<Seq<char>>,
    fragment: Seq<char>,
)
    requires
        all_names(dir),
        all_names(to),
        to.len() > 0,
        !href.contains('#'),
    ensures
        percent_decoded(href) == path_of(to) ==> resolved(path_of(dir), href) == path_of(dir + to),
        dir.len() > 0 && percent_decoded(href) == "../"@ + path_of(to) ==> resolved(
            path_of(dir),
            href,
        ) == path_of(dir.drop_last() + to),
        percent_decoded(href) == "/"@ + path_of(to) ==> resolved(path_of(dir), href) == path_of(to),
        resolved(path_of(dir), href + "#"@ + fragment) == resolved(path_of(dir), href),
        placed(path_of(dir), path_of(to)) == path_of(dir + to),
{
    reveal_strlit("/");
    reveal_strlit("../");
    reveal_strlit("..");
    reveal_strlit(".");
    reveal_strlit("");
    reveal_strlit("#");
    char_from_is_first(href, '#', 0);
    if let Some(i) = char_from(href, '#', 0) {
        assert(href.contains(href[i]));
    }
    assert("#"@ =~= seq!['#']);
    char_from_joint(href, '#', fragment, 0);
    assert((href + "#"@ + fragment).take(href.len() as int) =~= href);
    let t = path_of(to);
    assert(is_segment(to[0]) && to[0].len() > 0);
    path_starts_with_a_name(to);
    let all = dir + to;
    assert forall|i: int| 0 <= i < all.len() implies is_segment(#[trigger] all[i]) && all[i].len()
        > 0 && all[i] != "."@ && all[i] != ".."@ by {
        if i < dir.len() {
            assert(all[i] == dir[i]);
        } else {
            assert(all[i] == to[i - dir.len()]);
        }
    }
    segments_are_counted(all);
    names_count(all);
    segments_are_counted(to);
    names_count(to);
    if dir.len() > 0 {
        joining_twice(dir, to);
        path_starts_with_a_name(dir);
        let name = dir.last();
        let above = dir.drop_last();
        let less = above + to;
        assert forall|i: int| 0 <= i < less.len() implies is_segment(#[trigger] less[i])
            && less[i].len() > 0 && less[i] != "."@ && less[i] != ".."@ by {
            if i < above.len() {
                assert(less[i] == dir[i]);
            } else {
                assert(less[i] == to[i - above.len()]);
            }
        }
        assert(is_segment(dir[dir.len() - 1]));
        assert(all_names(seq![name]));
        assert(all_segments(above)) by {
            assert forall|i: int| 0 <= i < above.len() implies is_segment(#[trigger] above[i]) by {
                assert(above[i] == dir[i]);
            }
        }
        a_path_leads_where_it_says(above, name, to);
        names_count(less);
        segments_are_counted(less);
        let up = seq![".."@] + to;
        joining_twice(seq![".."@], to);
        assert(path_of(up) =~= "../"@ + t);
        joining_twice(dir, up);
        assert(dir + up =~= above + seq![name, ".."@] + to);
        assert(path_of(dir) + "/"@ + ("../"@ + t) == path_of(dir + up));
        assert(("../"@ + t)[0] == '.');
    } else {
        assert(path_of(dir) =~= Seq::empty());
        assert(dir + to =~= to);
    }
    if percent_decoded(href) == "/"@ + t {
        assert(("/"@ + t).skip(1) =~= t);
        assert(("/"@ + t)[0] == '/');
        assert(stripped_start("/"@ + t, '/') == stripped_start(t, '/'));
    }
}

proof fn path_starts_with_a_name(segs: Seq<Seq<char>>)
    requires
        segs.len() > 0,
        all_names(segs),
    ensures
        path_of(segs).len() > 0,
        path_of(segs)[0] != '/',
    decreases segs.len(),
{
    assert(is_segment(segs[0]) && segs[0].len() > 0);
    assert(segs[0].contains(segs[0][0]));
    if segs.len() > 1 {
        let front = segs.drop_last();
        assert forall|i: int| 0 <= i < front.len() implies is_segment(#[trigger] front[i])
            && front[i].len() > 0 && front[i] != "."@ && front[i] != ".."@ by {
            assert(front[i] == segs[i]);
        }
        path_starts_with_a_name(front);
    }
}

/// The folder of what lies in a folder is that folder.
pub proof fn the_folder_of_a_path(dir: Seq<char>, name: Seq<char>)
    requires
        !name.contains('/'),
    ensures
        parent(dir + "/"@ + name) == dir,
        parent(name) == Seq::<char>::empty(),
{
    reveal_strlit("/");
    let p = dir + "/"@ + name;
    assert(p.skip(dir.len() as int + 1) =~= name);
    no_slash_behind(p, dir.len() as int, p.len() as int, name);
    assert(p.take(dir.len() as int) =~= dir);
    no_slash(name, name.len() as int);
}

proof fn no_slash_behind(p: Seq<char>, at: int, upto: int, name: Seq<char>)
    requires
        0 <= at < upto <= p.len(),
        p[at] == '/',
        p.skip(at + 1) == name,
        !name.contains('/'),
    ensures
        last_char_before(p, '/', upto) == Some(at),
    decreases upto,
{
    if upto - 1 > at {
        assert(p[upto - 1] == p.skip(at + 1)[upto - 1 - (at + 1)]);
        assert(name.contains(p[upto - 1]));
        no_slash_behind(p, at, upto - 1, name);
    }
}

proof fn no_slash(name: Seq<char>, upto: int)
    requires
        0 <= upto <= name.len(),
        !name.contains('/'),
    ensures
        last_char_before(name, '/', upto) is None,
    decreases upto,
{
    if upto > 0 {
        assert(name.contains(name[upto - 1]));
        no_slash(name, upto - 1);
    }
}

/// A reference is parted at its first number sign, where anything follows it.
pub proof fn a_fragment_is_what_follows_the_sign(path: Seq<char>, fragment: Seq<char>)
    requires
        !path.contains('#'),
    ensures
        fragment_split(path) == (path, None::<Seq<char>>),
        fragment.len() > 0 ==> fragment_split(path + "#"@ + fragment) == (path, Some(fragment)),
{
    reveal_strlit("#");
    assert("#"@ =~= seq!['#']);
    char_from_is_first(path, '#', 0);
    if let Some(i) = char_from(path, '#', 0) {
        assert(path.contains(path[i]));
    }
    char_from_joint(path, '#', fragment, 0);
    let s = path + "#"@ + fragment;
    assert(s.take(path.len() as int) =~= path);
    assert(s.skip(path.len() as int + 1) =~= fragment);
}

// ---------------------------------------------------------------------------
// Addresses of pictures
// ---------------------------------------------------------------------------

/// An address asks for a resource of a book: it is of the server of resources, and its path names the
/// book and, in a spelling that percent-encoding undoes, the resource.
pub open spec fn asks_for(windows: bool, address: Seq<char>, id: Seq<char>, name: Seq<char>) -> bool {
    exists|spelling: Seq<char>|
        {
            &&& address == (if windows {
                "http://reader-res.localhost"@
            } else {
                "reader-res://localhost"@
            }) + #[trigger] resource_path(id, spelling)
            &&& percent_undone(encode_utf8(spelling), 0) == encode_utf8(name)
        }
}

/// The address that a reference to a picture is exchanged for leads back to the picture. Where it does
/// not carry the picture itself, it asks for the book and for the path that the reference leads to, and
/// what is answered under that path is what the archive holds there.
pub proof fn an_address_leads_back_to_its_picture(b: Epub, dir: Seq<char>, reference: Seq<char>)
    ensures
        ({
            let path = resolved(dir, trimmed(reference));
            match resource_ref(b, dir, reference) {
                Some(address) => if stated_size(b, path) > 102400 {
                    &&& asks_for(b.windows, address, b.book_id, path)
                    &&& path != "cover"@ ==> epub_resource(b, path) == match entry_bytes(
                        b.zip,
                        path,
                    ) {
                        Ok(bytes) => Ok((mime_of(path), bytes)),
                        Err(e) => Err(e),
                    }
                } else {
                    &&& starts(address, "data:"@)
                    &&& entry_bytes(b.zip, path) is Ok
                },
                None => true,
            }
        }),
{
    let path = resolved(dir, trimmed(reference));
    reveal_strlit("http://reader-res.localhost");
    reveal_strlit("http://reader-res.localhost/");
    reveal_strlit("reader-res://localhost");
    reveal_strlit("reader-res://localhost/");
    reveal_strlit("/");
    reveal_strlit("data:");
    if let Some(address) = resource_ref(b, dir, reference) {
        if stated_size(b, path) > 102400 {
            let spelling = percent_encoded(path);
            a_path_is_read_back(path);
            assert(address =~= (if b.windows {
                "http://reader-res.localhost"@
            } else {
                "reader-res://localhost"@
            }) + resource_path(b.book_id, spelling));
            resolved_is_normal(dir, trimmed(reference));
        } else {
            assert(address.subrange(0, 5) =~= "data:"@);
        }
    }
}

proof fn resolved_is_normal(dir: Seq<char>, href: Seq<char>)
    ensures
        normalized(resolved(dir, href)) == resolved(dir, href),
{
    let decoded = percent_decoded(before_char(href, '#'));
    normalized_again(stripped_start(decoded, '/'));
    normalized_again(decoded);
    normalized_again(dir + "/"@ + decoded);
}

} // verus!
