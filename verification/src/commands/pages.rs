//! What the text of a page is: the words that the page shows.
use vstd::prelude::*;
use crate::commands::search::{
    bare_tag, is_block, name_end, named_tag, page_text, tagless_from, BLOCK_TAGS,
};
use crate::folding::{blanks_around_change_nothing, folding_keeps_the_letters, letters};
use crate::parser::escapes::{
    escaping_goes_piece_by_piece, no_quote_is_left, what_is_escaped_is_read_back,
};
use crate::parser::escaped;
use crate::text::{
    char_from, char_from_is_first, collapsed, lower_ascii, one_word,
};

verus! {

// ---------------------------------------------------------------------------
// Pages, piece by piece
// ---------------------------------------------------------------------------

/// A piece of a page: words, or a tag with what stands between its brackets.
#[verifier::ext_equal]
pub enum PagePiece {
    Words(Seq<char>),
    Tag(Seq<char>),
}

/// How a piece is written: words with the marks of tags and entities escaped, a tag in its brackets.
pub open spec fn piece_written(p: PagePiece) -> Seq<char> {
    match p {
        PagePiece::Words(t) => escaped(t),
        PagePiece::Tag(inner) => seq!['<'] + inner + seq!['>'],
    }
}

/// What a piece shows: the words as they are; a tag nothing, but one that sets apart a blank.
pub open spec fn piece_shown(p: PagePiece) -> Seq<char> {
    match p {
        PagePiece::Words(t) => t,
        PagePiece::Tag(inner) => if is_block(named_tag(inner)) {
            seq![' ']
        } else {
            Seq::empty()
        },
    }
}

/// Pieces, one behind the other.
pub open spec fn all_written(ps: Seq<PagePiece>) -> Seq<char>
    decreases ps.len(),
{
    if ps.len() == 0 {
        Seq::empty()
    } else {
        piece_written(ps[0]) + all_written(ps.drop_first())
    }
}

/// What pieces show, one behind the other.
pub open spec fn all_shown(ps: Seq<PagePiece>) -> Seq<char>
    decreases ps.len(),
{
    if ps.len() == 0 {
        Seq::empty()
    } else {
        piece_shown(ps[0]) + all_shown(ps.drop_first())
    }
}

proof fn char_behind(s: Seq<char>, c: char, i: int, k: int)
    requires
        0 <= i,
        0 <= k,
        i + k <= s.len(),
    ensures
        char_from(s, c, i + k) == match char_from(s.skip(i), c, k) {
            Some(e) => Some(e + i),
            None => None,
        },
    decreases s.len() - i - k,
{
    if i + k < s.len() {
        assert(s.skip(i)[k] == s[i + k]);
        char_behind(s, c, i, k + 1);
    }
}

proof fn tagless_behind(s: Seq<char>, i: int, k: int)
    requires
        0 <= i,
        0 <= k,
        i + k <= s.len(),
    ensures
        tagless_from(s, i + k) == tagless_from(s.skip(i), k),
    decreases s.len() - i - k,
{
    let t = s.skip(i);
    if i + k < s.len() {
        assert(t[k] == s[i + k]);
        tagless_behind(s, i, k + 1);
        char_behind(s, '>', i, k);
        if let Some(e) = char_from(t, '>', k) {
            if k < e < t.len() {
                assert(s.subrange(i + k + 1, e + i) =~= t.subrange(k + 1, e));
                tagless_behind(s, i, e + 1);
            }
        }
    }
}

proof fn words_stay(a: Seq<char>, rest: Seq<char>)
    requires
        !a.contains('<'),
    ensures
        tagless_from(a + rest, 0) == a + tagless_from(rest, 0),
    decreases a.len(),
{
    let s = a + rest;
    if a.len() == 0 {
        assert(s =~= rest);
        assert(a + tagless_from(rest, 0) =~= tagless_from(rest, 0));
    } else {
        let t = a.drop_first();
        assert(a.contains(a[0]));
        assert(!t.contains('<')) by {
            if t.contains('<') {
                let k = choose|k: int| 0 <= k < t.len() && t[k] == '<';
                assert(a[k + 1] == '<');
            }
        }
        words_stay(t, rest);
        assert(s[0] == a[0]);
        tagless_behind(s, 1, 0);
        assert(s.skip(1) =~= t + rest);
        assert(seq![a[0]] + (t + tagless_from(rest, 0)) =~= a + tagless_from(rest, 0));
    }
}

proof fn a_tag_goes(inner: Seq<char>, rest: Seq<char>)
    requires
        !inner.contains('>'),
    ensures
        tagless_from(seq!['<'] + inner + seq!['>'] + rest, 0) == piece_shown(PagePiece::Tag(inner))
            + tagless_from(rest, 0),
{
    let s = seq!['<'] + inner + seq!['>'] + rest;
    let e = inner.len() as int + 1;
    assert(s[0] == '<');
    assert(s[e] == '>');
    char_from_is_first(s, '>', 0);
    if let Some(k) = char_from(s, '>', 0) {
        if 0 < k < e {
            assert(s[k] == inner[k - 1]);
            assert(inner.contains(inner[k - 1]));
        }
    }
    assert(char_from(s, '>', 0) == Some(e));
    assert(s.subrange(1, e) =~= inner);
    tagless_behind(s, e + 1, 0);
    assert(s.skip(e + 1) =~= rest);
}

proof fn pieces_lose_their_tags(ps: Seq<PagePiece>)
    requires
        forall|k: int|
            0 <= k < ps.len() ==> ((#[trigger] ps[k]) matches PagePiece::Tag(inner) ==> !inner.contains(
                '>',
            )),
    ensures
        tagless_from(all_written(ps), 0) == escaped(all_shown(ps)),
    decreases ps.len(),
{
    escaping_goes_piece_by_piece(Seq::empty(), Seq::empty());
    if ps.len() > 0 {
        let more = ps.drop_first();
        pieces_lose_their_tags(more);
        escaping_goes_piece_by_piece(piece_shown(ps[0]), all_shown(more));
        match ps[0] {
            PagePiece::Words(t) => {
                no_quote_is_left(t);
                words_stay(escaped(t), all_written(more));
            },
            PagePiece::Tag(inner) => {
                a_tag_goes(inner, all_written(more));
            },
        }
    }
}

/// The text of a page is what the page shows: whatever words are written into it, with the marks of
/// tags and entities escaped, and whatever tags stand between them, the text is those words, one
/// blank apart wherever white space or a tag that sets apart stands between them.
pub proof fn a_page_has_the_text_that_it_shows(ps: Seq<PagePiece>)
    requires
        forall|k: int|
            0 <= k < ps.len() ==> ((#[trigger] ps[k]) matches PagePiece::Tag(inner) ==> !inner.contains(
                '>',
            )),
    ensures
        page_text(all_written(ps)) == collapsed(all_shown(ps)),
        letters(page_text(all_written(ps))) == letters(all_shown(ps)),
{
    pieces_lose_their_tags(ps);
    what_is_escaped_is_read_back(all_shown(ps));
    folding_keeps_the_letters(all_shown(ps));
}

// ---------------------------------------------------------------------------
// Tags
// ---------------------------------------------------------------------------

/// The names of the tags that begin and end a block of a page, or break or rule a line.
pub open spec fn is_block_name(name: Seq<char>) -> bool {
    ||| name == "p"@
    ||| name == "div"@
    ||| name == "br"@
    ||| name == "hr"@
    ||| name == "h1"@
    ||| name == "h2"@
    ||| name == "h3"@
    ||| name == "h4"@
    ||| name == "h5"@
    ||| name == "h6"@
    ||| name == "li"@
    ||| name == "tr"@
    ||| name == "td"@
    ||| name == "th"@
    ||| name == "blockquote"@
    ||| name == "table"@
    ||| name == "section"@
    ||| name == "article"@
    ||| name == "aside"@
    ||| name == "figure"@
    ||| name == "figcaption"@
    ||| name == "pre"@
    ||| name == "ul"@
    ||| name == "ol"@
    ||| name == "dl"@
    ||| name == "dt"@
    ||| name == "dd"@
}

/// The tags that set apart are those of blocks.
pub proof fn blocks_set_apart(name: Seq<char>)
    ensures
        is_block(name) <==> is_block_name(name),
{
    let s = BLOCK_TAGS@;
    reveal_strlit("p div br hr h1 h2 h3 h4 h5 h6 li tr td th blockquote table section article aside figure figcaption pre ul ol dl dt dd");
    reveal_strlit("p");
    reveal_strlit("div");
    reveal_strlit("br");
    reveal_strlit("hr");
    reveal_strlit("h1");
    reveal_strlit("h2");
    reveal_strlit("h3");
    reveal_strlit("h4");
    reveal_strlit("h5");
    reveal_strlit("h6");
    reveal_strlit("li");
    reveal_strlit("tr");
    reveal_strlit("td");
    reveal_strlit("th");
    reveal_strlit("blockquote");
    reveal_strlit("table");
    reveal_strlit("section");
    reveal_strlit("article");
    reveal_strlit("aside");
    reveal_strlit("figure");
    reveal_strlit("figcaption");
    reveal_strlit("pre");
    reveal_strlit("ul");
    reveal_strlit("ol");
    reveal_strlit("dl");
    reveal_strlit("dt");
    reveal_strlit("dd");
    one_word(s, name, 0, 1);
    one_word(s, name, 2, 5);
    one_word(s, name, 6, 8);
    one_word(s, name, 9, 11);
    one_word(s, name, 12, 14);
    one_word(s, name, 15, 17);
    one_word(s, name, 18, 20);
    one_word(s, name, 21, 23);
    one_word(s, name, 24, 26);
    one_word(s, name, 27, 29);
    one_word(s, name, 30, 32);
    one_word(s, name, 33, 35);
    one_word(s, name, 36, 38);
    one_word(s, name, 39, 41);
    one_word(s, name, 42, 52);
    one_word(s, name, 53, 58);
    one_word(s, name, 59, 66);
    one_word(s, name, 67, 74);
    one_word(s, name, 75, 80);
    one_word(s, name, 81, 87);
    one_word(s, name, 88, 98);
    one_word(s, name, 99, 102);
    one_word(s, name, 103, 105);
    one_word(s, name, 106, 108);
    one_word(s, name, 109, 111);
    one_word(s, name, 112, 114);
    one_word(s, name, 115, 117);
    assert(s.subrange(0, 1) =~= "p"@);
    assert(s.subrange(2, 5) =~= "div"@);
    assert(s.subrange(6, 8) =~= "br"@);
    assert(s.subrange(9, 11) =~= "hr"@);
    assert(s.subrange(12, 14) =~= "h1"@);
    assert(s.subrange(15, 17) =~= "h2"@);
    assert(s.subrange(18, 20) =~= "h3"@);
    assert(s.subrange(21, 23) =~= "h4"@);
    assert(s.subrange(24, 26) =~= "h5"@);
    assert(s.subrange(27, 29) =~= "h6"@);
    assert(s.subrange(30, 32) =~= "li"@);
    assert(s.subrange(33, 35) =~= "tr"@);
    assert(s.subrange(36, 38) =~= "td"@);
    assert(s.subrange(39, 41) =~= "th"@);
    assert(s.subrange(42, 52) =~= "blockquote"@);
    assert(s.subrange(53, 58) =~= "table"@);
    assert(s.subrange(59, 66) =~= "section"@);
    assert(s.subrange(67, 74) =~= "article"@);
    assert(s.subrange(75, 80) =~= "aside"@);
    assert(s.subrange(81, 87) =~= "figure"@);
    assert(s.subrange(88, 98) =~= "figcaption"@);
    assert(s.subrange(99, 102) =~= "pre"@);
    assert(s.subrange(103, 105) =~= "ul"@);
    assert(s.subrange(106, 108) =~= "ol"@);
    assert(s.subrange(109, 111) =~= "dl"@);
    assert(s.subrange(112, 114) =~= "dt"@);
    assert(s.subrange(115, 117) =~= "dd"@);
}

proof fn letters_end_a_name(name: Seq<char>, rest: Seq<char>, i: int)
    requires
        0 <= i <= name.len(),
        forall|k: int| 0 <= k < name.len() ==> crate::commands::search::is_alnum(#[trigger] name[k]),
        rest.len() > 0 ==> !crate::commands::search::is_alnum(rest[0]),
    ensures
        name_end(name + rest, i) == name.len(),
    decreases name.len() - i,
{
    if i < name.len() {
        assert((name + rest)[i] == name[i]);
        letters_end_a_name(name, rest, i + 1);
    } else if rest.len() > 0 {
        assert((name + rest)[i] == rest[0]);
    }
}

/// A tag is known by its name, whatever attributes follow, whether it opens or closes, and in capitals
/// as in small letters.
pub proof fn a_tag_is_known_by_its_name(name: Seq<char>, rest: Seq<char>)
    requires
        name.len() > 0,
        forall|k: int| 0 <= k < name.len() ==> crate::commands::search::is_alnum(#[trigger] name[k]),
        rest.len() > 0 ==> !crate::commands::search::is_alnum(rest[0]),
    ensures
        named_tag(name + rest) == lower_ascii(name),
        named_tag(seq!['/'] + (name + rest)) == lower_ascii(name),
{
    let t = name + rest;
    assert(crate::commands::search::is_alnum(name[0]));
    assert(t[0] == name[0]);
    letters_end_a_name(name, rest, 0);
    assert(t.take(name.len() as int) =~= name);
    let c = seq!['/'] + t;
    assert(c[0] == '/');
    assert(c.skip(1) =~= t);
    assert(bare_tag(c) == bare_tag(t));
}

proof fn a_block(name: Seq<char>)
    requires
        name == "p"@,
    ensures
        is_block(named_tag(name)),
        is_block(named_tag(seq!['/'] + name)),
        !name.contains('>'),
        !(seq!['/'] + name).contains('>'),
{
    reveal_strlit("p");
    a_tag_is_known_by_its_name(name, Seq::empty());
    assert(name + Seq::<char>::empty() =~= name);
    assert(lower_ascii(name) =~= name);
    blocks_set_apart(name);
}

/// A paragraph has the text that was written into it: nothing of it is lost, whatever its characters.
pub proof fn a_paragraph_has_its_text(t: Seq<char>)
    ensures
        page_text("<p>"@ + escaped(t) + "</p>"@) == collapsed(t),
        letters(page_text("<p>"@ + escaped(t) + "</p>"@)) == letters(t),
{
    reveal_strlit("p");
    reveal_strlit("<p>");
    reveal_strlit("</p>");
    let open = PagePiece::Tag("p"@);
    let close = PagePiece::Tag(seq!['/'] + "p"@);
    let ps = seq![open, PagePiece::Words(t), close];
    a_block("p"@);
    a_page_has_the_text_that_it_shows(ps);
    pieces_of_three(ps);
    assert(all_written(ps) =~= "<p>"@ + escaped(t) + "</p>"@);
    assert(all_shown(ps) =~= seq![' '] + t + seq![' ']);
    blanks_around_change_nothing(t);
    folding_keeps_the_letters(t);
}

proof fn pieces_of_three(ps: Seq<PagePiece>)
    requires
        ps.len() == 3,
    ensures
        all_written(ps) == piece_written(ps[0]) + (piece_written(ps[1]) + piece_written(ps[2])),
        all_shown(ps) == piece_shown(ps[0]) + (piece_shown(ps[1]) + piece_shown(ps[2])),
{
    let a = ps.drop_first();
    let b = a.drop_first();
    let c = b.drop_first();
    assert(a[0] == ps[1] && b[0] == ps[2]);
    assert(all_written(c) =~= Seq::empty());
    assert(all_shown(c) =~= Seq::empty());
    assert(all_written(b) =~= piece_written(ps[2]));
    assert(all_shown(b) =~= piece_shown(ps[2]));
    assert(all_written(a) == piece_written(ps[1]) + all_written(b));
    assert(all_shown(a) == piece_shown(ps[1]) + all_shown(b));
}

} // verus!
