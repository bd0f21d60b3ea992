//! Where the pictures and the names of a FictionBook document lead.
use vstd::prelude::*;
use crate::addresses::{a_plain_path_is_read_back, slashed};
use crate::parser::epub::leads::asks_for;
use crate::parser::epub::toc::without_tags;
use crate::parser::fb2::book::{
    binary_by_id, binary_content, fb2_chapter, fb2_html, fb2_resource, fb2_toc, image_element,
    without_space, Fb2,
};
use crate::parser::fb2::document::{
    author_of, declared_encoding, described, description, element_text, given, info, quote_from,
    section_end,
};
use crate::parser::fb2::notes::{note_at_is_first, note_lines, note_of, note_text, with_note};
use crate::parser::{encoded_path, resource_address, unescaped};
use crate::regexes::{group_text, Groups};
use crate::routes::resource_path;
use crate::text::{char_from, char_from_is_first, find_from, is_space, trimmed};
use crate::transfer::base64_text;
use crate::trimming::{only_white_space_around_goes, what_is_left_is_trim};

verus! {

/// A picture that is too large to be carried within its chapter is shown under an address that asks
/// for it: for the book, and for the binary by its name. What is answered under that name is what
/// the binary holds.
pub proof fn a_large_picture_is_asked_for(b: Fb2, id: Seq<char>)
    requires
        binary_content(b, id) is Some,
        binary_content(b, id).unwrap().1.len() > 102400,
        !id.contains('%'),
        !id.contains('\\'),
    ensures
        exists|address: Seq<char>|
            image_element(b, id) == "<img src=\""@ + address + "\" alt=\""@ + id + "\"/>"@
                && #[trigger] asks_for(b.windows, address, b.book_id, "bin:"@ + id),
        fb2_resource(b, "bin:"@ + id) == Ok::<(Seq<char>, Seq<u8>), crate::error::Failure>(
            binary_content(b, id).unwrap(),
        ),
{
    reveal_strlit("bin:");
    reveal_strlit("/");
    reveal_strlit("http://reader-res.localhost");
    reveal_strlit("http://reader-res.localhost/");
    reveal_strlit("reader-res://localhost");
    reveal_strlit("reader-res://localhost/");
    let name = "bin:"@ + id;
    let spelling = encoded_path(name);
    assert(!name.contains('%') && !name.contains('\\')) by {
        assert forall|i: int| 0 <= i < name.len() implies name[i] != '%' && name[i] != '\\' by {
            if i >= 4 {
                assert(name[i] == id[i - 4]);
                assert(id.contains(id[i - 4]));
            }
        }
    }
    a_plain_path_is_read_back(name);
    assert(slashed(name) =~= name) by {
        assert forall|i: int| 0 <= i < name.len() implies slashed(name)[i] == name[i] by {
            assert(name.contains(name[i]));
        }
    }
    let address = resource_address(b.windows, b.book_id, name);
    assert(address =~= (if b.windows {
        "http://reader-res.localhost"@
    } else {
        "reader-res://localhost"@
    }) + resource_path(b.book_id, spelling));
    assert(asks_for(b.windows, address, b.book_id, name));
    assert(name.subrange(0, 4) =~= "bin:"@);
    assert(name.skip(4) =~= id);
}

/// A binary is found by its name: the first that has it.
pub proof fn a_binary_is_found_by_its_name(b: Fb2, k: int)
    requires
        0 <= k < b.binaries.len(),
        forall|j: int| 0 <= j < k ==> (#[trigger] b.binaries[j]).id != b.binaries[k].id,
    ensures
        binary_by_id(b.binaries, b.binaries[k].id, 0) == Some(k),
{
    found_from(b, k, 0);
}

proof fn found_from(b: Fb2, k: int, i: int)
    requires
        0 <= i <= k < b.binaries.len(),
        forall|j: int| 0 <= j < k ==> (#[trigger] b.binaries[j]).id != b.binaries[k].id,
    ensures
        binary_by_id(b.binaries, b.binaries[k].id, i) == Some(k),
    decreases k - i,
{
    if i < k {
        assert(b.binaries[i].id != b.binaries[k].id);
        found_from(b, k, i + 1);
    }
}

/// Each chapter has its entry in the table of contents, under its own title or, where it has none,
/// under its number; and it shows the part of the document that it is.
pub proof fn every_chapter_has_its_entry(b: Fb2, i: int)
    requires
        0 <= i < b.chapters.len() <= u32::MAX,
    ensures
        fb2_toc(b.chapters).len() == b.chapters.len(),
        fb2_toc(b.chapters)[i].chapter_index == i,
        b.chapters[i].title.len() > 0 ==> fb2_toc(b.chapters)[i].label == b.chapters[i].title,
        b.chapters[i].title.len() == 0 ==> fb2_toc(b.chapters)[i].label == "第 "@
            + crate::numbers::decimal(i + 1) + " 节"@,
        fb2_chapter(b, i) matches Ok(c) && {
            &&& c.title == fb2_toc(b.chapters)[i].label
            &&& c.chapter_index == i
            &&& c.book_id == b.book_id
            &&& c.html == Some(fb2_html(b, b.xml.subrange(b.chapters[i].start, b.chapters[i].end)))
        },
        fb2_chapter(b, b.chapters.len() as int) is Err,
{
}

/// An author is named by first and last name with a blank between them, by the one that there is, or,
/// where there is neither, by nickname.
pub proof fn an_author_is_named(desc: Seq<char>, a: int, e: int)
    requires
        0 <= a <= e <= desc.len(),
        find_from(desc, "<author"@, 0) == Some(a),
        find_from(desc, "</author>"@, a) == Some(e),
    ensures
        ({
            let x = desc.subrange(a, e);
            let first = trimmed(given(element_text(x, "first-name"@)));
            let last = trimmed(given(element_text(x, "last-name"@)));
            &&& first.len() > 0 && last.len() > 0 ==> author_of(desc) == Some(
                first + seq![' '] + last,
            )
            &&& first.len() > 0 && last.len() == 0 ==> author_of(desc) == Some(first)
            &&& first.len() == 0 && last.len() > 0 ==> author_of(desc) == Some(last)
            &&& first.len() == 0 && last.len() == 0 && element_text(x, "nickname"@) is Some
                ==> author_of(desc) == element_text(x, "nickname"@)
        }),
{
    reveal_strlit(" ");
    let x = desc.subrange(a, e);
    let first = trimmed(given(element_text(x, "first-name"@)));
    let last = trimmed(given(element_text(x, "last-name"@)));
    let none = Seq::<char>::empty();
    what_is_left_is_trim(given(element_text(x, "first-name"@)));
    what_is_left_is_trim(given(element_text(x, "last-name"@)));
    let whole = first + " "@ + last;
    assert(whole =~= first + seq![' '] + last);
    if first.len() > 0 && last.len() > 0 {
        assert(whole[0] == first[0] && whole.last() == last.last());
        only_white_space_around_goes(none, whole, none);
    } else if first.len() > 0 {
        only_white_space_around_goes(none, first, seq![' ']);
        assert(whole =~= none + first + seq![' ']);
    } else if last.len() > 0 {
        only_white_space_around_goes(seq![' '], last, none);
        assert(whole =~= seq![' '] + last + none);
    } else {
        only_white_space_around_goes(seq![' '], none, none);
        assert(whole =~= seq![' '] + none + none);
    }
}


/// A small picture is carried within the chapter, all of it and as what it is.
pub proof fn a_small_picture_is_carried(b: Fb2, id: Seq<char>, mime: Seq<char>, bytes: Seq<u8>)
    requires
        binary_content(b, id) == Some((mime, bytes)),
        bytes.len() <= 100 * 1024,
    ensures
        image_element(b, id) == "<img src=\"data:"@ + mime + ";base64,"@ + base64_text(bytes) + "\"/>"@,
{
}

/// White space among the letters of a binary has no say, and every other letter counts.
pub proof fn only_white_space_is_left_out(s: Seq<char>)
    ensures
        without_space(s) == s.filter(|c: char| !is_space(c)),
    decreases s.len(),
{
    reveal(Seq::filter);
    if s.len() > 0 {
        only_white_space_is_left_out(s.drop_last());
    }
}

/// The words of an element are those between its tags, whatever its attributes; tags among them and white
/// space around them do not count, and what is escaped is shown.
pub proof fn an_element_has_its_words(
    pre: Seq<char>,
    tag: Seq<char>,
    attrs: Seq<char>,
    inner: Seq<char>,
    post: Seq<char>,
)
    requires
        !attrs.contains('>'),
        ({
            let xml = pre + ("<"@ + tag) + attrs + seq!['>'] + inner + ("</"@ + tag + ">"@) + post;
            let start = pre.len() + ("<"@ + tag).len() + attrs.len() + 1;
            &&& find_from(xml, "<"@ + tag, 0) == Some(pre.len() as int)
            &&& find_from(xml, "</"@ + tag + ">"@, start as int) == Some((start + inner.len()) as int)
        }),
    ensures
        element_text(pre + ("<"@ + tag) + attrs + seq!['>'] + inner + ("</"@ + tag + ">"@) + post, tag)
            == Some(unescaped(trimmed(without_tags(inner)))),
{
    let opening = "<"@ + tag;
    let xml = pre + opening + attrs + seq!['>'] + inner + ("</"@ + tag + ">"@) + post;
    let from = (pre.len() + opening.len()) as int;
    let b = from + attrs.len();
    assert(xml[b] == '>');
    char_from_is_first(xml, '>', from);
    assert forall|j: int| from <= j < b implies xml[j] != '>' by {
        assert(xml[j] == attrs[j - from]);
        assert(attrs.contains(attrs[j - from]));
    }
    let found = char_from(xml, '>', from).unwrap();
    if found < b {
        assert(xml[found] != '>');
    }
    assert(xml.subrange(b + 1, b + 1 + inner.len()) =~= inner);
}

/// A note is kept under its name: what was noted before stays as it is, and a second note of a name adds
/// nothing.
pub proof fn a_note_is_kept_under_its_name(xml: Seq<char>, m: Groups, notes: Seq<(Seq<char>, Seq<char>)>)
    ensures
        ({
            let after = with_note(xml, m, notes);
            let id = unescaped(given(group_text(xml, m, 1)));
            let known = exists|i: int| 0 <= i < notes.len() && (#[trigger] notes[i]).0 == id;
            let (start, tag_end) = m[0].unwrap();
            let end = section_end(xml, start);
            &&& after.take(notes.len() as int) == notes
            &&& known ==> after == notes
            &&& !known && tag_end < end && note_text(xml.subrange(tag_end, end)).len() > 0 ==> after
                == notes.push((id, note_text(xml.subrange(tag_end, end)))) && note_of(after, id) == Some(
                note_text(xml.subrange(tag_end, end)),
            )
        }),
{
    let after = with_note(xml, m, notes);
    let id = unescaped(given(group_text(xml, m, 1)));
    note_at_is_first(notes, id, notes.len() as int);
    note_at_is_first(after, id, after.len() as int);
    assert(after.take(notes.len() as int) =~= notes);
    if after.len() > notes.len() {
        assert(after[notes.len() as int].0 == id);
        assert forall|i: int| 0 <= i < notes.len() implies after[i].0 != id by {
            assert(after[i] == notes[i]);
        }
    }
}

/// The lines of a note are those of its rows that are not blank, in their order.
pub proof fn blank_lines_of_a_note_go(rows: Seq<Seq<char>>, k: int) -> (of: Seq<int>)
    requires
        0 <= k <= rows.len(),
    ensures
        of.len() == note_lines(rows, k).len(),
        forall|i: int|
            0 <= i < of.len() ==> 0 <= #[trigger] of[i] < k && note_lines(rows, k)[i] == unescaped(
                trimmed(rows[of[i]]),
            ) && note_lines(rows, k)[i].len() > 0,
        forall|i: int, j: int|
            #![trigger of[i], of[j]]
            0 <= i < j < of.len() ==> of[i] < of[j],
        forall|j: int|
            0 <= j < k && unescaped(trimmed(#[trigger] rows[j])).len() > 0 ==> of.contains(j),
    decreases k,
{
    if k == 0 {
        Seq::empty()
    } else {
        let before = blank_lines_of_a_note_go(rows, k - 1);
        if unescaped(trimmed(rows[k - 1])).len() > 0 {
            let of = before.push(k - 1);
            assert forall|j: int|
                0 <= j < k && unescaped(trimmed(#[trigger] rows[j])).len() > 0 implies of.contains(j) by {
                if j == k - 1 {
                    assert(of[before.len() as int] == j);
                } else {
                    assert(before.contains(j));
                    let i = choose|i: int| 0 <= i < before.len() && before[i] == j;
                    assert(of[i] == j);
                }
            }
            of
        } else {
            before
        }
    }
}

/// The title and the author are those of the book, and the publisher that of the edition, wherever else such
/// words stand.
pub proof fn a_book_is_described(xml: Seq<char>, d: Seq<char>, own: Seq<char>, edition: Seq<char>)
    requires
        description(xml) == Some(d),
        info(d, "title-info"@) == own,
        info(d, "publish-info"@) == edition,
    ensures
        described(xml).title == element_text(own, "book-title"@),
        described(xml).author == author_of(own),
        described(xml).publisher == element_text(edition, "publisher"@),
{
}


proof fn quote_is_there(s: Seq<char>, i: int, k: int)
    requires
        0 <= i <= k < s.len(),
        s[k] == '"' || s[k] == '\'',
        forall|j: int| i <= j < k ==> s[j] != '"' && s[j] != '\'',
    ensures
        quote_from(s, i) == Some(k),
    decreases k - i,
{
    if i < k {
        quote_is_there(s, i + 1, k);
    }
}

/// The encoding that a document declares is what stands between the quotes, of either kind.
pub proof fn an_encoding_is_declared(pre: Seq<char>, quote: char, label: Seq<char>, rest: Seq<char>)
    requires
        quote == '"' || quote == '\'',
        !label.contains('"') && !label.contains('\''),
        find_from(pre + "encoding="@ + seq![quote] + label + seq![quote] + rest, "encoding="@, 0) == Some(
            pre.len() as int,
        ),
    ensures
        declared_encoding(pre + "encoding="@ + seq![quote] + label + seq![quote] + rest) == Some(label),
{
    reveal_strlit("encoding=");
    let s = pre + "encoding="@ + seq![quote] + label + seq![quote] + rest;
    let a = pre.len() as int + 9;
    assert(s[a] == quote);
    quote_is_there(s, a, a);
    let b = a + 1 + label.len();
    assert(s[b] == quote);
    assert forall|j: int| a + 1 <= j < b implies s[j] != '"' && s[j] != '\'' by {
        assert(s[j] == label[j - a - 1]);
        assert(label.contains(label[j - a - 1]));
    }
    quote_is_there(s, a + 1, b);
    assert(s.subrange(a + 1, b) =~= label);
}

} // verus!
