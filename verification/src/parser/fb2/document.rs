//! The parts of a FictionBook document: its description and its sections.
use vstd::prelude::*;
use crate::decoding::{decode_as, decode_to_utf8, decoded_file, decoding, from_utf8_lossy, utf8_lossy};
use crate::error::{AppResult, Failure};
use crate::parser::epub::toc::without_tags;
use crate::parser::{is_word, unescape, unescaped};
use crate::regexes::{
    find_group, first_group, group, group_text, in_order, ints, regex_spans, remove, row_of, spans,
    Groups, ANY_TAG, FB2_COVER, FB2_PARAGRAPH, FB2_TITLE,
};
use crate::text::{
    char_from, char_from_is_first, chars_of, find, find_char, find_from, is_at, join, join_all,
    lower_ascii, part, push_all, push_str, stands_at, string_of, texts, texts_push, to_lower_ascii,
    trim, trimmed,
};
use crate::views::{deep_empty, deep_push};

verus! {

/// The largest file, in bytes, that is opened.
pub const MAX_FB2_FILE_SIZE: u64 = 209715200;

/// How many characters of a note are kept.
pub const MAX_NOTE_TEXT: usize = 2000;

// ---------------------------------------------------------------------------
// Decoding
// ---------------------------------------------------------------------------

/// The first quote at or after `i`, of either kind.
pub open spec fn quote_from(s: Seq<char>, i: int) -> Option<int>
    decreases s.len() - i,
{
    if i < 0 || i >= s.len() {
        None
    } else if s[i] == '"' || s[i] == '\'' {
        Some(i)
    } else {
        quote_from(s, i + 1)
    }
}

/// The encoding that the start of a document declares.
pub open spec fn declared_encoding(head: Seq<char>) -> Option<Seq<char>> {
    match find_from(head, "encoding="@, 0) {
        None => None,
        Some(p) => match quote_from(head, p + 9) {
            None => None,
            Some(a) => Some(
                match quote_from(head, a + 1) {
                    Some(b) => head.subrange(a + 1, b),
                    None => head.skip(a + 1),
                },
            ),
        },
    }
}

/// The text of a document: in the encoding it declares, else as any text. Where it declares UTF-8
/// and is malformed as such, it is taken as any text too.
pub open spec fn fb2_decoded(bytes: Seq<u8>) -> Result<Seq<char>, Failure> {
    let head = utf8_lossy(
        if bytes.len() < 128 {
            bytes
        } else {
            bytes.take(128)
        },
    );
    match declared_encoding(head) {
        Some(label) => match decoding(label, bytes) {
            Some((s, malformed)) => if malformed && lower_ascii(label) == "utf-8"@ {
                decoded_file(bytes)
            } else {
                Ok(s)
            },
            None => decoded_file(bytes),
        },
        None => decoded_file(bytes),
    }
}

fn find_quote(s: &[char], from: usize) -> (r: Option<usize>)
    ensures
        match r {
            Some(i) => quote_from(s@, from as int) == Some(i as int) && from <= i < s@.len(),
            None => quote_from(s@, from as int) is None,
        },
{
    let mut i: usize = from;
    while i < s.len()
        invariant
            from <= i,
            quote_from(s@, from as int) == quote_from(s@, i as int),
        decreases s@.len() - i,
    {
        if s[i] == '"' || s[i] == '\'' {
            return Some(i);
        }
        i = i + 1;
    }
    None
}

fn read_encoding(head: &[char]) -> (r: Option<Vec<char>>)
    ensures
        match r {
            Some(t) => declared_encoding(head@) == Some(t@),
            None => declared_encoding(head@) is None,
        },
{
    let n = head.len();
    proof {
        reveal_strlit("encoding=");
    }
    match find(head, &chars_of("encoding="), 0) {
        None => None,
        Some(p) => match find_quote(head, p + 9) {
            None => None,
            Some(a) => {
                match find_quote(head, a + 1) {
                    Some(b) => Some(part(head, a + 1, b)),
                    None => {
                        let r = part(head, a + 1, n);
                        assert(r@ =~= head@.skip(a + 1));
                        Some(r)
                    },
                }
            },
        },
    }
}

/// Decodes a document.
pub fn decode_fb2(bytes: &[u8]) -> (r: AppResult<String>)
    ensures
        match r {
            Ok(s) => fb2_decoded(bytes@) == Ok::<Seq<char>, Failure>(s@),
            Err(e) => fb2_decoded(bytes@) == Err::<Seq<char>, Failure>(e@),
        },
{
    let n: usize = if bytes.len() < 128 {
        bytes.len()
    } else {
        128
    };
    let sample = vstd::slice::slice_subrange(bytes, 0, n);
    assert(bytes@.len() < 128 ==> sample@ =~= bytes@);
    assert(bytes@.len() >= 128 ==> sample@ =~= bytes@.take(128));
    let head = chars_of(from_utf8_lossy(sample).as_str());
    if let Some(label) = read_encoding(&head) {
        let low = to_lower_ascii(&label);
        if let Some((s, malformed)) = decode_as(string_of(&label).as_str(), bytes) {
            if !malformed || !is_word(&low, "utf-8") {
                return Ok(s);
            }
        }
    }
    decode_to_utf8(bytes)
}

// ---------------------------------------------------------------------------
// What is known of the book
// ---------------------------------------------------------------------------

/// The words within the first element with a name, without the tags among them.
pub open spec fn element_text(xml: Seq<char>, tag: Seq<char>) -> Option<Seq<char>> {
    let opening = "<"@ + tag;
    match find_from(xml, opening, 0) {
        None => None,
        Some(a) => match char_from(xml, '>', a + opening.len()) {
            None => None,
            Some(b) => match find_from(xml, "</"@ + tag + ">"@, b + 1) {
                None => None,
                Some(e) => Some(unescaped(trimmed(without_tags(xml.subrange(b + 1, e))))),
            },
        },
    }
}

/// The part of a document that describes the book.
pub open spec fn description(xml: Seq<char>) -> Option<Seq<char>> {
    match find_from(xml, "<description"@, 0) {
        None => None,
        Some(a) => match find_from(xml, "</description>"@, a) {
            None => None,
            Some(e) => Some(xml.subrange(a, e)),
        },
    }
}

/// The part of a description that the first element with a name makes; all of it where there is
/// none.
pub open spec fn info(desc: Seq<char>, tag: Seq<char>) -> Seq<char> {
    match find_from(desc, "<"@ + tag, 0) {
        None => desc,
        Some(a) => match find_from(desc, "</"@ + tag + ">"@, a) {
            None => desc,
            Some(e) => desc.subrange(a, e),
        },
    }
}

/// A text that may be missing; empty where it is.
pub open spec fn given(t: Option<Seq<char>>) -> Seq<char> {
    match t {
        Some(s) => s,
        None => Seq::empty(),
    }
}

/// The first author that a description names: by first and last name, else by nickname.
pub open spec fn author_of(desc: Seq<char>) -> Option<Seq<char>> {
    match find_from(desc, "<author"@, 0) {
        None => None,
        Some(a) => {
            let e = match find_from(desc, "</author>"@, a) {
                Some(e) => e,
                None => desc.len() as int,
            };
            let x = desc.subrange(a, e);
            let first = trimmed(given(element_text(x, "first-name"@)));
            let last = trimmed(given(element_text(x, "last-name"@)));
            let name = trimmed(first + " "@ + last);
            Some(
                if name.len() > 0 {
                    name
                } else {
                    match element_text(x, "nickname"@) {
                        Some(n) => n,
                        None => "佚名"@,
                    }
                },
            )
        },
    }
}

/// What a description says.
#[verifier::ext_equal]
pub struct About {
    pub title: Option<Seq<char>>,
    pub author: Option<Seq<char>>,
    pub publisher: Option<Seq<char>>,
    pub cover: Option<Seq<char>>,
}

/// What a document says of the book: its title and author as `title-info` has them, and its
/// publisher as `publish-info` has it.
pub open spec fn described(xml: Seq<char>) -> About {
    match description(xml) {
        None => About { title: None, author: None, publisher: None, cover: None },
        Some(d) => About {
            title: element_text(info(d, "title-info"@), "book-title"@),
            author: author_of(info(d, "title-info"@)),
            publisher: element_text(info(d, "publish-info"@), "publisher"@),
            cover: first_group(FB2_COVER@, d, 1),
        },
    }
}

/// What a description says.
#[derive(Debug)]
pub struct DescMeta {
    pub title: Option<String>,
    pub author: Option<String>,
    pub publisher: Option<String>,
    pub cover: Option<String>,
}

impl DeepView for DescMeta {
    type V = About;

    open spec fn deep_view(&self) -> About {
        About {
            title: self.title.deep_view(),
            author: self.author.deep_view(),
            publisher: self.publisher.deep_view(),
            cover: self.cover.deep_view(),
        }
    }
}

/// The words within the first element with a name.
pub fn tag_text(xml: &[char], tag: &str) -> (r: Option<String>)
    ensures
        r.deep_view() == element_text(xml@, tag@),
{
    let mut opening = chars_of("<");
    push_str(&mut opening, tag);
    let mut closing = chars_of("</");
    push_str(&mut closing, tag);
    push_str(&mut closing, ">");
    let a = match find(xml, &opening, 0) {
        Some(a) => a,
        None => {
            return None;
        },
    };
    let n = xml.len();
    let b = match find_char(xml, '>', a + opening.len()) {
        Some(b) => b,
        None => {
            return None;
        },
    };
    match find(xml, &closing, b + 1) {
        Some(e) => {
            let inner = part(xml, b + 1, e);
            let bare = remove(ANY_TAG, &inner);
            let out = unescape(trim(&bare));
            Some(string_of(&out))
        },
        None => None,
    }
}

fn trimmed_or_empty(t: Option<String>) -> (r: Vec<char>)
    ensures
        r@ == trimmed(given(t.deep_view())),
{
    match t {
        Some(s) => {
            let cs = chars_of(s.as_str());
            let x = trim(&cs);
            let r = part(x, 0, x.len());
            assert(r@ =~= x@);
            r
        },
        None => {
            let none: Vec<char> = Vec::new();
            assert(none@ =~= Seq::empty());
            assert(trimmed(Seq::<char>::empty()) =~= Seq::empty());
            none
        },
    }
}

fn read_author(desc: &[char]) -> (r: Option<String>)
    ensures
        r.deep_view() == author_of(desc@),
{
    let a = match find(desc, &chars_of("<author"), 0) {
        Some(a) => a,
        None => {
            return None;
        },
    };
    let e: usize = match find(desc, &chars_of("</author>"), a) {
        Some(e) => e,
        None => desc.len(),
    };
    let x = part(desc, a, e);
    let mut name = trimmed_or_empty(tag_text(&x, "first-name"));
    let last = trimmed_or_empty(tag_text(&x, "last-name"));
    push_str(&mut name, " ");
    push_all(&mut name, &last);
    let t = trim(&name);
    if t.len() > 0 {
        return Some(string_of(t));
    }
    match tag_text(&x, "nickname") {
        Some(n) => Some(n),
        None => Some("佚名".to_owned()),
    }
}

fn read_info(desc: &[char], tag: &str) -> (r: Vec<char>)
    ensures
        r@ == info(desc@, tag@),
{
    let mut opening = chars_of("<");
    push_str(&mut opening, tag);
    let mut closing = chars_of("</");
    push_str(&mut closing, tag);
    push_str(&mut closing, ">");
    if let Some(a) = find(desc, &opening, 0) {
        if let Some(e) = find(desc, &closing, a) {
            return part(desc, a, e);
        }
    }
    let all = part(desc, 0, desc.len());
    assert(all@ =~= desc@);
    all
}

/// What a document says of the book.
pub fn parse_description(xml: &[char]) -> (r: DescMeta)
    ensures
        r.deep_view() == described(xml@),
{
    let empty = DescMeta { title: None, author: None, publisher: None, cover: None };
    let a = match find(xml, &chars_of("<description"), 0) {
        Some(a) => a,
        None => {
            return empty;
        },
    };
    let e = match find(xml, &chars_of("</description>"), a) {
        Some(e) => e,
        None => {
            return empty;
        },
    };
    let desc = part(xml, a, e);
    let cover: Option<String> = match find_group(FB2_COVER, &desc, 1) {
        Some(t) => Some(string_of(&t)),
        None => None,
    };
    let book = read_info(&desc, "title-info");
    let print = read_info(&desc, "publish-info");
    DescMeta {
        title: tag_text(&book, "book-title"),
        author: read_author(&book),
        publisher: tag_text(&print, "publisher"),
        cover,
    }
}

// ---------------------------------------------------------------------------
// Sections
// ---------------------------------------------------------------------------

/// The position behind the end of the section that closes at depth `depth`, from `i` on; the end
/// of the text where none does.
pub open spec fn end_from(xml: Seq<char>, i: int, depth: int) -> int
    decreases xml.len() - i,
{
    if i < 0 || i >= xml.len() {
        xml.len() as int
    } else if stands_at(xml, i, "<section"@) {
        end_from(xml, i + 1, depth + 1)
    } else if stands_at(xml, i, "</section>"@) {
        if depth == 1 {
            i + 10
        } else {
            end_from(xml, i + 1, depth - 1)
        }
    } else {
        end_from(xml, i + 1, depth)
    }
}

/// The position behind the end of the section that opens at `start`.
pub open spec fn section_end(xml: Seq<char>, start: int) -> int {
    end_from(xml, start, 0)
}

/// A section ends behind where it starts and within the text, and either at its closing tag or
/// at the end of the text.
pub proof fn section_end_within(xml: Seq<char>, i: int, depth: int)
    requires
        0 <= i < xml.len(),
    ensures
        i < end_from(xml, i, depth) <= xml.len(),
        end_from(xml, i, depth) == xml.len() || (end_from(xml, i, depth) >= i + 10 && xml[end_from(
            xml,
            i,
            depth,
        ) - 1] == '>'),
    decreases xml.len() - i,
{
    reveal_strlit("</section>");
    reveal_with_fuel(end_from, 2);
    if stands_at(xml, i, "<section"@) {
        if i + 1 < xml.len() {
            section_end_within(xml, i + 1, depth + 1);
        }
    } else if stands_at(xml, i, "</section>"@) {
        if depth == 1 {
            assert(xml.subrange(i, i + 10)[9] == "</section>"@[9]);
        } else if i + 1 < xml.len() {
            section_end_within(xml, i + 1, depth - 1);
        }
    } else if i + 1 < xml.len() {
        section_end_within(xml, i + 1, depth);
    }
}

/// The position behind the end of the section that opens at `start`.
pub fn find_section_end(xml: &[char], start: usize) -> (r: usize)
    requires
        start <= xml@.len(),
    ensures
        r == section_end(xml@, start as int),
        start <= r <= xml@.len(),
        start < xml@.len() ==> start < r,
{
    let n = xml.len();
    let open = chars_of("<section");
    let close = chars_of("</section>");
    proof {
        reveal_strlit("</section>");
        if start < xml@.len() {
            section_end_within(xml@, start as int, 0);
        }
    }
    let mut depth: i128 = 0;
    let mut i: usize = start;
    while i < n
        invariant
            n == xml@.len(),
            start <= i <= n,
            open@ == "<section"@,
            close@ == "</section>"@,
            close@.len() == 10,
            -(i as int) <= depth <= i,
            section_end(xml@, start as int) == end_from(xml@, i as int, depth as int),
            start < n ==> start < section_end(xml@, start as int) <= n,
        decreases n - i,
    {
        if xml[i] == '<' {
            if is_at(xml, i, &open) {
                depth = depth + 1;
            } else if is_at(xml, i, &close) {
                if depth == 1 {
                    return i + 10;
                }
                depth = depth - 1;
            }
        } else {
            proof {
                reveal_strlit("<section");
                reveal_strlit("</section>");
                if stands_at(xml@, i as int, "<section"@) {
                    assert(xml@.subrange(i as int, i + 8)[0] == "<section"@[0]);
                }
                if stands_at(xml@, i as int, "</section>"@) {
                    assert(xml@.subrange(i as int, i + 10)[0] == "</section>"@[0]);
                }
            }
        }
        i = i + 1;
    }
    n
}

/// The texts of paragraphs that are not empty, among the first `k`.
pub open spec fn paragraph_texts(inner: Seq<char>, found: Seq<Groups>, k: int) -> Seq<Seq<char>>
    decreases k,
{
    if k <= 0 || k > found.len() {
        Seq::empty()
    } else {
        let t = without_tags(given(group_text(inner, found[k - 1], 1)));
        if t.len() > 0 {
            paragraph_texts(inner, found, k - 1).push(t)
        } else {
            paragraph_texts(inner, found, k - 1)
        }
    }
}

/// The title of a section: that of its first title element, its paragraphs parted by spaces.
pub open spec fn title_of_section(slice: Seq<char>) -> Seq<char> {
    match first_group(FB2_TITLE@, slice, 1) {
        None => Seq::empty(),
        Some(inner) => {
            let found = regex_spans(FB2_PARAGRAPH@, inner);
            let parts = if found.len() > 0 {
                paragraph_texts(inner, found, found.len() as int)
            } else {
                seq![without_tags(inner)]
            };
            unescaped(trimmed(join(parts, " "@)))
        },
    }
}

/// The title of a section.
pub fn section_title(slice: &[char]) -> (r: String)
    ensures
        r@ == title_of_section(slice@),
{
    let inner = match find_group(FB2_TITLE, slice, 1) {
        Some(t) => t,
        None => {
            let none = String::new();
            assert(none@ =~= Seq::empty());
            return none;
        },
    };
    let rows = spans(FB2_PARAGRAPH, &inner);
    let ghost found = ints(rows@);
    let mut parts: Vec<Vec<char>> = Vec::new();
    assert(texts(parts@) =~= Seq::empty());
    if rows.len() == 0 {
        let t = remove(ANY_TAG, &inner);
        let ghost before = parts@;
        parts.push(t);
        proof {
            texts_push(before, t);
            assert(texts(parts@) =~= seq![without_tags(inner@)]);
        }
    }
    let mut i: usize = 0;
    while i < rows.len()
        invariant
            i <= rows@.len(),
            found == ints(rows@),
            in_order(found, inner@.len() as int),
            rows@.len() > 0 ==> texts(parts@) == paragraph_texts(inner@, found, i as int),
            rows@.len() == 0 ==> texts(parts@) == seq![without_tags(inner@)],
        decreases rows@.len() - i,
    {
        proof {
            row_of(rows@, i as int, inner@.len() as int);
        }
        let p = match group(&inner, &rows[i], 1) {
            Some(t) => t,
            None => {
                let none: Vec<char> = Vec::new();
                assert(none@ =~= Seq::empty());
                none
            },
        };
        let t = remove(ANY_TAG, &p);
        if t.len() > 0 {
            let ghost before = parts@;
            parts.push(t);
            proof {
                texts_push(before, t);
            }
        }
        i = i + 1;
    }
    let whole = join_all(&parts, &chars_of(" "));
    let out = unescape(trim(&whole));
    string_of(&out)
}

/// A section: its title, and where it starts and ends in the document.
#[derive(Debug)]
pub struct Fb2Section {
    pub title: String,
    pub start: usize,
    pub end: usize,
}

/// `Fb2Section` over sequences.
#[verifier::ext_equal]
pub struct Piece {
    pub title: Seq<char>,
    pub start: int,
    pub end: int,
}

impl DeepView for Fb2Section {
    type V = Piece;

    open spec fn deep_view(&self) -> Piece {
        Piece { title: self.title@, start: self.start as int, end: self.end as int }
    }
}

/// Where the content of the section that opens at `i` starts: behind its tag.
pub open spec fn content_start(body: Seq<char>, i: int) -> int {
    match char_from(body, '>', i) {
        Some(g) => g + 1,
        None => i,
    }
}

/// The sections of a body from position `i` on, those within others left out. `base` is where
/// the body starts in the document.
pub open spec fn sections_from(body: Seq<char>, base: int, i: int, done: Seq<Piece>) -> Seq<Piece>
    decreases body.len() - i,
{
    if i < 0 || i >= body.len() {
        done
    } else if stands_at(body, i, "<section"@) {
        let e = section_end(body, i);
        if e <= i || e > body.len() {
            done
        } else {
            let s = content_start(body, i);
            sections_from(
                body,
                base,
                e,
                done.push(
                    Piece {
                        title: title_of_section(body.subrange(s, e)),
                        start: base + s,
                        end: base + e,
                    },
                ),
            )
        }
    } else {
        sections_from(body, base, i + 1, done)
    }
}

/// The chapters of a document: the sections of its first body; the whole body where it has none,
/// and the whole document where it has no body.
pub open spec fn fb2_sections(xml: Seq<char>) -> Seq<Piece> {
    let whole = seq![Piece { title: "全文"@, start: 0, end: xml.len() as int }];
    match find_from(xml, "<body"@, 0) {
        None => whole,
        Some(a) => match find_from(xml, "</body>"@, a) {
            None => whole,
            Some(e) => {
                let found = sections_from(xml.subrange(a, e), a, 0, Seq::empty());
                if found.len() == 0 {
                    seq![Piece { title: "全文"@, start: a, end: e }]
                } else {
                    found
                }
            },
        },
    }
}

/// The content of a section lies before its end.
proof fn content_before_end(body: Seq<char>, i: int)
    requires
        0 <= i < body.len(),
    ensures
        i <= content_start(body, i) <= section_end(body, i),
{
    section_end_within(body, i, 0);
    char_from_is_first(body, '>', i);
    let e = section_end(body, i);
    if let Some(g) = char_from(body, '>', i) {
        if e < body.len() && g >= e {
            assert(body[e - 1] == '>');
        }
    }
}

/// Pieces lie within a text, one after another.
pub open spec fn pieces_within(pieces: Seq<Piece>, len: int) -> bool {
    &&& forall|k: int|
        0 <= k < pieces.len() ==> 0 <= (#[trigger] pieces[k]).start <= pieces[k].end <= len
    &&& forall|j: int, k: int|
        #![trigger pieces[j], pieces[k]]
        0 <= j < k < pieces.len() ==> pieces[j].end <= pieces[k].start
}

/// The chapters of a document come one after another, and within it.
pub proof fn sections_come_in_order(
    body: Seq<char>,
    base: int,
    i: int,
    done: Seq<Piece>,
    len: int,
)
    requires
        0 <= base,
        base + body.len() <= len,
        0 <= i,
        pieces_within(done, len),
        forall|k: int| 0 <= k < done.len() ==> (#[trigger] done[k]).end <= base + i,
    ensures
        pieces_within(sections_from(body, base, i, done), len),
    decreases body.len() - i,
{
    if i < body.len() {
        if stands_at(body, i, "<section"@) {
            content_before_end(body, i);
            section_end_within(body, i, 0);
            let e = section_end(body, i);
            let s = content_start(body, i);
            let next = done.push(
                Piece {
                    title: title_of_section(body.subrange(s, e)),
                    start: base + s,
                    end: base + e,
                },
            );
            assert(pieces_within(next, len)) by {
                assert forall|j: int, k: int|
                    #![trigger next[j], next[k]]
                    0 <= j < k < next.len() implies next[j].end <= next[k].start by {
                    if k == done.len() {
                        assert(done[j].end <= base + i);
                    }
                }
            }
            sections_come_in_order(body, base, e, next, len);
        } else {
            sections_come_in_order(body, base, i + 1, done, len);
        }
    }
}

fn whole_text(start: usize, end: usize) -> (r: Vec<Fb2Section>)
    ensures
        r.deep_view() == seq![
            Piece { title: "全文"@, start: start as int, end: end as int },
        ],
{
    let mut out: Vec<Fb2Section> = Vec::new();
    proof {
        deep_empty(out);
    }
    let s = Fb2Section { title: "全文".to_owned(), start, end };
    let ghost before = out;
    out.push(s);
    proof {
        deep_push(before, s, out);
        assert(out.deep_view() =~= seq![
            Piece { title: "全文"@, start: start as int, end: end as int },
        ]);
    }
    out
}

/// Finds the chapters of a document.
pub fn parse_sections(xml: &[char]) -> (r: Vec<Fb2Section>)
    ensures
        r.deep_view() == fb2_sections(xml@),
        pieces_within(r.deep_view(), xml@.len() as int),
{
    let len = xml.len();
    let a = match find(xml, &chars_of("<body"), 0) {
        Some(a) => a,
        None => {
            return whole_text(0, len);
        },
    };
    let e = match find(xml, &chars_of("</body>"), a) {
        Some(e) => e,
        None => {
            return whole_text(0, len);
        },
    };
    let body = part(xml, a, e);
    let ghost want = sections_from(body@, a as int, 0, Seq::empty());
    proof {
        sections_come_in_order(body@, a as int, 0, Seq::empty(), len as int);
    }
    let open = chars_of("<section");
    let n = body.len();
    let mut out: Vec<Fb2Section> = Vec::new();
    proof {
        deep_empty(out);
    }
    let mut i: usize = 0;
    while i < n
        invariant
            n == body@.len(),
            i <= n,
            a + n == e,
            e <= len,
            open@ == "<section"@,
            want == sections_from(body@, a as int, i as int, out.deep_view()),
        decreases n - i,
    {
        if is_at(&body, i, &open) {
            proof {
                content_before_end(body@, i as int);
            }
            let end = find_section_end(&body, i);
            let s: usize = match find_char(&body, '>', i) {
                Some(g) => g + 1,
                None => i,
            };
            let inner = part(&body, s, end);
            let piece = Fb2Section { title: section_title(&inner), start: a + s, end: a + end };
            let ghost before = out;
            out.push(piece);
            proof {
                deep_push(before, piece, out);
            }
            i = end;
        } else {
            i = i + 1;
        }
    }
    if out.len() == 0 {
        return whole_text(a, e);
    }
    out
}

} // verus!
