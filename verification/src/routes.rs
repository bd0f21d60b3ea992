//! What is answered to the addresses under which pages ask for resources, covers and files.
use vstd::prelude::*;
use crate::commands::shelf::{on_shelf, shelved};
use crate::commands::summary::find_book;
use crate::error::{displayed, Failure};
use crate::model::{Shelf, ShelfData};
use crate::numbers::{decimal, parse, parsed, reading_undoes_writing};
use crate::parser::is_word;
use crate::parser::session::BookSession;
use crate::state::{book_at, without_book, AppState, LoadedBook};
use crate::text::{
    char_from, char_from_is_first, chars_of, contains, find_char, join, occurs, part, split, split_at, split_of_join,
    string_of, strip_start, stripped_start, texts,
};
use crate::transfer::{percent_decode, percent_decoded, percent_undone};
use vstd::utf8::{encode_utf8, encode_utf8_decode_utf8, encode_utf8_valid_utf8};

verus! {

/// An answer: its status, its media type and its body.
#[derive(Debug, Clone)]
pub struct Reply {
    pub status: u16,
    pub mime: String,
    pub body: Vec<u8>,
}

/// `Reply` over sequences.
#[verifier::ext_equal]
pub struct Answer {
    pub status: u16,
    pub mime: Seq<char>,
    pub body: Seq<u8>,
}

impl DeepView for Reply {
    type V = Answer;

    open spec fn deep_view(&self) -> Answer {
        Answer { status: self.status, mime: self.mime@, body: self.body@ }
    }
}

/// An answer that says why there is none.
pub open spec fn refusal(status: u16, text: Seq<char>) -> Answer {
    Answer { status, mime: "text/plain"@, body: encode_utf8(text) }
}

/// An answer that says why there is none.
pub fn refuse(status: u16, text: &str) -> (r: Reply)
    ensures
        r.deep_view() == refusal(status, text@),
{
    Reply {
        status,
        mime: "text/plain".to_owned(),
        body: vstd::slice::slice_to_vec(text.as_bytes()),
    }
}

// ---------------------------------------------------------------------------
// Resources of open books
// ---------------------------------------------------------------------------

/// The book and the resource that an address asks for, or why it asks for none.
pub open spec fn wanted_resource(path: Seq<char>) -> Result<(Seq<char>, Seq<char>), Answer> {
    let p = stripped_start(path, '/');
    match char_from(p, '/', 0) {
        None => Err(refusal(404, "missing book id"@)),
        Some(i) => {
            let name = percent_decoded(p.skip(i + 1));
            if name.len() == 0 || occurs(name, ".."@) {
                Err(refusal(400, "bad resource path"@))
            } else {
                Ok((p.take(i), name))
            }
        },
    }
}

/// The path of an address that names a book and, in whatever spelling, a resource.
pub open spec fn resource_path(id: Seq<char>, spelling: Seq<char>) -> Seq<char> {
    "/"@ + id + "/"@ + spelling
}

/// A book and a resource that can be asked for.
pub open spec fn can_be_asked_for(id: Seq<char>, name: Seq<char>) -> bool {
    id.len() > 0 && !id.contains('/') && name.len() > 0 && !occurs(name, ".."@)
}

proof fn path_is_taken_apart(path: Seq<char>, id: Seq<char>, spelling: Seq<char>)
    requires
        path == resource_path(id, spelling),
        id.len() > 0,
        !id.contains('/'),
    ensures
        stripped_start(path, '/') == id + "/"@ + spelling,
        char_from(stripped_start(path, '/'), '/', 0) == Some(id.len() as int),
        stripped_start(path, '/').take(id.len() as int) == id,
        stripped_start(path, '/').skip(id.len() as int + 1) == spelling,
{
    reveal_strlit("/");
    let p = id + "/"@ + spelling;
    assert(id.contains(id[0]));
    assert(path[0] == '/');
    assert(path.skip(1) =~= p);
    assert(p[0] == id[0]);
    assert(stripped_start(p, '/') == p);
    char_from_is_first(p, '/', 0);
    assert(p[id.len() as int] == '/');
    if let Some(i) = char_from(p, '/', 0) {
        if i < id.len() {
            assert(p[i] == id[i]);
            assert(id.contains(id[i]));
        }
    }
    assert(p.take(id.len() as int) =~= id);
    assert(p.skip(id.len() as int + 1) =~= spelling);
}

/// The book and the resource that an address asks for. A spelling that percent-encoding undoes to
/// the name of a resource asks for that resource.
pub fn resource_request(path: &str) -> (r: Result<(String, String), Reply>)
    ensures
        forall|id: Seq<char>, spelling: Seq<char>, name: Seq<char>|
            #![trigger resource_path(id, spelling), can_be_asked_for(id, name)]
            path@ == resource_path(id, spelling) && can_be_asked_for(id, name) && percent_undone(
                encode_utf8(spelling),
                0,
            ) == encode_utf8(name) ==> (r matches Ok(w) && w.0@ == id && w.1@ == name),
        match r {
            Ok((id, name)) => wanted_resource(path@) == Ok::<(Seq<char>, Seq<char>), Answer>(
                (id@, name@),
            ),
            Err(e) => wanted_resource(path@) == Err::<(Seq<char>, Seq<char>), Answer>(
                e.deep_view(),
            ),
        },
{
    let all = chars_of(path);
    let p = strip_start(&all, '/');
    proof {
        assert forall|id: Seq<char>, spelling: Seq<char>, name: Seq<char>|
            #![trigger resource_path(id, spelling), can_be_asked_for(id, name)]
            path@ == resource_path(id, spelling) && can_be_asked_for(id, name) implies char_from(
            p@,
            '/',
            0,
        ) == Some(id.len() as int) && p@.take(id.len() as int) == id && p@.skip(id.len() as int + 1)
            == spelling by {
            path_is_taken_apart(path@, id, spelling);
        }
    }
    match find_char(p, '/', 0) {
        None => Err(refuse(404, "missing book id")),
        Some(i) => {
            proof {
                char_from_is_first(p@, '/', 0);
            }
            let id = part(p, 0, i);
            let n = p.len();
            let rest = part(p, i + 1, n);
            assert(id@ =~= p@.take(i as int));
            assert(rest@ =~= p@.skip(i + 1));
            let name = percent_decode(&string_of(&rest));
            proof {
                assert forall|n: Seq<char>|
                    percent_undone(encode_utf8(rest@), 0) == #[trigger] encode_utf8(n) implies name@
                    == n by {
                    encode_utf8_valid_utf8(n);
                    encode_utf8_decode_utf8(n);
                    encode_utf8_decode_utf8(name@);
                }
            }
            let letters = chars_of(&name);
            if letters.len() == 0 || contains(&letters, &chars_of("..")) {
                Err(refuse(400, "bad resource path"))
            } else {
                Ok((string_of(&id), name))
            }
        },
    }
}

/// The answer with a resource, or with why there is none.
pub open spec fn resource_answer(found: Result<(Seq<char>, Seq<u8>), Failure>) -> Answer {
    match found {
        Ok((mime, bytes)) => Answer { status: 200, mime, body: bytes },
        Err(e) => refusal(404, displayed(e)),
    }
}

/// Every open book can be read.
pub open spec fn all_ready<S: BookSession>(books: Seq<(Seq<char>, LoadedBook<S>)>) -> bool {
    forall|i: int| 0 <= i < books.len() ==> (#[trigger] books[i]).1.wf()
}

/// The answer to an address that asks for a resource of an open book.
pub open spec fn answered<S: BookSession>(
    books: Seq<(Seq<char>, LoadedBook<S>)>,
    path: Seq<char>,
) -> Answer {
    match wanted_resource(path) {
        Err(a) => a,
        Ok((id, name)) => match book_at(books, id, 0) {
            None => refusal(404, displayed(Failure::BookNotOpen(id))),
            Some(i) => resource_answer(books[i].1.source().resource_at(name)),
        },
    }
}

/// The books after an address was answered: the one that it named is the one used last.
pub open spec fn after_answer<S: BookSession>(
    books: Seq<(Seq<char>, LoadedBook<S>)>,
    path: Seq<char>,
) -> Seq<(Seq<char>, LoadedBook<S>)> {
    match wanted_resource(path) {
        Err(_) => books,
        Ok((id, _)) => match book_at(books, id, 0) {
            None => books,
            Some(i) => without_book(books, id).push((id, books[i].1)),
        },
    }
}

/// Answers an address that asks for a resource of an open book. A spelling that percent-encoding
/// undoes to the name of a resource is answered with that resource.
pub fn answer_resource<S: BookSession>(state: &mut AppState<LoadedBook<S>>, path: &str) -> (r:
    Reply)
    requires
        old(state).wf(),
        all_ready(old(state).held()),
    ensures
        forall|id: Seq<char>, spelling: Seq<char>, name: Seq<char>|
            #![trigger resource_path(id, spelling), can_be_asked_for(id, name)]
            path@ == resource_path(id, spelling) && can_be_asked_for(id, name) && percent_undone(
                encode_utf8(spelling),
                0,
            ) == encode_utf8(name) && book_at(old(state).held(), id, 0) is Some ==> r.deep_view()
                == resource_answer(
                old(state).held()[book_at(
                    old(state).held(),
                    id,
                    0,
                ).unwrap()].1.source().resource_at(name),
            ),
        r.deep_view() == answered(old(state).held(), path@),
        final(state).held() == after_answer(old(state).held(), path@),
        final(state).wf(),
{
    let (id, name) = match resource_request(path) {
        Ok(w) => w,
        Err(reply) => {
            return reply;
        },
    };
    proof {
        crate::state::book_at_is_first(state.held(), id@, 0);
    }
    match state.get(&id) {
        Err(e) => refuse(404, &e.message()),
        Ok(book) => match book.resource_bytes(&name) {
            Ok((mime, body)) => Reply { status: 200, mime, body },
            Err(e) => refuse(404, &e.message()),
        },
    }
}

// ---------------------------------------------------------------------------
// Covers
// ---------------------------------------------------------------------------

/// Bytes begin with a mark.
pub open spec fn begins(bytes: Seq<u8>, mark: Seq<u8>) -> bool {
    bytes.len() >= mark.len() && bytes.take(mark.len() as int) == mark
}

fn has_mark(bytes: &[u8], mark: &[u8]) -> (r: bool)
    ensures
        r == begins(bytes@, mark@),
{
    if bytes.len() < mark.len() {
        return false;
    }
    let mut i: usize = 0;
    while i < mark.len()
        invariant
            i <= mark@.len() <= bytes@.len(),
            forall|j: int| 0 <= j < i ==> bytes@[j] == mark@[j],
        decreases mark@.len() - i,
    {
        if bytes[i] != mark[i] {
            assert(bytes@.take(mark@.len() as int)[i as int] != mark@[i as int]);
            return false;
        }
        i = i + 1;
    }
    assert(bytes@.take(mark@.len() as int) =~= mark@);
    true
}

/// The media type of a picture, by the bytes it begins with.
pub open spec fn image_mime(bytes: Seq<u8>) -> Seq<char> {
    if begins(bytes, seq![0xff, 0xd8, 0xff]) {
        "image/jpeg"@
    } else if begins(bytes, seq![0x89, 0x50, 0x4e, 0x47]) {
        "image/png"@
    } else if begins(bytes, seq![0x47, 0x49, 0x46, 0x38]) {
        "image/gif"@
    } else if begins(bytes, seq![0x52, 0x49, 0x46, 0x46]) && bytes.len() > 11 && bytes.subrange(
        8,
        12,
    ) == seq![0x57u8, 0x45, 0x42, 0x50] {
        "image/webp"@
    } else {
        "application/octet-stream"@
    }
}

/// A WebP picture has its second mark behind the first.
fn has_webp_mark(bytes: &[u8]) -> (r: bool)
    ensures
        r == (begins(bytes@, seq![0x52, 0x49, 0x46, 0x46]) && bytes@.len() > 11 && bytes@.subrange(
            8,
            12,
        ) == seq![0x57u8, 0x45, 0x42, 0x50]),
{
    let riff: [u8; 4] = [0x52, 0x49, 0x46, 0x46];
    assert(riff@ =~= seq![0x52u8, 0x49, 0x46, 0x46]);
    if !has_mark(bytes, &riff) || bytes.len() <= 11 {
        return false;
    }
    let r = bytes[8] == 0x57 && bytes[9] == 0x45 && bytes[10] == 0x42 && bytes[11] == 0x50;
    let ghost mark = bytes@.subrange(8, 12);
    assert(mark[0] == bytes@[8] && mark[1] == bytes@[9] && mark[2] == bytes@[10] && mark[3]
        == bytes@[11]);
    assert(r ==> mark =~= seq![0x57u8, 0x45, 0x42, 0x50]);
    assert(mark == seq![0x57u8, 0x45, 0x42, 0x50] ==> r) by {
        let w = seq![0x57u8, 0x45, 0x42, 0x50];
        assert(w[0] == 0x57 && w[1] == 0x45 && w[2] == 0x42 && w[3] == 0x50);
    }
    r
}

/// The media type of a picture, by the bytes it begins with.
pub fn sniff_image_mime(bytes: &[u8]) -> (r: &'static str)
    ensures
        r@ == image_mime(bytes@),
{
    let jpeg: [u8; 3] = [0xff, 0xd8, 0xff];
    let png: [u8; 4] = [0x89, 0x50, 0x4e, 0x47];
    let gif: [u8; 4] = [0x47, 0x49, 0x46, 0x38];
    assert(jpeg@ =~= seq![0xffu8, 0xd8, 0xff]);
    assert(png@ =~= seq![0x89u8, 0x50, 0x4e, 0x47]);
    assert(gif@ =~= seq![0x47u8, 0x49, 0x46, 0x38]);
    if has_mark(bytes, &jpeg) {
        "image/jpeg"
    } else if has_mark(bytes, &png) {
        "image/png"
    } else if has_mark(bytes, &gif) {
        "image/gif"
    } else if has_webp_mark(bytes) {
        "image/webp"
    } else {
        "application/octet-stream"
    }
}

/// Bytes are a picture that can be a cover.
pub open spec fn cover_like(bytes: Seq<u8>) -> bool {
    ||| begins(bytes, seq![0xff, 0xd8, 0xff])
    ||| begins(bytes, seq![0x89, 0x50, 0x4e, 0x47, 0x0d, 0x0a, 0x1a, 0x0a])
    ||| begins(bytes, seq![0x47, 0x49, 0x46, 0x38, 0x37, 0x61])
    ||| begins(bytes, seq![0x47, 0x49, 0x46, 0x38, 0x39, 0x61])
    ||| begins(bytes, seq![0x52, 0x49, 0x46, 0x46]) && bytes.len() > 11 && bytes.subrange(8, 12)
        == seq![0x57u8, 0x45, 0x42, 0x50]
}

/// Whether bytes are a picture that can be a cover.
pub fn is_cover_image(bytes: &[u8]) -> (r: bool)
    ensures
        r == cover_like(bytes@),
{
    let jpeg: [u8; 3] = [0xff, 0xd8, 0xff];
    let png: [u8; 8] = [0x89, 0x50, 0x4e, 0x47, 0x0d, 0x0a, 0x1a, 0x0a];
    let old_gif: [u8; 6] = [0x47, 0x49, 0x46, 0x38, 0x37, 0x61];
    let new_gif: [u8; 6] = [0x47, 0x49, 0x46, 0x38, 0x39, 0x61];
    assert(jpeg@ =~= seq![0xffu8, 0xd8, 0xff]);
    assert(png@ =~= seq![0x89u8, 0x50, 0x4e, 0x47, 0x0d, 0x0a, 0x1a, 0x0a]);
    assert(old_gif@ =~= seq![0x47u8, 0x49, 0x46, 0x38, 0x37, 0x61]);
    assert(new_gif@ =~= seq![0x47u8, 0x49, 0x46, 0x38, 0x39, 0x61]);
    has_mark(bytes, &jpeg) || has_mark(bytes, &png) || has_mark(bytes, &old_gif) || has_mark(
        bytes,
        &new_gif,
    ) || has_webp_mark(bytes)
}

/// A picture that can be a cover is shown as one.
pub proof fn covers_are_pictures(bytes: Seq<u8>)
    requires
        cover_like(bytes),
    ensures
        image_mime(bytes) == "image/jpeg"@ || image_mime(bytes) == "image/png"@ || image_mime(bytes)
            == "image/gif"@ || image_mime(bytes) == "image/webp"@,
{
    if begins(bytes, seq![0x89, 0x50, 0x4e, 0x47, 0x0d, 0x0a, 0x1a, 0x0a]) {
        assert(bytes.take(4) =~= bytes.take(8).take(4));
        assert(bytes.take(8).take(4) =~= seq![0x89u8, 0x50, 0x4e, 0x47]);
    }
    if begins(bytes, seq![0x47, 0x49, 0x46, 0x38, 0x37, 0x61]) {
        assert(bytes.take(4) =~= bytes.take(6).take(4));
        assert(bytes.take(6).take(4) =~= seq![0x47u8, 0x49, 0x46, 0x38]);
    }
    if begins(bytes, seq![0x47, 0x49, 0x46, 0x38, 0x39, 0x61]) {
        assert(bytes.take(4) =~= bytes.take(6).take(4));
        assert(bytes.take(6).take(4) =~= seq![0x47u8, 0x49, 0x46, 0x38]);
    }
}

/// A cover that an address asks for.
#[derive(Debug)]
pub enum CoverRequest {
    /// The one that is shown.
    Current(String),
    /// The one that was found in the book.
    Default(String),
    /// The one that was chosen.
    Custom(String),
    /// One of the pictures of the book.
    Candidate(String, usize),
}

/// `CoverRequest` over sequences.
#[verifier::ext_equal]
pub enum WantedCover {
    Current(Seq<char>),
    Default(Seq<char>),
    Custom(Seq<char>),
    Candidate(Seq<char>, int),
}

impl DeepView for CoverRequest {
    type V = WantedCover;

    open spec fn deep_view(&self) -> WantedCover {
        match *self {
            CoverRequest::Current(id) => WantedCover::Current(id@),
            CoverRequest::Default(id) => WantedCover::Default(id@),
            CoverRequest::Custom(id) => WantedCover::Custom(id@),
            CoverRequest::Candidate(id, n) => WantedCover::Candidate(id@, n as int),
        }
    }
}

/// The cover that an address names, or why it names none.
pub open spec fn named_cover(path: Seq<char>) -> Result<WantedCover, Answer> {
    let p = percent_decoded(stripped_start(path, '/'));
    let parts = split(p, '/');
    if p.len() == 0 || occurs(p, ".."@) || parts[0].len() == 0 {
        Err(refusal(400, "bad book id"@))
    } else if parts.len() == 1 || parts[1].len() == 0 {
        Ok(WantedCover::Current(parts[0]))
    } else if parts[1] == "default"@ {
        Ok(WantedCover::Default(parts[0]))
    } else if parts[1] == "custom"@ {
        Ok(WantedCover::Custom(parts[0]))
    } else if parts[1] == "candidate"@ {
        if parts.len() > 2 && parsed(parts[2], 10, usize::MAX as int) is Some {
            Ok(
                WantedCover::Candidate(
                    parts[0],
                    parsed(parts[2], 10, usize::MAX as int).unwrap(),
                ),
            )
        } else {
            Err(refusal(400, "bad candidate index"@))
        }
    } else {
        Err(refusal(400, "bad cover kind"@))
    }
}

proof fn split_has_one(s: Seq<char>, c: char)
    ensures
        split(s, c).len() > 0,
{
}

/// The book whose cover is asked for.
pub open spec fn cover_book(w: WantedCover) -> Seq<char> {
    match w {
        WantedCover::Current(id) => id,
        WantedCover::Default(id) => id,
        WantedCover::Custom(id) => id,
        WantedCover::Candidate(id, _) => id,
    }
}

/// The cover that an address asks for: none but those of books on the shelf.
pub open spec fn wanted_cover(shelf: Shelf, path: Seq<char>) -> Result<WantedCover, Answer> {
    match named_cover(path) {
        Ok(w) => if on_shelf(shelf, cover_book(w)) {
            Ok(w)
        } else {
            Err(refusal(404, "book not in shelf"@))
        },
        Err(e) => Err(e),
    }
}

/// The cover that an address asks for.
pub fn cover_request(shelf: &ShelfData, path: &str) -> (r: Result<CoverRequest, Reply>)
    ensures
        match r {
            Ok(w) => wanted_cover(shelf.deep_view(), path@) == Ok::<WantedCover, Answer>(
                w.deep_view(),
            ),
            Err(e) => wanted_cover(shelf.deep_view(), path@) == Err::<WantedCover, Answer>(
                e.deep_view(),
            ),
        },
{
    let wanted = match read_cover_path(path) {
        Ok(w) => w,
        Err(e) => {
            return Err(e);
        },
    };
    let there = match &wanted {
        CoverRequest::Current(id) => find_book(&shelf.books, id).is_some(),
        CoverRequest::Default(id) => find_book(&shelf.books, id).is_some(),
        CoverRequest::Custom(id) => find_book(&shelf.books, id).is_some(),
        CoverRequest::Candidate(id, _) => find_book(&shelf.books, id).is_some(),
    };
    if there {
        Ok(wanted)
    } else {
        Err(refuse(404, "book not in shelf"))
    }
}

/// A page gets no cover but one of a book on the shelf.
pub proof fn only_shelved_covers_are_shown(shelf: Shelf, path: Seq<char>)
    ensures
        wanted_cover(shelf, path) matches Ok(w) ==> exists|i: int|
            0 <= i < shelf.books.len() && (#[trigger] shelf.books[i]).id == cover_book(w),
{
    if let Ok(w) = wanted_cover(shelf, path) {
        crate::commands::shelf::place_is_first(shelf.books, cover_book(w), 0);
    }
}

fn read_cover_path(path: &str) -> (r: Result<CoverRequest, Reply>)
    ensures
        match r {
            Ok(w) => named_cover(path@) == Ok::<WantedCover, Answer>(w.deep_view()),
            Err(e) => named_cover(path@) == Err::<WantedCover, Answer>(e.deep_view()),
        },
{
    let all = chars_of(path);
    let bare = strip_start(&all, '/');
    let p = chars_of(&percent_decode(&string_of(bare)));
    let parts = split_at(&p, '/');
    proof {
        split_has_one(p@, '/');
        reveal_strlit("default");
        reveal_strlit("custom");
        reveal_strlit("candidate");
    }
    assert(texts(parts@)[0] == parts@[0]@);
    if p.len() == 0 || contains(&p, &chars_of("..")) || parts[0].len() == 0 {
        return Err(refuse(400, "bad book id"));
    }
    let id = string_of(&parts[0]);
    assert(parts@.len() > 1 ==> texts(parts@)[1] == parts@[1]@);
    if parts.len() == 1 || parts[1].len() == 0 {
        return Ok(CoverRequest::Current(id));
    }
    if is_word(&parts[1], "default") {
        Ok(CoverRequest::Default(id))
    } else if is_word(&parts[1], "custom") {
        Ok(CoverRequest::Custom(id))
    } else if is_word(&parts[1], "candidate") {
        if parts.len() <= 2 {
            return Err(refuse(400, "bad candidate index"));
        }
        assert(texts(parts@)[2] == parts@[2]@);
        match parse(&parts[2], 10, usize::MAX as u64) {
            Some(n) => Ok(CoverRequest::Candidate(id, n as usize)),
            None => Err(refuse(400, "bad candidate index")),
        }
    } else {
        Err(refuse(400, "bad cover kind"))
    }
}

/// The answer with a cover, where there is one.
pub open spec fn cover_answer(bytes: Option<Seq<u8>>) -> Answer {
    match bytes {
        Some(b) => Answer { status: 200, mime: image_mime(b), body: b },
        None => refusal(404, "no cover"@),
    }
}

/// The answer with a cover, where there is one.
pub fn answer_cover(bytes: Option<Vec<u8>>) -> (r: Reply)
    ensures
        r.deep_view() == cover_answer(
            match bytes {
                Some(b) => Some(b@),
                None => None,
            },
        ),
{
    match bytes {
        Some(body) => {
            let mime = sniff_image_mime(&body).to_owned();
            Reply { status: 200, mime, body }
        },
        None => refuse(404, "no cover"),
    }
}

/// The answer with one of the pictures of a book, where it has so many.
pub fn answer_candidate(candidates: &Vec<Vec<u8>>, index: usize) -> (r: Reply)
    ensures
        r.deep_view() == if index < candidates@.len() {
            cover_answer(Some(candidates@[index as int]@))
        } else {
            refusal(404, "candidate not found"@)
        },
{
    if index < candidates.len() {
        answer_cover(Some(vstd::slice::slice_to_vec(candidates[index].as_slice())))
    } else {
        refuse(404, "candidate not found")
    }
}

// ---------------------------------------------------------------------------
// Files
// ---------------------------------------------------------------------------

/// The file that an address asks for: none but those of books on the shelf.
pub open spec fn wanted_file(shelf: Shelf, path: Seq<char>) -> Result<Seq<char>, Answer> {
    let id = percent_decoded(stripped_start(path, '/'));
    if on_shelf(shelf, id) {
        Ok(shelved(shelf, id).file_path)
    } else {
        Err(refusal(404, "book not in shelf"@))
    }
}

/// The file that an address asks for.
pub fn file_request(shelf: &ShelfData, path: &str) -> (r: Result<String, Reply>)
    ensures
        match r {
            Ok(p) => wanted_file(shelf.deep_view(), path@) == Ok::<Seq<char>, Answer>(p@),
            Err(e) => wanted_file(shelf.deep_view(), path@) == Err::<Seq<char>, Answer>(
                e.deep_view(),
            ),
        },
{
    let all = chars_of(path);
    let bare = strip_start(&all, '/');
    let id = percent_decode(&string_of(bare));
    match find_book(&shelf.books, &id) {
        Some(i) => {
            assert(shelf.books.deep_view()[i as int] == shelf.books@[i as int].deep_view());
            Ok(shelf.books[i].file_path.clone())
        },
        None => Err(refuse(404, "book not in shelf")),
    }
}

/// A page reads no file but one that a book on the shelf was opened from.
pub proof fn only_shelved_files_are_read(shelf: Shelf, path: Seq<char>)
    ensures
        wanted_file(shelf, path) matches Ok(p) ==> exists|i: int|
            0 <= i < shelf.books.len() && (#[trigger] shelf.books[i]).file_path == p,
{
    let id = percent_decoded(stripped_start(path, '/'));
    crate::commands::shelf::place_is_first(shelf.books, id, 0);
    if on_shelf(shelf, id) {
        let i = crate::commands::summary::book_place(shelf.books, id, 0).unwrap();
        assert(shelf.books[i].file_path == shelved(shelf, id).file_path);
    }
}

/// No address leads to a resource by way of a parent directory.
pub proof fn no_resource_lies_above(path: Seq<char>)
    ensures
        wanted_resource(path) matches Ok((id, name)) ==> name.len() > 0 && !occurs(name, ".."@)
            && !id.contains('/'),
{
    let p = stripped_start(path, '/');
    char_from_is_first(p, '/', 0);
    if let Some(i) = char_from(p, '/', 0) {
        assert forall|k: int| 0 <= k < i implies p.take(i)[k] != '/' by {
            assert(p.take(i)[k] == p[k]);
        }
    }
}


// ---------------------------------------------------------------------------
// Asking for covers and files
// ---------------------------------------------------------------------------

/// A path of parts is spelled as it is read: nothing in it is escaped, and it does not lead upwards.
pub open spec fn spelled_plainly(parts: Seq<Seq<char>>) -> bool {
    let p = join(parts, seq!['/']);
    &&& parts.len() > 0
    &&& parts[0].len() > 0
    &&& forall|i: int, k: int| 0 <= i < parts.len() && 0 <= k < parts[i].len() ==> parts[i][k] != '/'
    &&& percent_decoded(p) == p
    &&& !occurs(p, ".."@)
}

proof fn plain_parts(parts: Seq<Seq<char>>)
    requires
        spelled_plainly(parts),
    ensures
        ({
            let p = percent_decoded(stripped_start(seq!['/'] + join(parts, seq!['/']), '/'));
            p == join(parts, seq!['/']) && p.len() > 0 && split(p, '/') == parts
        }),
{
    let p = join(parts, seq!['/']);
    split_of_join(parts, '/');
    starts_with_its_first(parts);
    assert(p.len() > 0 && p[0] == parts[0][0]);
    let whole = seq!['/'] + p;
    assert(whole.skip(1) =~= p);
    assert(parts[0][0] != '/');
    assert(stripped_start(p, '/') == p);
}

proof fn starts_with_its_first(parts: Seq<Seq<char>>)
    requires
        parts.len() > 0,
        parts[0].len() > 0,
    ensures
        join(parts, seq!['/']).len() > 0,
        join(parts, seq!['/'])[0] == parts[0][0],
    decreases parts.len(),
{
    if parts.len() > 1 {
        starts_with_its_first(parts.drop_last());
    }
}

/// A cover is asked for by the book and the kind of cover: the book alone asks for the one that is shown, and
/// a number for one of the pictures of the book.
pub proof fn a_cover_is_asked_for_by_its_kind(id: Seq<char>, n: int)
    requires
        0 <= n <= usize::MAX,
    ensures
        spelled_plainly(seq![id]) ==> named_cover(seq!['/'] + id) == Ok::<WantedCover, Answer>(
            WantedCover::Current(id),
        ),
        spelled_plainly(seq![id, "default"@]) ==> named_cover(
            seq!['/'] + join(seq![id, "default"@], seq!['/']),
        ) == Ok::<WantedCover, Answer>(WantedCover::Default(id)),
        spelled_plainly(seq![id, "custom"@]) ==> named_cover(
            seq!['/'] + join(seq![id, "custom"@], seq!['/']),
        ) == Ok::<WantedCover, Answer>(WantedCover::Custom(id)),
        spelled_plainly(seq![id, "candidate"@, decimal(n)]) ==> named_cover(
            seq!['/'] + join(seq![id, "candidate"@, decimal(n)], seq!['/']),
        ) == Ok::<WantedCover, Answer>(WantedCover::Candidate(id, n)),
{
    reveal_strlit("default");
    reveal_strlit("custom");
    reveal_strlit("candidate");
    assert("default"@.len() == 7 && "custom"@.len() == 6 && "candidate"@.len() == 9);
    if spelled_plainly(seq![id]) {
        plain_parts(seq![id]);
        assert(join(seq![id], seq!['/']) == id);
    }
    if spelled_plainly(seq![id, "default"@]) {
        plain_parts(seq![id, "default"@]);
    }
    if spelled_plainly(seq![id, "custom"@]) {
        plain_parts(seq![id, "custom"@]);
    }
    if spelled_plainly(seq![id, "candidate"@, decimal(n)]) {
        plain_parts(seq![id, "candidate"@, decimal(n)]);
        reading_undoes_writing(n, 10, usize::MAX as int);
    }
}

/// The file of a book on the shelf is the one it was opened from: that of the first book under its identifier.
pub proof fn a_shelved_file_is_read(shelf: Shelf, id: Seq<char>, i: int)
    requires
        spelled_plainly(seq![id]),
        0 <= i < shelf.books.len(),
        shelf.books[i].id == id,
        forall|k: int| 0 <= k < i ==> (#[trigger] shelf.books[k]).id != id,
    ensures
        wanted_file(shelf, seq!['/'] + id) == Ok::<Seq<char>, Answer>(shelf.books[i].file_path),
{
    plain_parts(seq![id]);
    assert(join(seq![id], seq!['/']) == id);
    crate::commands::shelf::place_is_first(shelf.books, id, 0);
}

/// What is found is answered as it is, with its kind; what is not found is refused and nothing of a book is
/// sent.
pub proof fn what_is_found_is_answered(bytes: Seq<u8>)
    ensures
        cover_answer(Some(bytes)).status == 200,
        cover_answer(Some(bytes)).body == bytes,
        cover_answer(Some(bytes)).mime == image_mime(bytes),
        cover_answer(None).status == 404,
        cover_answer(None).mime == "text/plain"@,
{
}

} // verus!
