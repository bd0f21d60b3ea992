//! The books that are open: their chapters are kept for a while, and so are the books.
use vstd::prelude::*;
use std::sync::Arc;
use crate::error::{AppError, AppResult, Failure};
use crate::model::{
    copy_text, copy_texts, BookMeta, Chapter, ChapterContent, TocItem,
};
use crate::parser::session::{payload, BookSession, ResourcePayload};
use crate::text::same_str;

verus! {

/// How many chapters of a book are kept.
pub const CHAPTER_CACHE_CAP: usize = 24;

/// How many books are open at once.
pub const MAX_OPEN_BOOKS: usize = 4;

/// A chapter and whether it has the book's own style.
pub type ChapterKey = (usize, bool);

/// Copies a chapter.
pub fn copy_chapter(c: &ChapterContent) -> (r: ChapterContent)
    ensures
        r.deep_view() == c.deep_view(),
{
    let image_refs: Option<Vec<String>> = match &c.image_refs {
        Some(v) => Some(copy_texts(v)),
        None => None,
    };
    let r = ChapterContent {
        book_id: c.book_id.clone(),
        chapter_index: c.chapter_index,
        title: c.title.clone(),
        kind: c.kind,
        html: copy_text(&c.html),
        text: copy_text(&c.text),
        image_refs,
    };
    assert(r.deep_view() =~= c.deep_view());
    r
}

// ---------------------------------------------------------------------------
// Chapters that are kept
// ---------------------------------------------------------------------------

/// The chapters that are kept, the one that came first in front.
pub struct ChapterCache {
    entries: Vec<(ChapterKey, ChapterContent)>,
}

/// What is kept: keys and chapters, the one that came first in front.
pub type Kept = Seq<(ChapterKey, Chapter)>;

/// The place of a key, from the `i`-th on.
pub open spec fn kept_at(list: Kept, key: ChapterKey, i: int) -> Option<int>
    decreases list.len() - i,
{
    if i < 0 || i >= list.len() {
        None
    } else if list[i].0 == key {
        Some(i)
    } else {
        kept_at(list, key, i + 1)
    }
}

/// The list without those in front that are too many for one more.
pub open spec fn with_room(list: Kept) -> Kept
    decreases list.len(),
{
    if list.len() >= CHAPTER_CACHE_CAP {
        with_room(list.skip(1))
    } else {
        list
    }
}

/// The list with a chapter put in: in its old place, else at the end, where what came first goes
/// if there is no room.
pub open spec fn kept_with(list: Kept, key: ChapterKey, c: Chapter) -> Kept {
    match kept_at(list, key, 0) {
        Some(i) => list.update(i, (key, c)),
        None => with_room(list).push((key, c)),
    }
}

/// No key occurs twice, and there are not more chapters than are kept.
pub open spec fn well_kept(list: Kept) -> bool {
    &&& list.len() <= CHAPTER_CACHE_CAP
    &&& forall|i: int, j: int|
        #![trigger list[i], list[j]]
        0 <= i < j < list.len() ==> list[i].0 != list[j].0
}

/// A key is found where it stands first, and only where it stands.
pub proof fn kept_at_is_first(list: Kept, key: ChapterKey, i: int)
    requires
        0 <= i,
    ensures
        match kept_at(list, key, i) {
            Some(k) => i <= k < list.len() && list[k].0 == key && forall|j: int|
                i <= j < k ==> (#[trigger] list[j]).0 != key,
            None => forall|j: int| i <= j < list.len() ==> (#[trigger] list[j]).0 != key,
        },
    decreases list.len() - i,
{
    if i < list.len() && list[i].0 != key {
        kept_at_is_first(list, key, i + 1);
    }
}

proof fn room_is_a_tail(list: Kept)
    ensures
        with_room(list).len() < CHAPTER_CACHE_CAP,
        with_room(list).len() <= list.len(),
        with_room(list) == list.skip(list.len() - with_room(list).len()),
        list.len() < CHAPTER_CACHE_CAP ==> with_room(list) == list,
    decreases list.len(),
{
    if list.len() >= CHAPTER_CACHE_CAP {
        room_is_a_tail(list.skip(1));
        assert(list.skip(1).skip(list.len() - 1 - with_room(list).len()) =~= list.skip(
            list.len() - with_room(list).len(),
        ));
    } else {
        assert(list.skip(0) =~= list);
    }
}

/// What was put in last is found, and the limit is kept.
pub proof fn what_is_kept_is_found(list: Kept, key: ChapterKey, c: Chapter)
    requires
        well_kept(list),
    ensures
        well_kept(kept_with(list, key, c)),
        kept_at(kept_with(list, key, c), key, 0) matches Some(i) && kept_with(list, key, c)[i].1
            == c,
{
    kept_at_is_first(list, key, 0);
    room_is_a_tail(list);
    let out = kept_with(list, key, c);
    let d = list.len() - with_room(list).len();
    assert forall|i: int, j: int|
        #![trigger out[i], out[j]]
        0 <= i < j < out.len() implies out[i].0 != out[j].0 by {
        match kept_at(list, key, 0) {
            Some(p) => {
                assert(list[i].0 != list[j].0);
            },
            None => {
                assert(out[i] == list[i + d]);
                if j < with_room(list).len() {
                    assert(out[j] == list[j + d]);
                    assert(list[i + d].0 != list[j + d].0);
                }
            },
        }
    }
    kept_at_is_first(out, key, 0);
    match kept_at(list, key, 0) {
        Some(p) => {
            assert(out[p].0 == key);
        },
        None => {
            assert(out[out.len() - 1].0 == key);
        },
    }
    let k = kept_at(out, key, 0).unwrap();
    if k != out.len() - 1 && kept_at(list, key, 0) is None {
        assert(out[k].0 != out[out.len() - 1].0);
    }
    if let Some(p) = kept_at(list, key, 0) {
        if k != p {
            assert(out[k].0 == out[p].0);
            if k < p {
                assert(out[k].0 != out[p].0);
            } else {
                assert(out[p].0 != out[k].0);
            }
        }
    }
}

/// A chapter that is not the one that came first outlives one more.
pub proof fn the_first_goes_first(list: Kept, key: ChapterKey, c: Chapter, i: int)
    requires
        well_kept(list),
        0 < i < list.len(),
        kept_at(list, key, 0) is None,
    ensures
        kept_with(list, key, c).contains(list[i]),
{
    room_is_a_tail(list);
    let r = with_room(list);
    if list.len() >= CHAPTER_CACHE_CAP {
        assert(list.skip(1).len() < CHAPTER_CACHE_CAP);
        assert(r == with_room(list.skip(1)));
        assert(r == list.skip(1));
        assert(kept_with(list, key, c)[i - 1] == list[i]);
    } else {
        assert(kept_with(list, key, c)[i] == list[i]);
    }
}

impl DeepView for ChapterCache {
    type V = Kept;

    closed spec fn deep_view(&self) -> Kept {
        Seq::new(
            self.entries@.len(),
            |i: int| (self.entries@[i].0, self.entries@[i].1.deep_view()),
        )
    }
}

impl Default for ChapterCache {
    fn default() -> (r: Self)
        ensures
            r.deep_view() == Seq::<(ChapterKey, Chapter)>::empty(),
            well_kept(r.deep_view()),
    {
        let r = ChapterCache { entries: Vec::new() };
        assert(r.deep_view() =~= Seq::empty());
        r
    }
}

impl ChapterCache {
    fn find(&self, key: ChapterKey) -> (r: Option<usize>)
        ensures
            match r {
                Some(i) => i < self.entries@.len() && kept_at(self.deep_view(), key, 0) == Some(
                    i as int,
                ),
                None => kept_at(self.deep_view(), key, 0) is None,
            },
    {
        let mut i: usize = 0;
        while i < self.entries.len()
            invariant
                i <= self.entries@.len(),
                kept_at(self.deep_view(), key, 0) == kept_at(self.deep_view(), key, i as int),
            decreases self.entries@.len() - i,
        {
            let k = self.entries[i].0;
            if k.0 == key.0 && k.1 == key.1 {
                return Some(i);
            }
            i = i + 1;
        }
        None
    }

    /// The chapter that is kept under a key.
    pub fn get(&self, key: ChapterKey) -> (r: Option<ChapterContent>)
        ensures
            match r {
                Some(c) => kept_at(self.deep_view(), key, 0) matches Some(i)
                    && self.deep_view()[i].1 == c.deep_view(),
                None => kept_at(self.deep_view(), key, 0) is None,
            },
    {
        match self.find(key) {
            Some(i) => Some(copy_chapter(&self.entries[i].1)),
            None => None,
        }
    }

    /// Puts a chapter in.
    pub fn put(&mut self, key: ChapterKey, content: ChapterContent)
        requires
            well_kept(old(self).deep_view()),
        ensures
            final(self).deep_view() == kept_with(
                old(self).deep_view(),
                key,
                content.deep_view(),
            ),
            well_kept(final(self).deep_view()),
    {
        let ghost before = self.deep_view();
        proof {
            what_is_kept_is_found(before, key, content.deep_view());
        }
        match self.find(key) {
            Some(i) => {
                self.entries.set(i, (key, content));
                assert(self.deep_view() =~= before.update(i as int, (key, content.deep_view())));
            },
            None => {
                while self.entries.len() >= CHAPTER_CACHE_CAP
                    invariant
                        with_room(before) == with_room(self.deep_view()),
                    decreases self.entries@.len(),
                {
                    let ghost was = self.deep_view();
                    self.entries.remove(0);
                    assert(self.deep_view() =~= was.skip(1));
                }
                let ghost was = self.deep_view();
                self.entries.push((key, content));
                assert(self.deep_view() =~= was.push((key, content.deep_view())));
            },
        }
    }
}

// ---------------------------------------------------------------------------
// A book
// ---------------------------------------------------------------------------

/// A book that is open: what is known of it, and the chapters that are kept.
pub struct LoadedBook<S> {
    pub meta: BookMeta,
    pub toc: Vec<TocItem>,
    pub session: S,
    pub cache: ChapterCache,
}

impl<S: BookSession> LoadedBook<S> {
    /// The book that is read.
    pub open spec fn source(&self) -> S {
        self.session
    }

    /// What is kept of it.
    pub open spec fn kept(&self) -> Kept {
        self.cache.deep_view()
    }

    /// The book can be read, and what is kept of it is what it holds.
    pub open spec fn wf(&self) -> bool {
        &&& self.source().ready()
        &&& well_kept(self.kept())
        &&& forall|i: int|
            0 <= i < self.kept().len() ==> {
                let e = #[trigger] self.kept()[i];
                self.source().chapter_at(e.0.0 as int, e.0.1) == Ok::<Chapter, Failure>(e.1)
            }
    }

    /// A book that was just opened.
    pub fn new(meta: BookMeta, toc: Vec<TocItem>, session: S) -> (r: Self)
        requires
            session.ready(),
        ensures
            r.wf(),
            r.source() == session,
            r.meta == meta,
            r.toc == toc,
            r.kept() == Seq::<(ChapterKey, Chapter)>::empty(),
    {
        LoadedBook { meta, toc, session, cache: ChapterCache::default() }
    }

    fn chapter_inner(&mut self, key: ChapterKey) -> (r: AppResult<ChapterContent>)
        requires
            old(self).wf(),
        ensures
            final(self).wf(),
            final(self).source() == old(self).source(),
            final(self).meta == old(self).meta,
            final(self).toc == old(self).toc,
            match r {
                Ok(c) => old(self).source().chapter_at(key.0 as int, key.1) == Ok::<
                    Chapter,
                    Failure,
                >(c.deep_view()) && final(self).kept() == (if kept_at(old(self).kept(), key, 0)
                    is Some {
                    old(self).kept()
                } else {
                    kept_with(old(self).kept(), key, c.deep_view())
                }),
                Err(e) => old(self).source().chapter_at(key.0 as int, key.1) == Err::<
                    Chapter,
                    Failure,
                >(e@) && final(self).kept() == old(self).kept(),
            },
    {
        if let Some(hit) = self.cache.get(key) {
            proof {
                kept_at_is_first(self.kept(), key, 0);
            }
            return Ok(hit);
        }
        let loaded = if key.1 {
            self.session.load_chapter_styled(key.0)
        } else {
            self.session.load_chapter(key.0)
        };
        match loaded {
            Err(e) => Err(e),
            Ok(c) => {
                let ghost before = self.kept();
                let copy = copy_chapter(&c);
                self.cache.put(key, copy);
                proof {
                    let out = self.kept();
                    room_is_a_tail(before);
                    let d = before.len() - with_room(before).len();
                    assert forall|i: int| 0 <= i < out.len() implies ({
                        let e = #[trigger] out[i];
                        self.source().chapter_at(e.0.0 as int, e.0.1) == Ok::<Chapter, Failure>(
                            e.1,
                        )
                    }) by {
                        if i < with_room(before).len() {
                            assert(out[i] == before[i + d]);
                        }
                    }
                }
                Ok(c)
            },
        }
    }

    /// A chapter without the book's own style.
    pub fn chapter(&mut self, index: usize) -> (r: AppResult<ChapterContent>)
        requires
            old(self).wf(),
        ensures
            final(self).wf(),
            final(self).source() == old(self).source(),
            final(self).meta == old(self).meta,
            final(self).toc == old(self).toc,
            match r {
                Ok(c) => old(self).source().chapter_at(index as int, false) == Ok::<
                    Chapter,
                    Failure,
                >(c.deep_view()),
                Err(e) => old(self).source().chapter_at(index as int, false) == Err::<
                    Chapter,
                    Failure,
                >(e@) && final(self).kept() == old(self).kept(),
            },
            r matches Ok(c) ==> final(self).kept() == (if kept_at(
                old(self).kept(),
                (index, false),
                0,
            ) is Some {
                old(self).kept()
            } else {
                kept_with(old(self).kept(), (index, false), c.deep_view())
            }),
    {
        self.chapter_inner((index, false))
    }

    /// A chapter with the book's own style; it is kept apart from the one without.
    pub fn chapter_styled(&mut self, index: usize) -> (r: AppResult<ChapterContent>)
        requires
            old(self).wf(),
        ensures
            final(self).wf(),
            final(self).source() == old(self).source(),
            final(self).meta == old(self).meta,
            final(self).toc == old(self).toc,
            match r {
                Ok(c) => old(self).source().chapter_at(index as int, true) == Ok::<
                    Chapter,
                    Failure,
                >(c.deep_view()),
                Err(e) => old(self).source().chapter_at(index as int, true) == Err::<
                    Chapter,
                    Failure,
                >(e@) && final(self).kept() == old(self).kept(),
            },
            r matches Ok(c) ==> final(self).kept() == (if kept_at(
                old(self).kept(),
                (index, true),
                0,
            ) is Some {
                old(self).kept()
            } else {
                kept_with(old(self).kept(), (index, true), c.deep_view())
            }),
    {
        self.chapter_inner((index, true))
    }

    /// A chapter without the book's own style, to be shared.
    pub fn chapter_shared(&mut self, index: usize) -> (r: AppResult<Arc<ChapterContent>>)
        requires
            old(self).wf(),
        ensures
            final(self).wf(),
            final(self).source() == old(self).source(),
            final(self).meta == old(self).meta,
            final(self).toc == old(self).toc,
            match r {
                Ok(c) => old(self).source().chapter_at(index as int, false) == Ok::<
                    Chapter,
                    Failure,
                >((*c).deep_view()),
                Err(e) => old(self).source().chapter_at(index as int, false) == Err::<
                    Chapter,
                    Failure,
                >(e@) && final(self).kept() == old(self).kept(),
            },
            r matches Ok(c) ==> final(self).kept() == (if kept_at(
                old(self).kept(),
                (index, false),
                0,
            ) is Some {
                old(self).kept()
            } else {
                kept_with(old(self).kept(), (index, false), (*c).deep_view())
            }),
    {
        match self.chapter_inner((index, false)) {
            Ok(c) => Ok(Arc::new(c)),
            Err(e) => Err(e),
        }
    }

    /// A chapter to look through; what is kept for reading stays as it is.
    pub fn chapter_for_search(&self, index: usize) -> (r: AppResult<ChapterContent>)
        requires
            self.wf(),
        ensures
            match r {
                Ok(c) => self.source().chapter_at(index as int, false) == Ok::<Chapter, Failure>(
                    c.deep_view(),
                ),
                Err(e) => self.source().chapter_at(index as int, false) == Err::<
                    Chapter,
                    Failure,
                >(e@),
            },
    {
        if let Some(hit) = self.cache.get((index, false)) {
            proof {
                kept_at_is_first(self.kept(), (index, false), 0);
            }
            return Ok(hit);
        }
        self.session.load_chapter(index)
    }

    /// A chapter as a view asks for it: one that the book does not have is refused.
    pub fn chapter_content(&mut self, index: u32, preserve_styles: bool) -> (r: AppResult<
        ChapterContent,
    >)
        requires
            old(self).wf(),
        ensures
            final(self).wf(),
            final(self).source() == old(self).source(),
            final(self).meta == old(self).meta,
            final(self).toc == old(self).toc,
            match r {
                Ok(c) => index < old(self).source().chapters() && old(self).source().chapter_at(
                    index as int,
                    preserve_styles,
                ) == Ok::<Chapter, Failure>(c.deep_view()),
                Err(e) => final(self).kept() == old(self).kept() && if index >= old(
                    self,
                ).source().chapters() {
                    e@ == Failure::ChapterOutOfRange(index)
                } else {
                    old(self).source().chapter_at(index as int, preserve_styles) == Err::<
                        Chapter,
                        Failure,
                    >(e@)
                },
            },
            r matches Ok(c) ==> final(self).kept() == (if kept_at(
                old(self).kept(),
                (index as usize, preserve_styles),
                0,
            ) is Some {
                old(self).kept()
            } else {
                kept_with(old(self).kept(), (index as usize, preserve_styles), c.deep_view())
            }),
    {
        let n = self.session.chapter_count();
        if index as usize >= n {
            return Err(AppError::ChapterOutOfRange(index));
        }
        if preserve_styles {
            self.chapter_styled(index as usize)
        } else {
            self.chapter(index as usize)
        }
    }

    /// A resource: its media type and its bytes.
    pub fn resource_bytes(&self, path: &str) -> (r: AppResult<(String, Vec<u8>)>)
        requires
            self.wf(),
        ensures
            match r {
                Ok((mime, bytes)) => self.source().resource_at(path@) == Ok::<
                    (Seq<char>, Seq<u8>),
                    Failure,
                >((mime@, bytes@)),
                Err(e) => self.source().resource_at(path@) == Err::<
                    (Seq<char>, Seq<u8>),
                    Failure,
                >(e@),
            },
    {
        self.session.load_resource_bytes(path)
    }

    /// A resource as it is handed out.
    pub fn resource(&self, path: &str) -> (r: AppResult<ResourcePayload>)
        requires
            self.wf(),
        ensures
            match r {
                Ok(p) => payload(self.source().resource_at(path@)) == Ok::<
                    (Seq<char>, Seq<char>),
                    Failure,
                >(p.deep_view()),
                Err(e) => payload(self.source().resource_at(path@)) == Err::<
                    (Seq<char>, Seq<char>),
                    Failure,
                >(e@),
            },
    {
        self.session.load_resource(path)
    }

    /// How many chapters the book has.
    pub fn chapter_count(&self) -> (r: usize)
        requires
            self.wf(),
        ensures
            r == self.source().chapters(),
    {
        self.session.chapter_count()
    }
}

// ---------------------------------------------------------------------------
// The books that are open
// ---------------------------------------------------------------------------

/// The books that are open, the one used last at the end.
pub struct AppState<B> {
    books: Vec<(String, B)>,
}

/// The place of a book, from the `i`-th on.
pub open spec fn book_at<B>(list: Seq<(Seq<char>, B)>, id: Seq<char>, i: int) -> Option<int>
    decreases list.len() - i,
{
    if i < 0 || i >= list.len() {
        None
    } else if list[i].0 == id {
        Some(i)
    } else {
        book_at(list, id, i + 1)
    }
}

/// The list without a book.
pub open spec fn without_book<B>(list: Seq<(Seq<char>, B)>, id: Seq<char>) -> Seq<(Seq<char>, B)> {
    match book_at(list, id, 0) {
        Some(i) => list.remove(i),
        None => list,
    }
}

/// The list with a book at its end. The one that was used longest ago goes where there would be
/// too many.
pub open spec fn with_book<B>(list: Seq<(Seq<char>, B)>, id: Seq<char>, book: B) -> Seq<
    (Seq<char>, B),
> {
    let all = without_book(list, id).push((id, book));
    if all.len() > MAX_OPEN_BOOKS {
        all.skip(1)
    } else {
        all
    }
}

/// No book is open twice, and no more than may be.
pub open spec fn well_held<B>(list: Seq<(Seq<char>, B)>) -> bool {
    &&& list.len() <= MAX_OPEN_BOOKS
    &&& forall|i: int, j: int|
        #![trigger list[i], list[j]]
        0 <= i < j < list.len() ==> list[i].0 != list[j].0
}

/// A book is found where it stands first, and only where it stands.
pub proof fn book_at_is_first<B>(list: Seq<(Seq<char>, B)>, id: Seq<char>, i: int)
    requires
        0 <= i,
    ensures
        match book_at(list, id, i) {
            Some(k) => i <= k < list.len() && list[k].0 == id && forall|j: int|
                i <= j < k ==> (#[trigger] list[j]).0 != id,
            None => forall|j: int| i <= j < list.len() ==> (#[trigger] list[j]).0 != id,
        },
    decreases list.len() - i,
{
    if i < list.len() && list[i].0 != id {
        book_at_is_first(list, id, i + 1);
    }
}

proof fn removing_keeps_apart<B>(list: Seq<(Seq<char>, B)>, id: Seq<char>)
    requires
        well_held(list),
    ensures
        well_held(without_book(list, id)),
        book_at(without_book(list, id), id, 0) is None,
        without_book(list, id).len() <= list.len(),
{
    book_at_is_first(list, id, 0);
    let out = without_book(list, id);
    if let Some(p) = book_at(list, id, 0) {
        assert forall|i: int, j: int|
            #![trigger out[i], out[j]]
            0 <= i < j < out.len() implies out[i].0 != out[j].0 by {
            let a = if i < p { i } else { i + 1 };
            let b = if j < p { j } else { j + 1 };
            assert(out[i] == list[a] && out[j] == list[b]);
        }
        book_at_is_first(out, id, 0);
        if let Some(k) = book_at(out, id, 0) {
            let a = if k < p { k } else { k + 1 };
            assert(out[k] == list[a]);
            if a < p {
                assert(list[a].0 != list[p].0);
            } else {
                assert(list[p].0 != list[a].0);
            }
        }
    }
}

/// A book that was just opened is open, whatever else was; at most one other book is closed for
/// it, and that is the one used longest ago.
pub proof fn opening_keeps_the_rest<B>(list: Seq<(Seq<char>, B)>, id: Seq<char>, book: B)
    requires
        well_held(list),
    ensures
        well_held(with_book(list, id, book)),
        with_book(list, id, book).last() == (id, book),
        forall|i: int|
            1 <= i < list.len() && (#[trigger] list[i]).0 != id ==> with_book(
                list,
                id,
                book,
            ).contains(list[i]),
{
    removing_keeps_apart(list, id);
    book_at_is_first(list, id, 0);
    let rest = without_book(list, id);
    let all = rest.push((id, book));
    let out = with_book(list, id, book);
    let d: int = if all.len() > MAX_OPEN_BOOKS { 1 } else { 0 };
    book_at_is_first(rest, id, 0);
    assert forall|i: int, j: int|
        #![trigger out[i], out[j]]
        0 <= i < j < out.len() implies out[i].0 != out[j].0 by {
        assert(out[i] == rest[i + d]);
        if j + d < rest.len() {
            assert(out[j] == rest[j + d]);
        }
    }
    assert forall|i: int| 1 <= i < list.len() && (#[trigger] list[i]).0 != id implies out.contains(
        list[i],
    ) by {
        match book_at(list, id, 0) {
            Some(p) => {
                let k = if i < p { i } else { i - 1 };
                assert(rest[k] == list[i]);
                assert(all.len() == list.len());
                assert(out[k] == list[i]);
            },
            None => {
                assert(rest[i] == list[i]);
                assert(out[i - d] == list[i]);
            },
        }
    }
}

/// Books with their names as text.
spec fn named<B>(books: Seq<(String, B)>) -> Seq<(Seq<char>, B)> {
    Seq::new(books.len(), |i: int| (books[i].0@, books[i].1))
}

/// The book at the end.
fn last_mut<B>(books: &mut Vec<(String, B)>) -> (r: &mut B)
    requires
        old(books)@.len() > 0,
    ensures
        *r == old(books)@.last().1,
        final(books)@ == old(books)@.update(
            old(books)@.len() - 1,
            (old(books)@.last().0, *final(r)),
        ),
{
    let n = books.len();
    &mut books[n - 1].1
}

proof fn moving_to_the_end<B>(list: Seq<(Seq<char>, B)>, id: Seq<char>)
    requires
        well_held(list),
        book_at(list, id, 0) is Some,
    ensures
        forall|x: B| well_held(#[trigger] without_book(list, id).push((id, x))),
{
    removing_keeps_apart(list, id);
    book_at_is_first(list, id, 0);
    let rest = without_book(list, id);
    book_at_is_first(rest, id, 0);
    assert forall|x: B| well_held(#[trigger] rest.push((id, x))) by {
        let out = rest.push((id, x));
        assert forall|i: int, j: int|
            #![trigger out[i], out[j]]
            0 <= i < j < out.len() implies out[i].0 != out[j].0 by {
            assert(out[i] == rest[i]);
            if j < rest.len() {
                assert(out[j] == rest[j]);
            }
        }
    }
}

impl<B> AppState<B> {
    /// The books that are open, the one used last at the end.
    pub closed spec fn held(&self) -> Seq<(Seq<char>, B)> {
        named(self.books@)
    }

    /// No book is open twice, and no more than may be.
    pub open spec fn wf(&self) -> bool {
        well_held(self.held())
    }

    /// No book is open.
    pub fn new() -> (r: Self)
        ensures
            r.held() == Seq::<(Seq<char>, B)>::empty(),
            r.wf(),
    {
        let r = AppState { books: Vec::new() };
        assert(r.held() =~= Seq::empty());
        r
    }

    fn find(&self, book_id: &str) -> (r: Option<usize>)
        ensures
            match r {
                Some(i) => i < self.books@.len() && book_at(self.held(), book_id@, 0) == Some(
                    i as int,
                ),
                None => book_at(self.held(), book_id@, 0) is None,
            },
    {
        let mut i: usize = 0;
        while i < self.books.len()
            invariant
                i <= self.books@.len(),
                book_at(self.held(), book_id@, 0) == book_at(self.held(), book_id@, i as int),
            decreases self.books@.len() - i,
        {
            if same_str(self.books[i].0.as_str(), book_id) {
                return Some(i);
            }
            i = i + 1;
        }
        None
    }

    /// Opens a book under an identifier, in place of one that was open under it.
    fn hold(&mut self, book_id: &str, book: B)
        requires
            old(self).wf(),
        ensures
            final(self).held() == with_book(old(self).held(), book_id@, book),
            final(self).wf(),
    {
        let ghost before = self.held();
        proof {
            opening_keeps_the_rest(before, book_id@, book);
            removing_keeps_apart(before, book_id@);
        }
        if let Some(i) = self.find(book_id) {
            self.books.remove(i);
            assert(self.held() =~= before.remove(i as int));
        }
        let ghost rest = self.held();
        self.books.push((book_id.to_owned(), book));
        assert(self.held() =~= rest.push((book_id@, book)));
        let ghost all = self.held();
        if self.books.len() > MAX_OPEN_BOOKS {
            self.books.remove(0);
            assert(self.held() =~= all.skip(1));
        }
    }

    /// A book that is open, which becomes the one used last.
    pub fn get(&mut self, book_id: &str) -> (r: AppResult<&mut B>)
        requires
            old(self).wf(),
        ensures
            match r {
                Ok(b) => {
                    &&& book_at(old(self).held(), book_id@, 0) matches Some(i) && *b
                        == old(self).held()[i].1
                    &&& final(self).held() == without_book(old(self).held(), book_id@).push(
                        (book_id@, *final(b)),
                    )
                },
                Err(e) => {
                    &&& book_at(old(self).held(), book_id@, 0) is None
                    &&& e@ == Failure::BookNotOpen(book_id@)
                    &&& final(self).held() == old(self).held()
                },
            },
            final(self).wf(),
    {
        let ghost before = self.held();
        match self.find(book_id) {
            Some(i) => {
                let book = self.books.remove(i);
                assert(self.held() =~= before.remove(i as int));
                let ghost rest = self.held();
                self.books.push(book);
                proof {
                    moving_to_the_end(before, book_id@);
                    book_at_is_first(before, book_id@, 0);
                    let all = self.books@;
                    let n = all.len() - 1;
                    assert forall|x: B| named(#[trigger] all.update(n, (all[n].0, x))) == rest.push(
                        (book_id@, x),
                    ) by {
                        assert(named(all.update(n, (all[n].0, x))) =~= rest.push((book_id@, x)));
                    }
                }
                Ok(last_mut(&mut self.books))
            },
            None => Err(AppError::BookNotOpen(book_id.to_owned())),
        }
    }

    /// Closes a book; whether it was open.
    pub fn remove(&mut self, book_id: &str) -> (r: bool)
        requires
            old(self).wf(),
        ensures
            r == (book_at(old(self).held(), book_id@, 0) is Some),
            final(self).held() == without_book(old(self).held(), book_id@),
            final(self).wf(),
    {
        let ghost before = self.held();
        proof {
            removing_keeps_apart(before, book_id@);
        }
        match self.find(book_id) {
            Some(i) => {
                self.books.remove(i);
                assert(self.held() =~= before.remove(i as int));
                true
            },
            None => false,
        }
    }

    /// Closes every book.
    pub fn clear(&mut self)
        ensures
            final(self).held() == Seq::<(Seq<char>, B)>::empty(),
            final(self).wf(),
    {
        self.books.clear();
        assert(self.held() =~= Seq::empty());
    }

    /// How many books are open.
    pub fn len(&self) -> (r: usize)
        ensures
            r == self.held().len(),
    {
        self.books.len()
    }

    /// Whether no book is open.
    pub fn is_empty(&self) -> (r: bool)
        ensures
            r == (self.held().len() == 0),
    {
        self.books.len() == 0
    }
}

impl<S: BookSession> AppState<LoadedBook<S>> {
    /// Opens a book, in place of itself where it was open.
    pub fn insert(&mut self, book: LoadedBook<S>)
        requires
            old(self).wf(),
        ensures
            final(self).held() == with_book(old(self).held(), book.meta.id@, book),
            final(self).wf(),
    {
        let id = book.meta.id.clone();
        self.hold(id.as_str(), book);
    }
}


/// Nothing goes while there is room: up to two dozen chapters are kept, each where it was.
pub proof fn chapters_stay_while_there_is_room(list: Kept, key: ChapterKey, c: Chapter, i: int)
    requires
        list.len() < 24,
        0 <= i < list.len(),
        list[i].0 != key,
    ensures
        kept_with(list, key, c)[i] == list[i],
{
    kept_at_is_first(list, key, 0);
}

/// Books stay open while there is room: up to four, and one that is opened again takes no place of another.
pub proof fn books_stay_while_there_is_room<B>(list: Seq<(Seq<char>, B)>, id: Seq<char>, book: B, i: int)
    requires
        well_held(list),
        0 <= i < list.len(),
        list[i].0 != id,
        list.len() < 4 || exists|k: int| 0 <= k < list.len() && (#[trigger] list[k]).0 == id,
    ensures
        with_book(list, id, book).contains(list[i]),
{
    book_at_is_first(list, id, 0);
    let out = with_book(list, id, book);
    match book_at(list, id, 0) {
        Some(k) => {
            if i < k {
                assert(out[i] == list[i]);
            } else {
                assert(out[i - 1] == list[i]);
            }
        },
        None => {
            assert(out[i] == list[i]);
        },
    }
}

} // verus!
