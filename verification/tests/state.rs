use std::cell::Cell;

use kedu_reader::error::{AppError, AppResult};
use kedu_reader::model::{BookFormat, BookMeta, ChapterContent, ChapterKind};
use kedu_reader::parser::session::BookSession;
use kedu_reader::routes::{
    answer_candidate, answer_cover, answer_resource, cover_request, file_request,
    resource_request, sniff_image_mime, CoverRequest,
};
use kedu_reader::state::{AppState, ChapterCache, LoadedBook, CHAPTER_CACHE_CAP, MAX_OPEN_BOOKS};
use kedu_reader::windows::{after_destroyed, hides_on_close, window_to_show, Aftermath, Window};

/// A book that counts how often a chapter of it is read.
struct Counting {
    reads: Cell<usize>,
    chapters: usize,
}

impl BookSession for Counting {
    fn load_chapter(&self, index: usize) -> AppResult<ChapterContent> {
        self.reads.set(self.reads.get() + 1);
        if index >= self.chapters {
            return Err(AppError::ChapterOutOfRange(index as u32));
        }
        Ok(chapter(index, "plain"))
    }

    fn load_chapter_styled(&self, index: usize) -> AppResult<ChapterContent> {
        self.reads.set(self.reads.get() + 1);
        Ok(chapter(index, "styled"))
    }

    fn load_resource_bytes(&self, path: &str) -> AppResult<(String, Vec<u8>)> {
        if path == "a b.png" {
            Ok(("image/png".to_string(), vec![1, 2, 3]))
        } else {
            Err(AppError::ResourceNotFound(path.to_string()))
        }
    }

    fn chapter_count(&self) -> usize {
        self.chapters
    }
}

fn chapter(index: usize, title: &str) -> ChapterContent {
    ChapterContent {
        book_id: "b".to_string(),
        chapter_index: index as u32,
        title: title.to_string(),
        kind: ChapterKind::Html,
        html: Some(format!("<p>{index}</p>")),
        text: None,
        image_refs: None,
    }
}

fn book(id: &str, chapters: usize) -> LoadedBook<Counting> {
    let meta = BookMeta {
        id: id.to_string(),
        title: "书".to_string(),
        author: None,
        publisher: None,
        language: None,
        format: BookFormat::Epub,
        file_size: 1,
        file_path: "/b.epub".to_string(),
        total_chapters: chapters as u32,
        cover_resource: None,
    };
    LoadedBook::new(meta, vec![], Counting { reads: Cell::new(0), chapters })
}

#[test]
fn chapters_are_read_once() {
    let mut b = book("b", 3);
    assert_eq!(b.chapter(1).unwrap().title, "plain");
    assert_eq!(b.chapter(1).unwrap().html.as_deref(), Some("<p>1</p>"));
    assert_eq!(b.session.reads.get(), 1);
    assert_eq!(b.chapter_shared(1).unwrap().title, "plain");
    assert_eq!(b.session.reads.get(), 1);
    assert_eq!(b.chapter_styled(1).unwrap().title, "styled");
    assert_eq!(b.session.reads.get(), 2);
    assert_eq!(b.chapter_for_search(1).unwrap().title, "plain");
    assert_eq!(b.session.reads.get(), 2);
    b.chapter_for_search(2).unwrap();
    b.chapter_for_search(2).unwrap();
    assert_eq!(b.session.reads.get(), 4);
}

#[test]
fn chapters_out_of_range_are_refused() {
    let mut b = book("b", 2);
    assert_eq!(b.chapter_content(2, false).unwrap_err().message(), "章节索引超出范围: 2");
    assert_eq!(b.session.reads.get(), 0);
    assert_eq!(b.chapter_content(1, true).unwrap().title, "styled");
    assert_eq!(b.chapter_content(0, false).unwrap().title, "plain");
    assert_eq!(b.chapter_count(), 2);
}

#[test]
fn the_first_chapter_kept_goes_first() {
    let mut cache = ChapterCache::default();
    for i in 0..CHAPTER_CACHE_CAP {
        cache.put((i, false), chapter(i, "t"));
    }
    cache.put((0, false), chapter(0, "new"));
    assert_eq!(cache.get((0, false)).unwrap().title, "new");
    cache.put((99, false), chapter(99, "t"));
    assert!(cache.get((0, false)).is_none());
    assert!(cache.get((1, false)).is_some());
    assert!(cache.get((1, true)).is_none());
    assert!(cache.get((99, false)).is_some());
}

#[test]
fn the_book_used_longest_ago_is_closed() {
    let mut state = AppState::new();
    for i in 0..MAX_OPEN_BOOKS {
        state.insert(book(&format!("b{i}"), i));
    }
    assert_eq!(state.get("b0").unwrap().chapter_count(), 0);
    state.insert(book("one more", 9));
    assert_eq!(state.len(), MAX_OPEN_BOOKS);
    assert!(state.get("b0").is_ok());
    let gone = state.get("b1").err().unwrap();
    assert_eq!(gone.message(), "书籍未打开或已被关闭: b1");
    state.insert(book("b0", 7));
    assert_eq!(state.len(), MAX_OPEN_BOOKS);
    assert_eq!(state.get("b0").unwrap().chapter_count(), 7);
    assert!(state.remove("b0"));
    assert!(!state.remove("b0"));
    state.clear();
    assert!(state.is_empty());
}

#[test]
fn resources_are_answered() {
    let mut state = AppState::new();
    state.insert(book("b", 1));
    let r = answer_resource(&mut state, "/b/a%20b.png");
    assert_eq!((r.status, r.mime.as_str(), r.body), (200, "image/png", vec![1, 2, 3]));
    let r = answer_resource(&mut state, "/b/none.png");
    assert_eq!((r.status, r.body), (404, "书籍资源不存在: none.png".as_bytes().to_vec()));
    let r = answer_resource(&mut state, "/c/a.png");
    assert_eq!((r.status, r.body), (404, "书籍未打开或已被关闭: c".as_bytes().to_vec()));
    let r = resource_request("/b").unwrap_err();
    assert_eq!((r.status, r.body.as_slice()), (404, b"missing book id".as_slice()));
    let r = resource_request("//b/x%2e./y").unwrap_err();
    assert_eq!((r.status, r.body.as_slice()), (400, b"bad resource path".as_slice()));
    assert!(resource_request("/b/").is_err());
    assert_eq!(resource_request("/b/c/d").unwrap(), ("b".to_string(), "c/d".to_string()));
}

fn one_book(id: &str) -> kedu_reader::model::ShelfData {
    kedu_reader::model::ShelfData {
        categories: vec![],
        books: vec![kedu_reader::model::ShelfBook::new_opened(
            id.to_string(),
            "t".to_string(),
            None,
            BookFormat::Pdf,
            1,
            "/secret.pdf".to_string(),
            1,
        )],
        uncategorized_order: 0,
    }
}

#[test]
fn covers_are_asked_for() {
    let shelf = one_book("bk1");
    assert!(matches!(cover_request(&shelf, "/bk1").unwrap(), CoverRequest::Current(id) if id == "bk1"));
    assert!(matches!(cover_request(&shelf, "/bk1/").unwrap(), CoverRequest::Current(_)));
    assert!(matches!(cover_request(&shelf, "/bk1/default").unwrap(), CoverRequest::Default(_)));
    assert!(matches!(cover_request(&shelf, "/bk1/custom").unwrap(), CoverRequest::Custom(_)));
    assert!(matches!(
        cover_request(&shelf, "/bk1/candidate/12").unwrap(),
        CoverRequest::Candidate(_, 12)
    ));
    let body = |p: &str| String::from_utf8(cover_request(&shelf, p).unwrap_err().body).unwrap();
    assert_eq!(body("/"), "bad book id");
    assert_eq!(body("/%2e%2e"), "bad book id");
    assert_eq!(body("/bk1/candidate"), "bad candidate index");
    assert_eq!(body("/bk1/candidate/x"), "bad candidate index");
    assert_eq!(body("/bk1/other"), "bad cover kind");
    assert_eq!(body("/bk2"), "book not in shelf");
    assert_eq!(body("/bk2/candidate/0"), "book not in shelf");
    assert_eq!(cover_request(&shelf, "/bk2/custom").unwrap_err().status, 404);
    assert_eq!(body("/bk2/other"), "bad cover kind");
    let r = answer_cover(Some(b"\xff\xd8\xff".to_vec()));
    assert_eq!((r.status, r.mime.as_str()), (200, "image/jpeg"));
    assert_eq!(answer_cover(None).status, 404);
    let list = vec![b"GIF89a".to_vec()];
    assert_eq!(answer_candidate(&list, 0).mime, "image/gif");
    assert_eq!(answer_candidate(&list, 1).body, b"candidate not found");
}

#[test]
fn pictures_are_told_by_their_first_bytes() {
    assert_eq!(sniff_image_mime(b"\x89PNG"), "image/png");
    assert_eq!(sniff_image_mime(b"RIFF....WEBP"), "image/webp");
    assert_eq!(sniff_image_mime(b"RIFF....WEB"), "application/octet-stream");
    assert_eq!(sniff_image_mime(b""), "application/octet-stream");
}

#[test]
fn only_files_of_the_shelf_are_read() {
    let shelf = one_book("b 1");
    assert_eq!(file_request(&shelf, "/b%201").unwrap(), "/secret.pdf");
    let r = file_request(&shelf, "/etc/passwd").unwrap_err();
    assert_eq!((r.status, r.body.as_slice()), (404, b"book not in shelf".as_slice()));
}

#[test]
fn windows_are_hidden_or_closed() {
    assert!(hides_on_close(Window::Main, true, false, true));
    assert!(hides_on_close(Window::Main, false, true, true));
    assert!(!hides_on_close(Window::Main, false, false, true));
    assert!(hides_on_close(Window::Reader, true, true, false));
    assert!(!hides_on_close(Window::Reader, true, true, true));
    assert!(!hides_on_close(Window::Other, true, true, false));
    assert_eq!(
        after_destroyed(Window::Reader, None, false),
        Aftermath { close_books: true, show_main: false, exit: true }
    );
    assert_eq!(
        after_destroyed(Window::Reader, Some(false), false),
        Aftermath { close_books: true, show_main: true, exit: false }
    );
    assert_eq!(
        after_destroyed(Window::Main, None, true),
        Aftermath { close_books: false, show_main: false, exit: false }
    );
    assert_eq!(window_to_show(false, true), Some(Window::Main));
    assert_eq!(window_to_show(false, false), None);
}
