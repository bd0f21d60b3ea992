use std::collections::hash_map::DefaultHasher;
use std::hash::{Hash, Hasher};

use kedu_reader::archive::pick_entry;
use kedu_reader::commands::book::{add_book_to_shelf, cover_of_book};
use kedu_reader::commands::shelf::clean_genres;
use kedu_reader::commands::stats::{can_forget, forget_book, record_reading, record_session};
use kedu_reader::commands::summary::{get_reading_stats, Counted};
use kedu_reader::error::{AppError, AppResult};
use kedu_reader::model::{
    BookFormat, BookMeta, ChapterContent, DayStat, SessionEntry, ShelfData, StatsFile, TocItem,
};
use kedu_reader::natural::natural_order;
use kedu_reader::parser::epub::hrefs::normalize_path;
use kedu_reader::parser::session::{
    brings_covers, fits, load, open_book_from_path, BookSession,
};
use kedu_reader::parser::{
    encode_res_path, escape_attr, make_book_id, resource_url, unescape_entities, BookFile,
};
use kedu_reader::regexes;
use kedu_reader::routes::resource_request;
use kedu_reader::sorting::sort_dedup;
use kedu_reader::transfer::percent_encode;

fn meta(id: &str, cover: Option<&str>) -> BookMeta {
    BookMeta {
        id: id.to_string(),
        title: "书".to_string(),
        author: None,
        publisher: None,
        language: None,
        format: BookFormat::Epub,
        file_size: 10,
        file_path: format!("/b/{id}.epub"),
        total_chapters: 1,
        cover_resource: cover.map(|c| c.to_string()),
    }
}

fn shelf() -> ShelfData {
    let mut s = ShelfData { categories: vec![], books: vec![], uncategorized_order: 0 };
    add_book_to_shelf(&mut s, &meta("b", None), 1);
    s
}

#[test]
fn what_is_escaped_is_read_back() {
    for s in ["", "a", "&", "&amp;", "<a href=\"x\">'</a>", "&#x41;&lt", "汉 & 字"] {
        let e = escape_attr(s);
        assert!(!e.contains('"') && !e.contains('<') && !e.contains('>'), "{e}");
        assert_eq!(unescape_entities(&e), s);
    }
    assert_eq!(escape_attr("<&\">"), "&lt;&amp;&quot;&gt;");
}

#[test]
fn addresses_lead_to_their_resource() {
    for path in ["OEBPS/a b#1?.png", "图/一.jpg", "a+b&c.png", "~/x"] {
        let url = resource_url(false, "bk1", path);
        let request = url.strip_prefix("reader-res://localhost").unwrap();
        assert_eq!(resource_request(request).unwrap(), ("bk1".to_string(), path.to_string()));
    }
    for path in ["100%/a b.png", "%41", "图"] {
        let request = format!("/bk1/{}", percent_encode(path));
        assert_eq!(resource_request(&request).unwrap().1, path);
    }
    assert_eq!(resource_url(true, "bk1", "a\\b"), "http://reader-res.localhost/bk1/a/b");
    // A percent sign is not spelled out in an address, so what follows it may be undone.
    assert_eq!(encode_res_path("%41"), "%41");
    assert_eq!(resource_request("/bk1/%41").unwrap().1, "A");
}

#[test]
fn paths_are_normal_after_one_pass() {
    for p in ["a/./b/../c", "../../x", "/a//b/", "a\\b", ""] {
        let once = normalize_path(p);
        assert_eq!(normalize_path(&once), once);
    }
    assert_eq!(normalize_path("a/./b/../c"), "a/c");
}

#[test]
fn books_are_told_apart_by_path_and_size() {
    let id = make_book_id("/b/a.epub", 10);
    assert_eq!(id.len(), 18);
    assert!(id.starts_with("bk"));
    assert_eq!(make_book_id("/b/a.epub", 10), id);
    assert_ne!(make_book_id("/b/a.epub", 11), id);
    assert_ne!(make_book_id("/b/c.epub", 10), id);
    let mut hasher = DefaultHasher::new();
    "/b/a.epub".hash(&mut hasher);
    hasher.write(&[10, 0, 0, 0, 0, 0, 0, 0]);
    assert_eq!(id, format!("bk{:016x}", hasher.finish()));
}

#[test]
fn every_pattern_can_be_asked_for() {
    let text: Vec<char> = "<p>1</p>".chars().collect();
    let patterns = [
        regexes::FRAG_ANCHOR,
        regexes::REFERENCE_TAG,
        regexes::TYPE_ATTR,
        regexes::FILEPOS_ATTR,
        regexes::GUIDE_ANCHOR,
        regexes::ANY_TAG,
        regexes::HEADING,
        regexes::PAGEBREAK_TAG,
        regexes::KINDLE_EMBED,
        regexes::RECINDEX,
        regexes::CSS_DANGER,
        regexes::NAV_BLOCK,
        regexes::NAV_ANCHOR,
        regexes::NAMED_TAG,
        regexes::IMAGE_SRC,
        regexes::STYLE_BLOCK,
        regexes::LINK_TAG,
        regexes::REL_ATTR,
        regexes::HREF_ATTR,
        regexes::CSS_IMPORT,
        regexes::CSS_URL,
        regexes::FONT_FACE,
        regexes::FONT_FAMILY,
        regexes::TXT_HEADING,
        regexes::BARE_HEADING,
        regexes::FB2_IMAGE,
        regexes::FB2_COVER,
        regexes::FB2_BINARY,
        regexes::FB2_TITLE,
        regexes::FB2_PARAGRAPH,
        regexes::FB2_SECTION_ID,
        regexes::ANCHOR_TAG,
        regexes::FB2_HREF,
    ];
    for p in patterns {
        for row in regexes::spans(p, &text) {
            let (start, end) = row[0].unwrap();
            assert!(start <= end && end <= text.len());
        }
    }
    let found = regexes::spans(regexes::ANY_TAG, &"中<p>文</p>".chars().collect::<Vec<char>>());
    assert_eq!(found, vec![vec![Some((1, 4))], vec![Some((5, 9))]]);
}

#[test]
fn the_seconds_of_books_make_the_day() {
    let mut stats = StatsFile::default();
    record_reading(&mut stats, "b", "2024-01-01", 60, None);
    record_reading(&mut stats, "c", "2024-01-01", 7, None);
    let s = SessionEntry {
        book_id: "b".to_string(),
        started_at: 0,
        seconds: 60,
        percent_start_bits: None,
        percent_end_bits: None,
    };
    record_session(&mut stats, "2024-01-01", s, None);
    let adds_up = |d: &DayStat| d.total_seconds == d.per_book.iter().map(|p| p.1).sum::<u64>();
    assert!(stats.days.iter().all(|d| adds_up(&d.1)));
    forget_book(&mut stats, "b");
    assert_eq!(stats.days[0].1.total_seconds, 7);
    assert!(stats.days.iter().all(|d| adds_up(&d.1)));
}

#[test]
fn a_day_that_overflows_is_not_forgotten_from() {
    let mut stats = StatsFile::default();
    let per_book = vec![("a".to_string(), u64::MAX), ("b".to_string(), 1)];
    let date = "2024-01-01".to_string();
    let day = DayStat { date: date.clone(), total_seconds: 0, per_book, sessions: vec![] };
    stats.days.push((date, day));
    assert!(!can_forget(&stats));
    stats.days[0].1.per_book.pop();
    assert!(can_forget(&stats));
}

#[test]
fn hours_are_filled_by_what_was_read() {
    let mut stats = StatsFile::default();
    let s = SessionEntry {
        book_id: "b".to_string(),
        started_at: 1_700_000_000,
        seconds: 5000,
        percent_start_bits: None,
        percent_end_bits: None,
    };
    record_session(&mut stats, "2023-11-14", s, None);
    let counted =
        Counted { note_count: 0, bookmark_count: 0, total_chars_read: 0, avg_speed_bits: None };
    let r = get_reading_stats(&stats, &shelf(), 738838, counted);
    assert_eq!(r.hour_buckets.len(), 24);
    assert_eq!(r.hour_buckets.iter().sum::<u64>(), 5000);
    assert_eq!((r.session_count, r.avg_session_seconds, r.max_session_seconds), (1, 5000, 5000));
    assert!(r.hour_buckets.iter().all(|&n| n <= 3600));
}

#[test]
fn what_is_set_of_a_book_is_kept() {
    let mut s = shelf();
    assert!(s.set_book_font("b", Some("宋体".to_string())));
    assert_eq!(s.books[0].font_family.as_deref(), Some("宋体"));
    assert!(s.set_book_font("b", Some(" \t".to_string())));
    assert_eq!(s.books[0].font_family, None);
    assert!(!s.set_book_font("none", None));
    assert!(s.rename_book("b", " 新名 ").unwrap());
    assert_eq!(s.books[0].title, "新名");
    assert_eq!(s.rename_book("b", "  ").unwrap_err().message(), "书名不能为空");
    assert!(!s.rename_book("none", "x").unwrap());
    assert!(s.set_book_page_count("b", 12));
    assert_eq!(s.books[0].page_count, Some(12));
    let genres = vec![" 科幻 ".to_string(), "科幻".to_string()];
    assert!(s.set_book_genres("b", &genres));
    assert_eq!(s.books[0].genres, clean_genres(&genres));
    assert!(!s.set_book_genres("none", &genres));
    assert_eq!(s.books.len(), 1);
}

struct OnePicture;

impl BookSession for OnePicture {
    fn load_chapter(&self, _index: usize) -> AppResult<ChapterContent> {
        Err(AppError::other("none"))
    }

    fn load_chapter_styled(&self, index: usize) -> AppResult<ChapterContent> {
        self.load_chapter(index)
    }

    fn load_resource_bytes(&self, path: &str) -> AppResult<(String, Vec<u8>)> {
        if path == "cover.png" {
            Ok(("image/png".to_string(), vec![1, 2]))
        } else {
            Err(AppError::ResourceNotFound(path.to_string()))
        }
    }

    fn chapter_count(&self) -> usize {
        0
    }
}

#[test]
fn a_cover_is_taken_where_there_is_one() {
    assert_eq!(cover_of_book(&OnePicture, &meta("b", Some("cover.png"))), Some(vec![1, 2]));
    assert_eq!(cover_of_book(&OnePicture, &meta("b", Some("other.png"))), None);
    assert_eq!(cover_of_book(&OnePicture, &meta("b", None)), None);
}

#[test]
fn large_files_are_refused() {
    assert!(fits(BookFormat::Txt, 1000));
    assert!(!fits(BookFormat::Txt, u64::MAX));
    assert!(fits(BookFormat::Epub, u64::MAX));
    assert!(!fits(BookFormat::Pdf, 1));
}

#[test]
fn the_same_path_is_preferred() {
    let names: Vec<String> =
        ["x/a.png", "A.PNG", "a.png"].iter().map(|s| s.to_string()).collect();
    let at = |p: &str| pick_entry(&names, &p.chars().collect::<Vec<char>>());
    assert_eq!(at("a.png"), Some(1));
    assert_eq!(at("y/a.png"), Some(0));
    assert_eq!(at("none"), None);
}

#[test]
fn orders_are_orders() {
    let o = |a: &str, b: &str| {
        natural_order(&a.chars().collect::<Vec<char>>(), &b.chars().collect::<Vec<char>>())
    };
    for (a, b) in [("p2", "p10"), ("a", "b"), ("1", "01"), ("x", "x")] {
        assert_eq!(o(a, b), -o(b, a));
    }
    assert!(o("p2", "p10") < 0);
    assert_eq!(o("x", "x"), 0);
    assert_eq!(sort_dedup(&vec![3, 1, 3, 2]), vec![1, 2, 3]);
}

fn leads(toc: &[TocItem], n: u32) -> bool {
    toc.iter().all(|t| t.chapter_index < n && leads(&t.children, n))
}

#[test]
fn every_entry_leads_to_a_chapter() {
    let text = "第一章 起\n一\n第二章 承\n二\n";
    let xml = "<FictionBook><body><section><title><p>甲</p></title><p>x</p></section>\
               <section><p>y</p></section></body></FictionBook>";
    for (name, content) in [("a.txt", text), ("a.md", "# 一\n## 二\n# 三\n"), ("a.fb2", xml)] {
        let file = BookFile {
            path: format!("/b/{name}"),
            canonical: format!("/b/{name}"),
            size: content.len() as u64,
            windows: false,
        };
        let data = content.as_bytes().to_vec();
        let (meta, toc, session) = open_book_from_path(&file, &data, data.clone()).unwrap();
        assert_eq!(meta.total_chapters as usize, session.chapter_count());
        assert!(!toc.is_empty() && leads(&toc, meta.total_chapters), "{name}");
        assert_eq!((meta.file_size, &meta.file_path), (file.size, &file.path));
        for i in 0..session.chapter_count() {
            let c = session.load_chapter(i).unwrap();
            assert_eq!((c.book_id, c.chapter_index), (meta.id.clone(), i as u32));
        }
        let beyond = session.load_chapter(session.chapter_count()).unwrap_err();
        assert!(matches!(beyond, AppError::ChapterOutOfRange(_)));
        let (again, _, _) = open_book_from_path(&file, b"", b"other".to_vec()).unwrap();
        assert_eq!(again.id, meta.id);
    }
}

#[test]
fn covers_of_large_files_are_refused_unread() {
    let size = 300 * 1024 * 1024;
    let file = |path: &str| BookFile {
        path: path.to_string(),
        canonical: path.to_string(),
        size,
        windows: false,
    };
    assert!(!brings_covers(BookFormat::Txt, size));
    assert!(!brings_covers(BookFormat::Pdf, 1));
    assert!(brings_covers(BookFormat::Mobi, u64::MAX) && brings_covers(BookFormat::Epub, size));
    let refused = load(&file("/a.txt"), b"", Vec::new()).unwrap_err();
    assert_eq!(refused.message(), load(&file("/a.txt"), b"", b"x".to_vec()).unwrap_err().message());
    assert!(load(&file("/a.doc"), b"", Vec::new()).is_err());
}
