use kedu_reader::commands::book::{
    add_book_to_shelf, check_book_id, ensure_in_shelf, is_pdf_path, pdf_meta,
};
use kedu_reader::commands::counting::{
    book_char_count, known_char_count, strip_html_count, CharCount,
};
use kedu_reader::commands::recording::{
    date_of_stretch, get_day_stat, record_reading_session, record_reading_time, record_stretch,
    set_book_stats_excluded,
};
use kedu_reader::commands::shelf::{clean_genres, format_display_name, make_category_id};
use kedu_reader::commands::stats::{can_record, forget_book, record_reading, record_session, total};
use kedu_reader::commands::summary::{
    can_summarize, end_of_part, get_reading_stats, summarize, Clock, Counted,
};
use kedu_reader::error::{AppError, AppResult};
use kedu_reader::model::{
    BookFormat, BookMeta, ChapterContent, ChapterKind, SessionEntry, ShelfBook, ShelfData,
    StatsFile, UNCATEGORIZED_ID,
};
use kedu_reader::parser::session::BookSession;
use kedu_reader::parser::BookFile;

fn shelf() -> ShelfData {
    ShelfData { categories: vec![], books: vec![], uncategorized_order: 0 }
}

fn meta(id: &str, title: &str) -> BookMeta {
    BookMeta {
        id: id.to_string(),
        title: title.to_string(),
        author: Some("作者".to_string()),
        publisher: None,
        language: None,
        format: BookFormat::Epub,
        file_size: 10,
        file_path: format!("/b/{id}.epub"),
        total_chapters: 1,
        cover_resource: None,
    }
}

fn session(id: &str, started_at: i64, seconds: u64) -> SessionEntry {
    SessionEntry {
        book_id: id.to_string(),
        started_at,
        seconds,
        percent_start_bits: None,
        percent_end_bits: None,
    }
}

#[test]
fn adding_a_book_twice_adds_it_once() {
    let mut s = shelf();
    let first = add_book_to_shelf(&mut s, &meta("b", "旧"), 100);
    assert_eq!(first.added_at, 100);
    s.set_book_category("b", None).unwrap();
    let second = add_book_to_shelf(&mut s, &meta("b", "新"), 200);
    assert_eq!(second.title, "旧");
    assert_eq!(s.books.len(), 1);
    assert!(s.remove_book_from_shelf("b"));
    assert!(!s.remove_book_from_shelf("b"));
}

#[test]
fn pdf_files_are_put_on_the_shelf() {
    let file = BookFile {
        path: "/b/论文.pdf".to_string(),
        canonical: "/b/论文.pdf".to_string(),
        size: 9,
        windows: false,
    };
    let m = pdf_meta(&file, b"%PDF-1.7").unwrap();
    assert_eq!(m.title, "论文");
    assert_eq!(m.format, BookFormat::Pdf);
    assert_eq!(m.total_chapters, 0);
    let mut s = shelf();
    ensure_in_shelf(&mut s, &m.id, &m.title, &m.file_path, m.file_size, 3);
    ensure_in_shelf(&mut s, &m.id, "x", "y", 1, 4);
    assert_eq!(s.books.len(), 1);
    assert_eq!(s.books[0].title, "论文");
    assert!(is_pdf_path("C:\\A.PDF"));
    assert!(!is_pdf_path("a.pdf.txt"));
    let other = BookFile { path: "/b/a.txt".to_string(), ..file };
    assert_eq!(pdf_meta(&other, b"").unwrap_err().message(), "文件不是有效的 PDF");
}

#[test]
fn identifiers_lead_nowhere() {
    assert!(check_book_id("bk0123").is_ok());
    for id in ["a/b", "a\\b", "..", "a..b"] {
        assert_eq!(
            check_book_id(id).unwrap_err().message(),
            format!("本地持久化读写失败: 非法的书籍 id: {id}")
        );
    }
}

#[test]
fn categories_are_kept_apart() {
    let mut s = shelf();
    let a = s.add_category("cat1", " 小说 ").unwrap();
    assert_eq!(a.name, "小说");
    let b = s.add_category("cat2", "历史").unwrap();
    assert!(b.order > a.order);
    assert!(s.add_category("cat3", "小说").is_err());
    assert!(s.add_category("cat3", "  ").is_err());
    assert!(s.rename_category("cat1", "科幻").unwrap());
    add_book_to_shelf(&mut s, &meta("b", "书"), 1);
    s.set_book_category("b", Some("cat1".to_string())).unwrap();
    assert_eq!(s.books[0].category_id.as_deref(), Some("cat1"));
    assert!(s.set_book_category("b", Some("none".to_string())).is_err());
    assert!(s.reorder_category(&vec![
        "cat2".to_string(),
        UNCATEGORIZED_ID.to_string(),
        "cat1".to_string()
    ]));
    let order = |s: &ShelfData, id: &str| s.categories.iter().find(|c| c.id == id).unwrap().order;
    assert!(order(&s, "cat2") < order(&s, "cat1"));
    assert!(s.remove_category("cat1"));
    assert_eq!(s.books[0].category_id, None);
    assert!(!s.remove_category("cat1"));
    assert_eq!(make_category_id(0), "cat0000000000000000");
}

#[test]
fn ratings_wait_for_the_end() {
    let mut s = shelf();
    add_book_to_shelf(&mut s, &meta("b", "书"), 1);
    assert_eq!(
        s.set_book_rating("b", Some(80), 5).unwrap_err().message(),
        "读完一本书后才能评分"
    );
    assert!(s.save_progress("b", 1, true, 9));
    assert!(s.set_book_rating("b", Some(80), 5).unwrap());
    assert_eq!(s.books[0].rated_at, Some(5));
    assert!(s.set_book_rating("b", Some(101), 5).is_err());
    assert!(s.set_book_rating("b", None, 6).unwrap());
    assert_eq!(s.books[0].rated_at, None);
    assert!(!s.set_book_rating("none", None, 6).unwrap());
}

#[test]
fn the_end_of_a_book_counts_once() {
    let mut s = shelf();
    add_book_to_shelf(&mut s, &meta("b", "书"), 1);
    s.save_progress("b", 1, true, 10);
    s.save_progress("b", 2, true, 20);
    assert_eq!(s.books[0].finished_times, 1);
    assert_eq!(s.books[0].finished_at, Some(10));
    s.save_progress("b", 3, false, 30);
    s.save_progress("b", 4, true, 40);
    assert_eq!(s.books[0].finished_times, 2);
    assert_eq!(s.books[0].last_read_at, 40);
}

#[test]
fn genres_are_cleaned() {
    let many: Vec<String> = (0..30).map(|i| format!("g{i}")).collect();
    assert_eq!(clean_genres(&many).len(), 24);
    let list = vec![
        " 小说 ".to_string(),
        "".to_string(),
        "小说".to_string(),
        "长".repeat(31),
        "科幻".to_string(),
    ];
    assert_eq!(clean_genres(&list), vec!["小说", "科幻"]);
    assert_eq!(format_display_name(BookFormat::Epub), "EPUB");
}

#[test]
fn old_genres_are_moved() {
    let mut s = shelf();
    add_book_to_shelf(&mut s, &meta("b", "书"), 1);
    s.books[0].legacy_genre = Some("武侠".to_string());
    s.migrate_genres();
    assert_eq!(s.books[0].genres, vec!["武侠"]);
    assert_eq!(s.books[0].legacy_genre, None);
}

#[test]
fn reading_is_recorded_by_days() {
    let s = shelf();
    let mut stats = StatsFile::default();
    assert!(can_record(&stats, "b", "2024-01-01", 60));
    record_reading_time(&s, &mut stats, "b", "2024-01-01", 60, Some("书"));
    record_reading_time(&s, &mut stats, "b", "2024-01-01", 30, None);
    record_reading_time(&s, &mut stats, "c", "2024-01-01", 5, Some("  "));
    record_reading_time(&s, &mut stats, "c", "2024-01-01", 0, None);
    record_stretch(&s, &mut stats, "2024-01-01", session("b", 1000, 90), None);
    let day = get_day_stat(&stats, "2024-01-01").unwrap();
    assert_eq!(day.total_seconds, 95);
    assert_eq!(day.per_book, vec![("b".to_string(), 90), ("c".to_string(), 5)]);
    assert_eq!(day.sessions.len(), 1);
    assert_eq!(stats.book_titles, vec![("b".to_string(), "书".to_string())]);
    assert!(get_day_stat(&stats, "2024-01-02").is_none());
    assert!(!can_record(&stats, "b", "2024-01-01", u64::MAX));
}

#[test]
fn what_is_kept_out_stays_out() {
    let mut s = shelf();
    add_book_to_shelf(&mut s, &meta("b", "书"), 1);
    let mut stats = StatsFile::default();
    record_reading(&mut stats, "b", "2024-01-01", 60, Some("书"));
    record_reading(&mut stats, "c", "2024-01-01", 7, Some("别的"));
    record_reading(&mut stats, "b", "2024-01-02", 60, None);
    record_session(&mut stats, "2024-01-01", session("b", 0, 60), None);
    assert!(set_book_stats_excluded(&mut s, &mut stats, "b", true));
    assert_eq!(stats.days.len(), 1);
    assert_eq!(stats.days[0].1.total_seconds, 7);
    assert!(stats.days[0].1.sessions.is_empty());
    assert_eq!(stats.book_titles.len(), 1);
    record_reading_time(&s, &mut stats, "b", "2024-01-03", 60, Some("书"));
    record_reading_session(&s, &mut stats, "2024-01-03", session("b", 0, 60), None);
    assert_eq!(stats.days.len(), 1);
    assert!(!set_book_stats_excluded(&mut s, &mut stats, "none", true));
    assert_eq!(total(&vec![("a".to_string(), 2), ("b".to_string(), 3)]), 5);
    forget_book(&mut stats, "c");
    assert!(stats.days.is_empty());
}

#[test]
fn reading_is_summed_up() {
    let mut s = shelf();
    add_book_to_shelf(&mut s, &meta("b", "书"), 1);
    let mut stats = StatsFile::default();
    // 2024-01-10 is the day 19732 after 1970-01-01.
    record_reading(&mut stats, "b", "2024-01-10", 120, Some("书"));
    record_reading(&mut stats, "c", "2024-01-09", 30, Some("别的"));
    record_reading(&mut stats, "b", "2024-01-07", 10, None);
    let today = 19732 + DAYS_BEFORE_1970;
    assert!(can_summarize(&stats, today));
    let counted =
        Counted { note_count: 3, bookmark_count: 2, total_chars_read: 0, avg_speed_bits: None };
    let r = get_reading_stats(&stats, &s, today, counted);
    assert_eq!(r.counted.note_count, 3);
    assert_eq!(r.book_count, 1);
    assert_eq!(r.peak_day_date.as_deref(), Some("2024-01-10"));
    assert_eq!(r.daily.last().unwrap().date, "2024-01-10");
    assert_eq!(r.top_books[0].seconds, 130);
    assert_eq!(r.today_seconds, 120);
    assert_eq!(r.total_seconds, 160);
    assert_eq!(r.streak_days, 2);
}

/// Days are counted from the first day of the common era.
const DAYS_BEFORE_1970: i32 = 719163;

#[test]
fn only_what_is_shown_counts() {
    assert_eq!(strip_html_count("<p>ab  c</p>\n <p>d</p>"), 6);
    assert_eq!(strip_html_count(""), 0);
    assert_eq!(strip_html_count("ab<"), 2);
}

struct Chapters(Vec<ChapterContent>);

impl BookSession for Chapters {
    fn load_chapter(&self, index: usize) -> AppResult<ChapterContent> {
        if index == 1 {
            return Err(AppError::other("broken"));
        }
        Ok(self.0[index].clone())
    }

    fn load_chapter_styled(&self, index: usize) -> AppResult<ChapterContent> {
        self.load_chapter(index)
    }

    fn load_resource_bytes(&self, _path: &str) -> AppResult<(String, Vec<u8>)> {
        Err(AppError::other("none"))
    }

    fn chapter_count(&self) -> usize {
        self.0.len()
    }
}

#[test]
fn characters_of_a_book_are_counted() {
    let chapter = |kind: ChapterKind, body: &str| ChapterContent {
        book_id: "b".to_string(),
        chapter_index: 0,
        title: String::new(),
        kind,
        html: Some(body.to_string()),
        text: Some(body.to_string()),
        image_refs: None,
    };
    let book = Chapters(vec![
        chapter(ChapterKind::Text, "<p>一二</p>"),
        chapter(ChapterKind::Text, "不可读"),
        chapter(ChapterKind::Html, "<p>一二</p>"),
        chapter(ChapterKind::Images, "图"),
    ]);
    assert_eq!(book_char_count(&book), 9 + 2);
    let mut s = shelf();
    assert!(matches!(known_char_count(&s, "b"), CharCount::Absent));
    let b = ShelfBook::new_opened(
        "b".to_string(),
        "书".to_string(),
        None,
        BookFormat::Txt,
        1,
        "/b.txt".to_string(),
        1,
    );
    s.books.push(b);
    match known_char_count(&s, "b") {
        CharCount::Uncounted(p) => assert_eq!(p, "/b.txt"),
        other => panic!("{other:?}"),
    }
    s.set_book_char_count("b", 11);
    assert!(matches!(known_char_count(&s, "b"), CharCount::Known(11)));
}

#[test]
fn hours_are_those_of_the_clock() {
    // At 05:30 ahead of Greenwich the stretch goes from 10:45 to 11:15.
    let mut stats = StatsFile::default();
    record_session(&mut stats, "1970-01-01", session("b", 18900, 1800), None);
    let first = Clock { at: 18900, hour: 10, minute: 45, second: 0 };
    let next = end_of_part(18900, 18900 + 1800, first);
    assert_eq!(next, 19800);
    let second = Clock { at: next, hour: 11, minute: 0, second: 0 };
    assert_eq!(end_of_part(next, 18900 + 1800, second), 20700);
    let counted = || Counted {
        note_count: 0,
        bookmark_count: 0,
        total_chars_read: 0,
        avg_speed_bits: None,
    };
    let clocks = vec![vec![Some(first), Some(second)]];
    let r = summarize(&stats, &shelf(), DAYS_BEFORE_1970, &clocks, counted());
    assert_eq!((r.hour_buckets[10], r.hour_buckets[11]), (900, 900));
    assert_eq!(r.hour_buckets.iter().sum::<u64>(), 1800);
    let known = get_reading_stats(&stats, &shelf(), DAYS_BEFORE_1970, counted());
    assert_eq!(known.hour_buckets.iter().sum::<u64>(), 1800);

    // No clock shows a time beyond the end of the calendar.
    let mut stats = StatsFile::default();
    record_session(&mut stats, "1970-01-01", session("b", 9_000_000_000_000, 1800), None);
    let unknown = summarize(&stats, &shelf(), DAYS_BEFORE_1970, &vec![vec![None]], counted());
    assert_eq!(unknown.hour_buckets.iter().sum::<u64>(), 0);
    let r = get_reading_stats(&stats, &shelf(), DAYS_BEFORE_1970, counted());
    assert_eq!(r.hour_buckets.iter().sum::<u64>(), 0);
    assert_eq!(r.max_session_seconds, 1800);
}

#[test]
fn no_day_is_counted_twice() {
    let mut stats = StatsFile::default();
    record_reading(&mut stats, "b", "1970-01-01", 100, None);
    record_reading(&mut stats, "b", "1969-12-30", 20, None);
    record_reading(&mut stats, "b", "1969-12-10", 3, None);
    record_reading(&mut stats, "b", "1969-11-10", 4000, None);
    let counted = Counted {
        note_count: 0,
        bookmark_count: 0,
        total_chars_read: 0,
        avg_speed_bits: None,
    };
    assert!(can_summarize(&stats, DAYS_BEFORE_1970));
    let r = get_reading_stats(&stats, &shelf(), DAYS_BEFORE_1970, counted);
    assert_eq!(
        (r.today_seconds, r.week_seconds, r.month_seconds, r.total_seconds),
        (100, 120, 123, 4123)
    );
    let mut dates: Vec<&str> = r.daily.iter().map(|p| p.date.as_str()).collect();
    assert_eq!(dates.len(), 365);
    dates.sort();
    dates.dedup();
    assert_eq!(dates.len(), 365);
    assert_eq!(r.daily.iter().map(|p| p.seconds).sum::<u64>(), 4123);
}

#[test]
fn hours_before_the_epoch_are_no_longer() {
    let c = Clock { at: -1800, hour: 23, minute: 30, second: 0 };
    assert_eq!(end_of_part(-1800, 100_000, c), 0);
    let c = Clock { at: -5400, hour: 22, minute: 59, second: 59 };
    assert_eq!(end_of_part(-5400, 100_000, c), -5399);
    let c = Clock { at: i64::MAX - 10, hour: 0, minute: 0, second: 0 };
    assert_eq!(end_of_part(i64::MAX - 10, i64::MAX, c), i64::MAX);
}

#[test]
fn every_reading_to_the_end_counts() {
    let mut s = shelf();
    add_book_to_shelf(&mut s, &meta("b", "书"), 1);
    let percent = |p: f32| p.to_bits();
    assert!(s.save_progress("b", percent(100.0), true, 5));
    assert!(s.save_progress("b", percent(50.0), false, 6));
    assert_eq!((s.books[0].finished, s.books[0].finished_times), (false, 1));
    assert!(s.save_progress("b", percent(100.0), true, 7));
    assert!(s.save_progress("b", percent(100.0), true, 8));
    assert_eq!(s.books[0].finished_times, 2);
    assert_eq!(s.books[0].finished_at, Some(7));
    assert!(!s.save_progress("none", percent(1.0), false, 9));
}

#[test]
fn a_stretch_stands_under_the_day_on_which_it_started() {
    let started_at = 1_700_000_000;
    let start = chrono::TimeZone::timestamp_opt(&chrono::Local, started_at, 0).unwrap();
    let date = start.format("%Y-%m-%d").to_string();
    let mut stats = StatsFile::default();
    record_reading_session(&shelf(), &mut stats, "2024-01-03", session("b", started_at, 60), None);
    assert_eq!(stats.days.len(), 1);
    assert_eq!(stats.days[0].0, date);
    assert_eq!(stats.days[0].1.sessions.len(), 1);
    record_stretch(&shelf(), &mut stats, "2024-01-03", session("b", started_at, 60), None);
    assert_eq!(stats.days.len(), 2);
    let beyond = session("b", 9_000_000_000_000, 60);
    record_reading_session(&shelf(), &mut stats, "2024-01-04", beyond, None);
    assert_eq!(stats.days[2].0, "2024-01-04");
    assert_eq!(date_of_stretch(Some(719163), "2024-01-03"), "1970-01-01");
    assert_eq!(date_of_stretch(Some(-95746129), "2024-01-03"), "-262143-01-01");
    assert_eq!(date_of_stretch(Some(95745399), "2024-01-03"), "+262142-12-31");
    assert_eq!(date_of_stretch(Some(95745400), "2024-01-03"), "2024-01-03");
    assert_eq!(date_of_stretch(None, "2024-01-03"), "2024-01-03");
    assert_eq!(date_of_stretch(Some(i32::MAX), "2024-01-03"), "2024-01-03");
}
