use kedu_reader::commands::search::{
    collapse_ws, html_to_plain_text, search_in_book, MAX_SEARCH_MATCHES,
};
use kedu_reader::error::{AppError, AppResult};
use kedu_reader::model::{BookFormat, BookMeta, ChapterContent, ChapterKind};
use kedu_reader::parser::session::BookSession;
use kedu_reader::state::LoadedBook;

/// A book in memory.
struct DummySession {
    chapters: Vec<ChapterContent>,
}

impl BookSession for DummySession {
    fn load_chapter(&self, index: usize) -> AppResult<ChapterContent> {
        self.chapters.get(index).cloned().ok_or_else(|| AppError::other("章节不存在"))
    }

    fn load_chapter_styled(&self, index: usize) -> AppResult<ChapterContent> {
        self.load_chapter(index)
    }

    fn load_resource_bytes(&self, _path: &str) -> AppResult<(String, Vec<u8>)> {
        Err(AppError::other("无资源"))
    }

    fn chapter_count(&self) -> usize {
        self.chapters.len()
    }
}

fn chapter(index: u32, title: &str, kind: ChapterKind, body: &str) -> ChapterContent {
    ChapterContent {
        book_id: "bk_test".into(),
        chapter_index: index,
        title: title.into(),
        kind,
        html: if kind == ChapterKind::Html { Some(body.to_string()) } else { None },
        text: if kind == ChapterKind::Text { Some(body.to_string()) } else { None },
        image_refs: None,
    }
}

fn make_book(chapters: Vec<ChapterContent>) -> LoadedBook<DummySession> {
    LoadedBook::new(
        BookMeta {
            id: "bk_test".into(),
            title: "测试书".into(),
            author: None,
            publisher: None,
            language: None,
            format: BookFormat::Epub,
            file_size: 1,
            file_path: "C:\\fake.epub".into(),
            total_chapters: chapters.len() as u32,
            cover_resource: None,
        },
        vec![],
        DummySession { chapters },
    )
}

#[test]
fn collapse_ws_folds_and_trims() {
    assert_eq!(collapse_ws("  a \n\t b  "), "a b");
    assert_eq!(collapse_ws(""), "");
    assert_eq!(collapse_ws("纯文本不动"), "纯文本不动");
}

#[test]
fn html_block_boundary_becomes_space() {
    assert_eq!(html_to_plain_text("<p>foo</p><p>bar</p>"), "foo bar");
    assert_eq!(html_to_plain_text("<h1>标题</h1>\n  <p>正文</p>"), "标题 正文");
}

#[test]
fn html_inline_tags_removed() {
    assert_eq!(html_to_plain_text("<p>a<em>b</em>c</p>"), "abc");
    assert_eq!(html_to_plain_text("<p>x<br>y</p>"), "x y");
}

#[test]
fn html_entities_unescaped_and_ws_folded() {
    assert_eq!(html_to_plain_text("<p>a &amp; b</p>"), "a & b");
    assert_eq!(html_to_plain_text("<p>行一</p>\n<p>行二</p>"), "行一 行二");
}

#[test]
fn html_unclosed_tag_does_not_panic() {
    assert_eq!(html_to_plain_text("<p>abc"), "abc");
    assert_eq!(html_to_plain_text("abc<p>def"), "abc def");
}

#[test]
fn search_case_insensitive_latin() {
    let book =
        make_book(vec![chapter(0, "Ch1", ChapterKind::Html, "<p>Hello World, hello!</p>")]);
    let r = search_in_book(&book, "HELLO");
    assert_eq!(r.total, 2);
    assert_eq!(r.matches[0].quote, "Hello");
    assert_eq!(r.matches[0].prefix, "");
    assert_eq!(r.matches[0].suffix, " World, hell");
    assert_eq!(r.matches[1].prefix, "ello World, ");
    assert_eq!(r.matches[0].chapter_title, "Ch1");
}

#[test]
fn search_chinese_and_cross_tag() {
    let book = make_book(vec![chapter(
        0,
        "第一章",
        ChapterKind::Html,
        "<p>读书破万卷</p><p>下笔如有神</p>",
    )]);
    let r = search_in_book(&book, "卷 下笔");
    assert_eq!(r.total, 1);
    assert_eq!(r.matches[0].quote, "卷 下笔");
    assert_eq!(r.matches[0].pre, "读书破万");
    assert_eq!(r.matches[0].post, "如有神");
    assert_eq!(r.matches[0].chapter_title, "第一章");
}

#[test]
fn search_txt_kind() {
    let book = make_book(vec![chapter(0, "", ChapterKind::Text, "第一段\n第二段带关键词")]);
    let r = search_in_book(&book, "关键词");
    assert_eq!(r.total, 1);
    assert_eq!(r.matches[0].quote, "关键词");
    assert_eq!(r.matches[0].pre, "第一段 第二段带");
    assert_eq!(r.matches[0].post, "");
    assert_eq!(r.matches[0].chapter_title, "第 1 章");
}

#[test]
fn search_unicode_lowercase_length_change() {
    let book = make_book(vec![chapter(0, "T", ChapterKind::Text, "İstanbul")]);
    let r = search_in_book(&book, "i̇stanbul");
    assert_eq!(r.total, 1);
    assert_eq!(r.matches[0].quote, "İstanbul");
}

#[test]
fn search_truncation_keeps_accurate_total() {
    let body = "词 ".repeat(600);
    let book = make_book(vec![chapter(0, "T", ChapterKind::Text, &body)]);
    let r = search_in_book(&book, "词");
    assert_eq!(r.total, 600);
    assert_eq!(r.matches.len(), MAX_SEARCH_MATCHES);
    assert!(r.truncated);
}

#[test]
fn search_empty_and_no_hit() {
    let book = make_book(vec![chapter(0, "T", ChapterKind::Text, "内容")]);
    let empty = search_in_book(&book, "   ");
    assert_eq!(empty.total, 0);
    assert!(!empty.truncated);
    let miss = search_in_book(&book, "不存在");
    assert_eq!(miss.total, 0);
    assert!(miss.matches.is_empty());
}

#[test]
fn search_across_chapters_ordered() {
    let book = make_book(vec![
        chapter(0, "A", ChapterKind::Text, "目标在前章"),
        chapter(1, "B", ChapterKind::Text, "目标在后章"),
    ]);
    let r = search_in_book(&book, "目标");
    assert_eq!(r.total, 2);
    assert_eq!(r.matches[0].chapter_index, 0);
    assert_eq!(r.matches[1].chapter_index, 1);
}

#[test]
fn search_does_not_split_a_letter() {
    // Half of what a letter becomes when it is made small is no hit.
    let book = make_book(vec![chapter(0, "T", ChapterKind::Text, "İi")]);
    let r = search_in_book(&book, "i");
    assert_eq!(r.total, 1);
    assert_eq!(r.matches[0].prefix, "İ");
}

#[test]
fn hits_do_not_overlap() {
    let book = make_book(vec![chapter(0, "T", ChapterKind::Text, "aaaaa")]);
    let r = search_in_book(&book, "AA");
    assert_eq!(r.total, 2);
    assert_eq!(r.matches[0].suffix, "aaa");
    assert_eq!(r.matches[1].prefix, "aa");
    assert_eq!(r.matches[1].suffix, "a");
}

#[test]
fn long_context_is_cut_off() {
    let body = format!("{}靶{}", "左".repeat(50), "右".repeat(50));
    let book = make_book(vec![chapter(0, "T", ChapterKind::Text, &body)]);
    let r = search_in_book(&book, "靶");
    assert_eq!(r.matches[0].pre, format!("…{}", "左".repeat(40)));
    assert_eq!(r.matches[0].post, format!("{}…", "右".repeat(40)));
    assert_eq!(r.matches[0].prefix, "左".repeat(12));
    assert_eq!(r.matches[0].suffix, "右".repeat(12));
}

#[test]
fn long_queries_are_cut_off() {
    let body = "x".repeat(150);
    let book = make_book(vec![chapter(0, "T", ChapterKind::Text, &body)]);
    let r = search_in_book(&book, &"X".repeat(140));
    assert_eq!(r.total, 1);
    assert_eq!(r.matches[0].quote, "x".repeat(100));
}

#[test]
fn pictures_are_not_looked_through() {
    let book = make_book(vec![
        chapter(0, "P", ChapterKind::Images, "目标"),
        chapter(1, " ", ChapterKind::Html, "目标"),
    ]);
    let r = search_in_book(&book, "目标");
    assert_eq!(r.total, 1);
    assert_eq!(r.matches[0].chapter_title, "第 2 章");
}

#[test]
fn a_tag_without_end_takes_the_rest() {
    assert_eq!(html_to_plain_text("ab <b"), "ab");
    assert_eq!(html_to_plain_text("a</LI>b<!-- c -->d<?x?>e"), "a bde");
}

#[test]
fn folding_keeps_the_words() {
    for s in ["", " ", "a", " a\u{3000}\n b\tc ", "一 二", "\u{a0}x\u{2003}\u{2003}y"] {
        let out = collapse_ws(s);
        assert_eq!(collapse_ws(&out), out);
        let words: Vec<&str> = s.split_whitespace().collect();
        assert_eq!(out, words.join(" "));
    }
}
