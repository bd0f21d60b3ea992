use std::io::{Cursor, Write};

use base64::Engine;
use kedu_reader::model::{BookFormat, ChapterKind};
use kedu_reader::parser::cbz::{is_page_name, CbzBook};
use kedu_reader::parser::fb2::book::Fb2Book;
use kedu_reader::parser::fb2::document::{decode_fb2, parse_description};
use kedu_reader::parser::fb2::notes::{collect_note_targets, rewrite_note_refs};
use kedu_reader::parser::markdown::{
    build_toc, inject_heading_ids, mark_headings, number_headings, read_numbers, scan_headings,
    strip_md_inline, MarkdownBook,
};
use kedu_reader::parser::mobi::book::MobiBook;
use kedu_reader::parser::mobi::chapter::extract_cover;
use kedu_reader::parser::session::{missing_file, open_book_from_path};
use kedu_reader::parser::txt::{build_virtual_toc, TxtBook};
use kedu_reader::parser::{
    detect_format, escape_attr, guess_mime, make_book_id, resource_url, title_from_path,
    unescape_entities, BookFile,
};
use kedu_reader::cleaning::{harden_css, sanitize_book_html, sanitize_mobi_html};
use kedu_reader::regexes;

fn chars(s: &str) -> Vec<char> {
    s.chars().collect()
}

fn file(path: &str, size: usize) -> BookFile {
    BookFile {
        path: path.to_string(),
        canonical: path.to_string(),
        size: size as u64,
        windows: false,
    }
}

fn zipped(files: &[(&str, &[u8])]) -> Vec<u8> {
    let mut zw = zip::ZipWriter::new(Cursor::new(Vec::new()));
    for (name, content) in files {
        zw.start_file(*name, zip::write::SimpleFileOptions::default()).unwrap();
        zw.write_all(content).unwrap();
    }
    zw.finish().unwrap().into_inner()
}

fn sample_xml() -> String {
    let parts = [
        r##"<FictionBook><body><section><p>正文<a type="note" l:href="#n1">1</a>后续</p>"##,
        r##"<p>见注<a l:href='#n2'>[2]</a></p>"##,
        r##"<p>外链<a l:href="http://example.com">官网</a></p></section></body>"##,
        r##"<body name="notes"><section id="n1"><p>注释 &quot;内容&quot;</p><p>第二段</p></section>"##,
        r##"<section id="n2"><p>第二章注释</p></section></body></FictionBook>"##,
    ];
    parts.concat()
}

#[test]
fn note_refs_get_href_and_embedded_text() {
    let xml = sample_xml();
    let targets = collect_note_targets(&chars(&xml));
    let get = |id: &str| targets.iter().find(|t| t.0 == id).map(|t| t.1.as_str());
    assert_eq!(get("n1"), Some("注释 \"内容\"\n第二段"));
    assert_eq!(get("n2"), Some("第二章注释"));
    let rewrite = |s: &str| rewrite_note_refs(&chars(s), &targets).into_iter().collect::<String>();

    let out = rewrite(r##"<p>正文<a type="note" l:href="#n1">1</a>后续</p>"##);
    assert!(out.contains(r##"href="#n1""##), "href 改写丢失: {out}");
    assert!(
        out.contains("data-fn-text=\"注释 &quot;内容&quot;\n第二段\""),
        "内嵌文本丢失: {out}"
    );

    let out2 = rewrite(r#"<p><a l:href='#n2'>[2]</a></p>"#);
    assert!(out2.contains(r#"href='#n2'"#));
    assert!(out2.contains(r#"data-fn-text="第二章注释""#));

    let out3 = rewrite(r#"<a l:href="http://example.com">官网</a>"#);
    assert!(out3.contains(r#"href="http://example.com""#));
    assert!(!out3.contains("data-fn-text"));

    let plain = r##"<a href="#x">y</a>"##;
    assert_eq!(rewrite(plain), plain);
}

#[test]
fn headings_scan_and_toc_nest() {
    let text = "# 一\n正文\n```\n# 不是标题\n```\n## 1.1\n### 1.1.1\n## 1.2\n# 二\n";
    let hs = scan_headings(text);
    assert_eq!(hs.len(), 5, "围栏内 # 不应计入: {hs:?}");
    assert_eq!(hs[0].title, "一");
    assert_eq!(hs[1].level, 2);

    let toc = build_toc(&hs);
    assert_eq!(toc.len(), 2, "顶层只有 # 一 和 # 二");
    assert_eq!(toc[0].anchor.as_deref(), Some("md-h-0"));
    assert_eq!(toc[0].children.len(), 2);
    assert_eq!(toc[0].children[0].children.len(), 1, "1.1.1 嵌套在 1.1 下");
    assert_eq!(toc[0].children[0].children[0].anchor.as_deref(), Some("md-h-2"));
    assert_eq!(toc[1].anchor.as_deref(), Some("md-h-4"));
}

#[test]
fn heading_ids_injected_in_document_order() {
    let text = "# 甲\n## 乙\n### 丙\n";
    let hs = scan_headings(text);
    let opts = pulldown_cmark::Options::empty();
    let mut rendered = String::new();
    pulldown_cmark::html::push_html(
        &mut rendered,
        pulldown_cmark::Parser::new_ext(text, opts),
    );
    let out = inject_heading_ids(&rendered, hs.len());
    assert!(out.contains(r##"<h1 id="md-h-0">"##), "{out}");
    assert!(out.contains(r##"<h2 id="md-h-1">"##), "{out}");
    assert!(out.contains(r##"<h3 id="md-h-2">"##), "{out}");
}

#[test]
fn no_headings_single_chapter() {
    let hs = scan_headings("普通段落，没有标题。\n");
    assert!(hs.is_empty());
    assert!(build_toc(&hs).is_empty());
}

#[test]
fn sanitize_keeps_epub_footnote_semantics() {
    let parts = [
        r##"<p>正文<sup><a epub:type="noteref" href="#fn1">[1]</a></sup></p>"##,
        r##"<aside epub:type="footnote" id="fn1"><p><a href="#fnref1">&#8617;</a>注释内容</p></aside>"##,
        r##"<a role="doc-noteref" href="#fn2">2</a>"##,
        r##"<a onclick="evil()" href="javascript:alert(1)">x</a>"##,
    ];
    let html = parts.concat();
    let out = sanitize_book_html(&html, false);
    assert!(out.contains(r#"epub:type="noteref""#), "noteref 属性丢失: {out}");
    assert!(out.contains("<aside"), "aside 标签丢失: {out}");
    assert!(out.contains(r#"epub:type="footnote""#));
    assert!(out.contains(r#"role="doc-noteref""#));
    assert!(!out.to_lowercase().contains("onclick"));
    assert!(!out.to_lowercase().contains("javascript:"));
}

fn set_u32(data: &mut [u8], offset: usize, value: u32) {
    data[offset..offset + 4].copy_from_slice(&value.to_be_bytes());
}

fn header(version: u32, resources: u32, boundary: Option<u32>) -> Vec<u8> {
    let mut h = vec![0; 320];
    h[1] = 1;
    h[9] = 1;
    h[16..20].copy_from_slice(b"MOBI");
    set_u32(&mut h, 20, 264);
    set_u32(&mut h, 28, 65001);
    set_u32(&mut h, 36, version);
    set_u32(&mut h, 108, resources);
    set_u32(&mut h, 128, 0x40);
    set_u32(&mut h, 244, u32::MAX);
    set_u32(&mut h, 252, 2);
    set_u32(&mut h, 248, 2);
    h[280..284].copy_from_slice(b"EXTH");
    set_u32(&mut h, 284, if boundary.is_some() { 36 } else { 24 });
    set_u32(&mut h, 288, if boundary.is_some() { 2 } else { 1 });
    set_u32(&mut h, 292, 201);
    set_u32(&mut h, 296, 12);
    if let Some(b) = boundary {
        set_u32(&mut h, 304, 121);
        set_u32(&mut h, 308, 12);
        set_u32(&mut h, 312, b);
    }
    h
}

fn palm(records: &[Vec<u8>]) -> Vec<u8> {
    let mut data = vec![0; 78 + records.len() * 8];
    data[60..68].copy_from_slice(b"BOOKMOBI");
    data[76..78].copy_from_slice(&(records.len() as u16).to_be_bytes());
    for (i, r) in records.iter().enumerate() {
        let offset = data.len() as u32;
        set_u32(&mut data, 78 + i * 8, offset);
        data.extend(r);
    }
    data
}

#[test]
fn hybrid_cover_uses_original_resource_base() {
    let expected = b"\xff\xd8\xffcorrect cover";
    let mut index = vec![0; 68];
    index[..4].copy_from_slice(b"INDX");
    set_u32(&mut index, 4, 56);
    index[56..60].copy_from_slice(b"TAGX");
    set_u32(&mut index, 60, 12);
    let records = vec![
        header(6, 2, Some(4)),
        b"<p>old</p>".to_vec(),
        expected.to_vec(),
        b"\xff\xd8\xffwrong glyph".to_vec(),
        header(8, 3, None),
        b"<p>new</p>".to_vec(),
        index,
    ];
    let data = palm(&records);
    assert_eq!(extract_cover(&data).unwrap().unwrap(), expected);
    let result = MobiBook::open(&file("/b/kedu-hybrid-cover.mobi", data.len()), data, BookFormat::Mobi);
    let (meta, _, book) = result.unwrap();
    assert_eq!(meta.cover_resource.as_deref(), Some("rec:0"));
    let (mime, bytes) = book.load_resource_bytes(meta.cover_resource.as_ref().unwrap()).unwrap();
    assert_eq!(mime, "image/jpeg");
    assert_eq!(bytes, expected);
    assert!(book.load_chapter(0).unwrap().html.unwrap().contains("new"));
}

#[test]
fn encrypted_mobi_is_refused() {
    let mut h = header(6, 2, None);
    h[13] = 2;
    let data = palm(&[h, b"<p>x</p>".to_vec(), b"\xff\xd8\xff".to_vec()]);
    match MobiBook::open(&file("/b/a.mobi", data.len()), data, BookFormat::Mobi) {
        Err(e) => assert_eq!(e.message(), "该电子书包含 DRM 加密保护，无法在本地阅读器中打开"),
        Ok(_) => panic!("opened"),
    }
}

#[test]
fn plain_mobi_is_read() {
    let h = header(6, 2, None);
    let data = palm(&[
        h,
        "<html><body><p>一</p><mbp:pagebreak/><p>二</p></body></html>".as_bytes().to_vec(),
        b"\xff\xd8\xffpic".to_vec(),
    ]);
    let (meta, toc, book) =
        MobiBook::open(&file("/b/a.mobi", data.len()), data, BookFormat::Mobi).unwrap();
    assert_eq!(meta.total_chapters, 2);
    assert_eq!(toc.len(), 2);
    assert!(book.load_chapter(0).unwrap().html.unwrap().contains("一"));
    assert!(book.load_chapter(1).unwrap().html.unwrap().contains("二"));
    assert!(book.load_chapter(2).is_err());
}

#[test]
fn fb2_chapters_and_pictures_are_read() {
    let xml = concat_xml(&[
        r##"<?xml version="1.0" encoding="utf-8"?><FictionBook xmlns:l="x"><description><title-info><book-title>书名</book-title><author><first-name>甲</first-name><last-name>乙</last-name></author><lang>zh</lang><coverpage><image l:href="#c.png"/></coverpage></title-info></description>"##,
        r##"<body><section><title><p>第一</p></title><p>一<image l:href="#c.png"/></p></section><section><title><p>第二</p></title><p>二</p></section></body>"##,
        r##"<binary id="c.png" content-type="image/png">iVBORw0KGgo=</binary></FictionBook>"##,
    ]);
    let (meta, toc, book) = Fb2Book::open(&file("/b/a.fb2", xml.len()), xml.as_bytes()).unwrap();
    assert_eq!(meta.title, "书名");
    assert_eq!(meta.total_chapters, 2);
    assert_eq!(toc[1].label, "第二");
    let html = book.load_chapter(0).unwrap().html.unwrap();
    assert!(html.contains("一"), "{html}");
    assert!(!html.contains("二"), "{html}");
    let (mime, bytes) = book.load_resource_bytes("bin:c.png").unwrap();
    assert_eq!(mime, "image/png");
    assert_eq!(bytes, b"\x89PNG\r\n\x1a\n");
    assert!(book.load_resource_bytes("bin:none").is_err());
    assert!(book.load_resource_bytes("c.png").is_err());
    assert!(book.load_chapter(2).is_err());
}

fn concat_xml(parts: &[&str]) -> String {
    parts.concat()
}

#[test]
fn txt_is_cut_at_headings() {
    let text = "前言\n第一章 开始\n正文一\n第二章 结束\n正文二\n";
    let parts = build_virtual_toc(&chars(text));
    assert_eq!(parts.len(), 3);
    assert_eq!(parts[0].title, "前言");
    assert_eq!(parts[1].title, "第一章 开始");
    assert_eq!(parts[1].start, 10);
    assert_eq!(parts[1].end, 14);
    let (meta, toc, book) = TxtBook::open(&file("/b/小说.txt", text.len()), text.as_bytes()).unwrap();
    assert_eq!(meta.title, "小说");
    assert_eq!(meta.total_chapters, 3);
    assert_eq!(toc[2].chapter_index, 2);
    assert_eq!(toc[1].anchor.as_deref(), Some("10"));
    let c = book.load_chapter(2).unwrap();
    assert_eq!(c.kind, ChapterKind::Text);
    assert!(c.text.unwrap().contains("正文二"));
    assert!(book.load_resource_bytes("x").is_err());
}

#[test]
fn txt_in_gbk_is_decoded() {
    let bytes: &[u8] = &[
        0xb5, 0xda, 0xd2, 0xbb, 0xd5, 0xc2, 0x0a, 0xd6, 0xd0, 0xb9, 0xfa, 0xc8, 0xcb, 0xb5, 0xc4,
        0xca, 0xe9, 0xa3, 0xac, 0xd5, 0xe2, 0xca, 0xc7, 0xd2, 0xbb, 0xb1, 0xbe, 0xca, 0xe9, 0xa1,
        0xa3,
    ];
    let (_, _, book) = TxtBook::open(&file("/b/a.txt", bytes.len()), bytes).unwrap();
    let text = book.load_chapter(0).unwrap().text.unwrap();
    assert_eq!(text, "中国人的书，这是一本书。");
}

#[test]
fn markdown_is_rendered() {
    let text = "# 标题\n\n段落 **粗**\n\n| a | b |\n|---|---|\n| 1 | 2 |\n";
    let (meta, toc, book) =
        MarkdownBook::open(&file("/b/笔记.md", text.len()), text.as_bytes()).unwrap();
    assert_eq!(meta.total_chapters, 1);
    assert_eq!(toc[0].label, "标题");
    let html = book.load_chapter(0).unwrap().html.unwrap();
    assert!(html.contains(r#"<h1 id="md-h-0">标题</h1>"#), "{html}");
    assert!(html.contains("<strong>粗</strong>"), "{html}");
    assert!(html.contains("<table"), "{html}");
    assert!(book.load_chapter(1).is_err());
}

#[test]
fn comic_pages_come_in_order() {
    let data = zipped(&[
        ("p10.jpg", b"10"),
        ("p2.jpg", b"2"),
        ("__MACOSX/p1.jpg", b"no"),
        ("info.txt", b"no"),
        ("p1.PNG", b"1"),
    ]);
    let (meta, _, book) = CbzBook::open(&file("/b/a.cbz", data.len()), data).unwrap();
    assert_eq!(meta.format, BookFormat::Cbz);
    let c = book.load_chapter(0).unwrap();
    assert_eq!(c.kind, ChapterKind::Images);
    assert_eq!(c.image_refs.unwrap(), vec!["p1.PNG", "p2.jpg", "p10.jpg"]);
    assert_eq!(book.load_resource_bytes("p2.jpg").unwrap().1, b"2");
    assert!(is_page_name("a/b.webp"));
    assert!(!is_page_name("a/b.txt"));
}

#[test]
fn formats_are_detected() {
    assert_eq!(detect_format(false, "a.EPUB", b"PK\x03\x04").unwrap(), BookFormat::Epub);
    assert_eq!(detect_format(false, "a.md", b"").unwrap(), BookFormat::Markdown);
    assert_eq!(detect_format(false, "a.doc", b"").unwrap_err().message(), "不支持的电子书格式: doc");
    assert_eq!(
        detect_format(false, "a.mobi", b"none").unwrap_err().message(),
        "MOBI 文件头校验失败"
    );
    assert!(detect_format(false, "a.cbz", b"none").is_err());
    assert_eq!(missing_file("/x.epub").message(), "文件不存在: /x.epub");
    let f = file("/b/a.doc", 1);
    assert!(open_book_from_path(&f, b"x", vec![]).is_err());
}

#[test]
fn names_and_addresses() {
    assert_eq!(title_from_path(false, "/a/三体.v2.epub"), "三体.v2");
    assert_eq!(title_from_path(true, r"C:\b\a.txt"), "a");
    assert_eq!(title_from_path(true, r"C:\b/c\a.txt\."), "a");
    assert_eq!(title_from_path(true, "C:a.txt"), "a");
    assert_eq!(title_from_path(true, r"C:\"), "未命名书籍");
    assert_eq!(title_from_path(false, r"/b\a.txt"), r"b\a");
    assert_eq!(title_from_path(false, "/b/.."), "未命名书籍");
    assert_eq!(guess_mime("x/y.JPG"), "image/jpeg");
    assert_eq!(
        resource_url(true, "bk1", "a b/#?\\c.png"),
        "http://reader-res.localhost/bk1/a%20b/%23%3F/c.png"
    );
    assert_eq!(resource_url(false, "bk1", "a.png"), "reader-res://localhost/bk1/a.png");
    let id = make_book_id("/a.epub", 10);
    assert_eq!(id, make_book_id("/a.epub", 10));
    assert_ne!(id, make_book_id("/a.epub", 11));
    assert_ne!(id, make_book_id("/b.epub", 10));
    assert_eq!(id.len(), 18);
    assert_eq!(unescape_entities("&lt;&#x4e2d;&#25991;&nope;&amp;"), "<中文&nope;&");
    assert_eq!(escape_attr("<a \"b\" & 'c'>").contains('<'), false);
    assert!(!sanitize_mobi_html("<p>a<script>b</script></p>").contains("script"));
    let note = r#"<aside epub:type="footnote" aid="1">x</aside>"#;
    assert_eq!(sanitize_mobi_html(note), note);
}

#[test]
fn headings_are_heading_lines() {
    let text = "甲\n===\n\n    # 代码\n\n乙\n---\n\n# *丙* `x_y` [丁](u)\r\n\n#\n\n<h4>戊</h4>\n\n\
                ~~~\n# 非\n~~~\n\n> # 引\n\n####### 七\n\n#无\n\n## 己 ##\n";
    let hs = scan_headings(text);
    let seen: Vec<(u8, &str)> = hs.iter().map(|h| (h.level, h.title.as_str())).collect();
    assert_eq!(seen, vec![(1, "代码"), (1, "丙 xy 丁"), (1, "未命名章节"), (2, "己 ##")]);
    let (_, toc, book) = MarkdownBook::open(&file("/b/a.md", text.len()), text.as_bytes()).unwrap();
    assert_eq!(toc.len(), 3);
    assert_eq!(toc[0].anchor.as_deref(), Some("md-h-0"));
    assert_eq!(toc[1].anchor.as_deref(), Some("md-h-1"));
    assert_eq!(toc[2].children[0].label, "己 ##");
    assert_eq!(toc[2].children[0].anchor.as_deref(), Some("md-h-3"));
    let html = book.load_chapter(0).unwrap().html.unwrap();
    assert_eq!(html.matches(" id=\"md-h-").count(), 3, "{html}");
    assert!(html.contains("<h1>甲</h1>"), "{html}");
    assert!(html.contains("<h2>乙</h2>"), "{html}");
    assert!(html.contains("<h1 id=\"md-h-1\"><em>丙</em>"), "{html}");
    assert!(html.contains("<h1 id=\"md-h-2\"></h1>"), "{html}");
    assert!(html.contains("<h4>戊</h4>"), "{html}");
    assert!(html.contains("<h1>引</h1>"), "{html}");
    assert!(html.contains("<h2 id=\"md-h-3\">己</h2>"), "{html}");
    assert!(!html.contains('\u{1}'), "{html}");
}

#[test]
fn heading_lines_bear_their_numbers() {
    assert_eq!(
        mark_headings("# a\n  ##\nb\n```\n# c\n```\n#\td"),
        "# \u{1}0\u{1} a\n  ## \u{1}1\u{1}\nb\n```\n# c\n```\n# \u{1}2\u{1}\td\n"
    );
    let html = "<h1>\u{1}1\u{1} a</h1><h2>b</h2><h3>\u{1}0\u{1}</h3><h4>\u{1}2\u{1}</h4>\
                <h5>\u{1}3\u{1}</h5><h6> \u{1}2\u{1}</h6>";
    assert_eq!(
        read_numbers(&chars(html), 3),
        vec![Some(1), None, None, Some(2), None, None]
    );
    assert_eq!(
        number_headings("<h1>a</h1><h2>b</h2><h3>c</h3>", &vec![Some(4), None]),
        "<h1 id=\"md-h-4\">a</h1><h2>b</h2><h3>c</h3>"
    );
    assert_eq!(
        inject_heading_ids("<h1>a</h1><h2>b</h2>", 1),
        "<h1 id=\"md-h-0\">a</h1><h2>b</h2>"
    );
    assert_eq!(strip_md_inline("**a** `b` [c](d)"), "a b c");
    assert_eq!(strip_md_inline("![x](y) e\\_f [g] ~h~"), "ef g h");
}

#[test]
fn no_dangerous_css_comes_about() {
    let danger = |s: &str| regexes::spans(regexes::CSS_DANGER, &chars(s)).len();
    let out = harden_css("javajavascript:script:alert(1)");
    assert_eq!(out, "alert(1)");
    let css = "p{color:red} a{width:exprexpression(ession(1)} b{-moz--moz-bindingbinding:x}";
    assert!(danger(css) > 0);
    assert_eq!(danger(&harden_css(css)), 0);
    assert_eq!(harden_css("p { color: red }"), "p { color: red }");
    let html = sanitize_book_html("<p style=\"x:javajavascript:script:y\">z</p>", true);
    assert_eq!(danger(&html), 0, "{html}");
    assert!(html.contains("x:y"), "{html}");
}

#[test]
fn embedded_pictures_are_found() {
    let data = palm(&[
        header(6, 2, None),
        b"<p>x</p>".to_vec(),
        b"\xff\xd8\xfffirst".to_vec(),
        b"\xff\xd8\xffsecond".to_vec(),
    ]);
    let (_, _, book) =
        MobiBook::open(&file("/b/a.mobi", data.len()), data, BookFormat::Mobi).unwrap();
    let link = |html: &str| {
        let html = chars(html);
        let found = regexes::spans(regexes::KINDLE_EMBED, &html);
        book.link_resources(&html, &found, true).into_iter().collect::<String>()
    };
    let one = link("<img src=\"kindle:embed:0001?mime=image/jpg\">");
    assert!(one.ends_with("/rec:0\">"), "{one}");
    let two = link("<img src=\"kindle:embed:0002\">");
    assert!(two.ends_with("/rec:1\">"), "{two}");
    assert!(link("kindle:embed:0010").ends_with("/rec:31"));
    assert_eq!(link("kindle:embed:0000"), "");
    assert_eq!(book.load_resource_bytes("rec:0").unwrap().1, b"\xff\xd8\xfffirst");
    assert_eq!(book.load_resource_bytes("rec:1").unwrap().1, b"\xff\xd8\xffsecond");
}

#[test]
fn large_pictures_of_fb2_are_asked_for_later() {
    let body = r##"<FictionBook><body><section><p>x<image xlink:href="#big.png"/></p><p><img src="http://example.com/a.png"/></p></section></body>"##;
    let big = base64::engine::general_purpose::STANDARD.encode(vec![7u8; 102401]);
    let xml = format!(
        r#"{body}<binary id="big.png" content-type="image/png">{big}</binary></FictionBook>"#
    );
    for windows in [false, true] {
        let f = BookFile { windows, ..file("/b/a.fb2", xml.len()) };
        let (meta, _, book) = Fb2Book::open(&f, xml.as_bytes()).unwrap();
        let html = book.load_chapter(0).unwrap().html.unwrap();
        let url = resource_url(windows, &meta.id, "bin:big.png");
        assert!(html.contains(&format!(r#"<img src="{url}" alt="big.png">"#)), "{html}");
        assert!(!html.contains("example.com"), "{html}");
        assert_eq!(book.load_resource_bytes("bin:big.png").unwrap().1.len(), 102401);
    }
}

#[test]
fn fb2_is_decoded_as_it_declares() {
    let long = "a".repeat(300 * 1024);
    let xml = format!(
        r#"<?xml version="1.0" encoding="UTF-8"?><FictionBook><body><section><p>{long}é</p></section></body></FictionBook>"#
    );
    assert!(decode_fb2(xml.as_bytes()).unwrap().contains('é'));
    let mut old = br#"<?xml version="1.0" encoding="windows-1251"?><p>"#.to_vec();
    old.extend([0xcf, 0xf0, 0xe8]);
    assert!(decode_fb2(&old).unwrap().ends_with("При"));
}

#[test]
fn fb2_is_described_by_its_infos() {
    let about = |s: &str| parse_description(&chars(s));
    let d = about(concat_xml(&[
        "<description><document-info><author><nickname>scanner</nickname></author></document-info>",
        "<title-info><author><first-name>甲</first-name></author><book-title>书</book-title></title-info>",
        "<publish-info><publisher>社</publisher></publish-info></description>",
    ]).as_str());
    assert_eq!(d.author.as_deref(), Some("甲"));
    assert_eq!(d.title.as_deref(), Some("书"));
    assert_eq!(d.publisher.as_deref(), Some("社"));
    let d = about("<description><book-title>书</book-title><author/></description>");
    assert_eq!(d.title.as_deref(), Some("书"));
    assert_eq!(d.author.as_deref(), Some("佚名"));
}
