use std::io::{Cursor, Write};

use kedu_reader::model::BookFormat;
use kedu_reader::parser::epub::book::EpubBook;
use kedu_reader::parser::epub::fonts::{
    augment_font_fallbacks, augment_one_family, HEITI_FALLBACKS,
};
use kedu_reader::parser::epub::hrefs::{fallback_title, normalize_path, parent_dir, resolve_href};
use kedu_reader::parser::epub::opf::parse_opf;
use kedu_reader::parser::epub::toc::strip_tags_except_a;
use kedu_reader::parser::session::{load, open_book_from_path, BookSession, Session};
use kedu_reader::parser::BookFile;
use zip::write::SimpleFileOptions;

fn zipped(files: &[(&str, &[u8])]) -> Vec<u8> {
    let mut zw = zip::ZipWriter::new(Cursor::new(Vec::new()));
    for (name, content) in files {
        zw.start_file(*name, SimpleFileOptions::default()).unwrap();
        zw.write_all(content).unwrap();
    }
    zw.finish().unwrap().into_inner()
}

fn file_of(data: &[u8]) -> BookFile {
    BookFile {
        path: "/books/测试.epub".to_string(),
        canonical: "/books/测试.epub".to_string(),
        size: data.len() as u64,
        windows: true,
    }
}

fn container(opf: &str) -> String {
    format!(
        r#"<?xml version="1.0"?><container version="1.0" xmlns="urn:oasis:names:tc:opendocument:xmlns:container"><rootfiles><rootfile full-path="{opf}" media-type="application/oebps-package+xml"/></rootfiles></container>"#
    )
}

const ONE_CHAPTER: &str = r#"<package xmlns="http://www.idpf.org/2007/opf" version="3.0" unique-identifier="uid"><metadata xmlns:dc="http://purl.org/dc/elements/1.1/"><dc:title>t</dc:title><dc:identifier id="uid">u</dc:identifier></metadata><manifest><item id="c1" href="c1.xhtml" media-type="application/xhtml+xml"/></manifest><spine><itemref idref="c1"/></spine></package>"#;

#[test]
fn strip_tags_except_a_keeps_anchor_only() {
    let nav = "<ol><li><span>目录</span><a href=\"c1.xhtml#s1\">第一章 &amp; 测试</a></li></ol>";
    let out = strip_tags_except_a(nav);
    assert!(out.contains(r#"<a href="c1.xhtml#s1">"#), "<a> 被误删: {out}");
    assert!(out.contains("</a>"), "</a> 被误删: {out}");
    assert!(!out.contains("<ol>"), "<ol> 未剥除: {out}");
    assert!(!out.contains("<span>"), "<span> 未剥除: {out}");
    let out2 = strip_tags_except_a("<aside id=\"x\"><a href=\"#f\">[1]</a></aside>");
    assert!(out2.contains("<a href=\"#f\">") && out2.contains("</a>"));
    assert!(!out2.contains("<aside"));
    assert_eq!(strip_tags_except_a("纯文本不动"), "纯文本不动");
}

#[test]
fn nav_toc_maps_chapter_index_when_opf_in_subdir() {
    let opf = r#"<?xml version="1.0"?>
<package xmlns="http://www.idpf.org/2007/opf" version="3.0" unique-identifier="uid">
  <metadata xmlns:dc="http://purl.org/dc/elements/1.1/">
    <dc:title>子目录 OPF 回归测试</dc:title>
    <dc:creator>测试</dc:creator>
    <dc:identifier id="uid">test-uid</dc:identifier>
  </metadata>
  <manifest>
    <item id="nav" href="toc.xhtml" media-type="application/xhtml+xml" properties="nav"/>
    <item id="c1" href="c1.xhtml" media-type="application/xhtml+xml"/>
    <item id="c2" href="c2.xhtml" media-type="application/xhtml+xml"/>
    <item id="c3" href="c3.xhtml" media-type="application/xhtml+xml"/>
  </manifest>
  <spine>
    <itemref idref="c1"/>
    <itemref idref="c2"/>
    <itemref idref="c3"/>
  </spine>
</package>"#;
    let nav = r#"<?xml version="1.0"?>
<html xmlns="http://www.w3.org/1999/xhtml" xmlns:epub="http://www.idpf.org/2007/ops">
<head><title>TOC</title></head>
<body>
  <nav epub:type="toc"><ol>
    <li><a href="c2.xhtml#p2">第二章</a></li>
    <li><a href="c3.xhtml#p3">第三章</a></li>
  </ol></nav>
</body>
</html>"#;
    let chap = |id: &str| {
        format!(
            r#"<html xmlns="http://www.w3.org/1999/xhtml"><head><title>t</title></head><body><div class="chapter" id="{id}"><p>正文内容。</p></div></body></html>"#
        )
    };
    let data = zipped(&[
        ("mimetype", b"application/epub+zip"),
        ("META-INF/container.xml", container("OEBPS/content.opf").as_bytes()),
        ("OEBPS/content.opf", opf.as_bytes()),
        ("OEBPS/toc.xhtml", nav.as_bytes()),
        ("OEBPS/c1.xhtml", chap("p1").as_bytes()),
        ("OEBPS/c2.xhtml", chap("p2").as_bytes()),
        ("OEBPS/c3.xhtml", chap("p3").as_bytes()),
    ]);
    let (meta, toc, _session) = EpubBook::open(&file_of(&data), data).expect("打开测试 epub");

    assert_eq!(toc.len(), 2, "nav 两项都应映射到 spine: {toc:?}");
    assert_eq!(toc[0].chapter_index, 1, "第二章应映射到 spine[1]");
    assert_eq!(toc[0].anchor.as_deref(), Some("p2"));
    assert_eq!(toc[1].chapter_index, 2, "第三章应映射到 spine[2]");
    assert_eq!(toc[1].anchor.as_deref(), Some("p3"));
    assert_eq!(meta.title, "子目录 OPF 回归测试");
    assert_eq!(meta.author.as_deref(), Some("测试"));
    assert_eq!(meta.total_chapters, 3);
    assert_eq!(meta.format, BookFormat::Epub);
}

#[test]
fn augment_family_sans_appends_heiti_chain() {
    let out = augment_one_family(r#""汉仪旗黑50S","PingFang SC",sans-serif"#).unwrap();
    assert!(out.starts_with(r#""汉仪旗黑50S","PingFang SC","#));
    assert!(out.contains(r#"Microsoft YaHei,"#), "缺微软雅黑回退: {out}");
    assert!(out.contains(r#""SimHei""#) && out.contains(r#""黑体""#), "缺其他黑体回退: {out}");
    assert!(out.ends_with("sans-serif"), "泛型关键字应保持在链尾: {out}");
}

#[test]
fn augment_family_kai_appends_kai_chain() {
    let out =
        augment_one_family(r#"STKai, "MKai PRC", Kai,"楷体","PingFang SC", sans-serif"#).unwrap();
    assert!(out.contains(r#""KaiTi""#) && out.contains(r#"STKaiti"#), "缺楷体回退: {out}");
    assert_eq!(
        out.matches("楷体").count() - out.matches("楷体_GB2312").count(),
        1,
        "楷体去重: {out}"
    );
}

#[test]
fn augment_family_serif_and_skips() {
    let serif = augment_one_family(r#""Noto Serif CJK SC", serif"#).unwrap();
    assert!(serif.contains(r#""SimSun""#) && serif.contains("宋体"), "缺宋体回退: {serif}");
    assert!(serif.ends_with("serif"));

    assert!(augment_one_family("inherit").is_none());
    assert!(augment_one_family("var(--f)").is_none());
    assert!(augment_one_family(r#""Font Mono", monospace"#).is_none());
    assert!(augment_one_family(r#""MySerif""#).is_none());
    let full = HEITI_FALLBACKS;
    assert!(augment_one_family(&format!("{full},sans-serif")).is_none());
}

#[test]
fn augment_css_skips_font_face_and_shorthand() {
    let css = r#"@font-face { font-family: "BookFont"; src: url(fonts/a.ttf); }
        p { font-family: "BookFont", sans-serif; }
        div { font: 1em/1.4 sans-serif; }"#;
    let out = augment_font_fallbacks(css);
    assert!(
        out.contains(r#"@font-face { font-family: "BookFont";"#),
        "@font-face 描述符被污染: {out}"
    );
    assert!(
        out.contains(r#""BookFont", Microsoft YaHei"#),
        "规则内的 font-family 未增强: {out}"
    );
    assert!(out.contains("font: 1em/1.4 sans-serif;"), "font 简写被改动: {out}");
}

#[test]
fn styled_chapter_keeps_book_css_and_classes() {
    let chapter = r#"<html xmlns="http://www.w3.org/1999/xhtml"><head><style type="text/css">
p { font-family: "汉仪旗黑50S","PingFang SC", sans-serif; text-indent: 2em; }
.kindle-cn-kai { font-family: STKai, "MKai PRC", Kai,"楷体", sans-serif; }
</style></head><body>
<p class="kindle-cn-kai">引文段落</p>
<p style="text-align: center">居中段落</p>
<script>alert(1)</script>
</body></html>"#;
    let data = zipped(&[
        ("mimetype", b"application/epub+zip"),
        ("META-INF/container.xml", container("content.opf").as_bytes()),
        ("content.opf", ONE_CHAPTER.as_bytes()),
        ("c1.xhtml", chapter.as_bytes()),
    ]);
    let (_, _, session) = EpubBook::open(&file_of(&data), data).expect("打开测试 epub");

    let plain = session.load_chapter(0).unwrap();
    let plain_html = plain.html.as_deref().unwrap();
    assert!(!plain_html.contains("data-book-css"));
    assert!(!plain_html.contains("class="), "普通模式不应保留 class: {plain_html}");

    let styled = session.load_chapter_styled(0).unwrap();
    let html = styled.html.as_deref().unwrap();
    assert!(html.contains("<style data-book-css>"), "样式未注入: {html}");
    assert!(html.contains(".kindle-cn-kai"), "楷体规则丢失: {html}");
    assert!(
        html.contains(r#""汉仪旗黑50S","PingFang SC", Microsoft YaHei"#),
        "回退链未增强: {html}"
    );
    assert!(html.contains(r#"class="kindle-cn-kai""#), "class 属性丢失: {html}");
    assert!(html.contains(r#"style="text-align: center""#), "style 属性丢失: {html}");
    assert!(!html.contains("<script"), "script 未移除: {html}");
    assert_eq!(html.matches("<style").count(), 1, "应只剩注入的样式块: {html}");
}

#[test]
fn styled_chapter_inlines_linked_css_and_imports() {
    let chapter = r#"<html xmlns="http://www.w3.org/1999/xhtml"><head>
<link rel="stylesheet" type="text/css" href="css/main.css"/>
</head><body><p>正文</p></body></html>"#;
    let main_css = r#"@import "base.css";
p { color: red; background: url(../img/bg.png); }"#;
    let base_css = r#".quote { font-family: STKai, 楷体, sans-serif; }"#;
    let opf = ONE_CHAPTER.replace(r#"href="c1.xhtml""#, r#"href="text/c1.xhtml""#);
    let data = zipped(&[
        ("mimetype", b"application/epub+zip"),
        ("META-INF/container.xml", container("content.opf").as_bytes()),
        ("content.opf", opf.as_bytes()),
        ("text/c1.xhtml", chapter.as_bytes()),
        ("css/main.css", main_css.as_bytes()),
        ("css/base.css", base_css.as_bytes()),
    ]);
    let (_, _, session) = EpubBook::open(&file_of(&data), data).expect("打开测试 epub");

    let styled = session.load_chapter_styled(0).unwrap();
    let html = styled.html.as_deref().unwrap();
    assert!(html.contains(".quote"), "@import 未内联: {html}");
    assert!(
        html.contains(r#"楷体, KaiTi"#) || html.contains(r#"楷体,KaiTi"#),
        "楷体回退未增强: {html}"
    );
    assert!(!html.contains("@import"), "@import 未消解: {html}");
    assert!(html.contains("color: red"), "link CSS 未注入: {html}");
}

#[test]
fn paths_are_normalized() {
    assert_eq!(normalize_path("a/./b/../c.xhtml"), "a/c.xhtml");
    assert_eq!(normalize_path("../../x"), "x");
    assert_eq!(normalize_path(&normalize_path("a/../b//c")), normalize_path("a/../b//c"));
    assert_eq!(resolve_href("OEBPS/text", "../img/a.png"), "OEBPS/img/a.png");
    assert_eq!(parent_dir("OEBPS/content.opf"), "OEBPS");
    assert_eq!(parent_dir("content.opf"), "");
    assert!(fallback_title("text/chap_01.xhtml").contains("chap"));
}

#[test]
fn drm_is_refused() {
    let enc = r#"<encryption xmlns="urn:oasis:names:tc:opendocument:xmlns:container" xmlns:enc="http://www.w3.org/2001/04/xmlenc#"><enc:EncryptedData><enc:EncryptionMethod Algorithm="http://www.w3.org/2001/04/xmlenc#aes128-cbc"/></enc:EncryptedData></encryption>"#;
    let data = zipped(&[
        ("META-INF/container.xml", container("content.opf").as_bytes()),
        ("META-INF/encryption.xml", enc.as_bytes()),
        ("content.opf", ONE_CHAPTER.as_bytes()),
        ("c1.xhtml", b"<html><body>x</body></html>"),
    ]);
    match EpubBook::open(&file_of(&data), data) {
        Err(e) => assert_eq!(e.message(), "该电子书包含 DRM 加密保护，无法在本地阅读器中打开"),
        Ok(_) => panic!("opened"),
    }
}

#[test]
fn scrambled_fonts_are_no_drm() {
    let enc = r#"<encryption><enc:EncryptedData xmlns:enc="x"><enc:EncryptionMethod Algorithm="http://www.idpf.org/2008/embedding"/></enc:EncryptedData></encryption>"#;
    let data = zipped(&[
        ("META-INF/container.xml", container("content.opf").as_bytes()),
        ("META-INF/encryption.xml", enc.as_bytes()),
        ("content.opf", ONE_CHAPTER.as_bytes()),
        ("c1.xhtml", b"<html><body>x</body></html>"),
    ]);
    assert!(EpubBook::open(&file_of(&data), data).is_ok());
}

#[test]
fn a_file_that_is_no_archive_is_refused() {
    let data = b"PK\x03\x04 broken".to_vec();
    match EpubBook::open(&file_of(&data), data) {
        Err(e) => assert!(e.message().starts_with("ZIP 容器解析失败: "), "{}", e.message()),
        Ok(_) => panic!("opened"),
    }
}

#[test]
fn pictures_are_put_into_the_page() {
    let chapter = r#"<html><body><p>x<img src="img/a%20b.png"/></p></body></html>"#;
    let picture = b"\x89PNG\r\n\x1a\nsmall";
    let large = vec![7u8; 200 * 1024];
    let data = zipped(&[
        ("META-INF/container.xml", container("content.opf").as_bytes()),
        ("content.opf", ONE_CHAPTER.as_bytes()),
        ("c1.xhtml", chapter.as_bytes()),
        ("img/a b.png", picture),
        ("img/large.jpg", &large),
    ]);
    let (meta, toc, session) = EpubBook::open(&file_of(&data), data).unwrap();
    let html = session.load_chapter(0).unwrap().html.unwrap();
    assert!(html.contains("data:image/png;base64,iVBORw0KGgpzbWFsbA=="), "{html}");
    assert_eq!(toc.len(), 1);
    let (mime, bytes) = session.load_resource_bytes("img/large.jpg").unwrap();
    assert_eq!(mime, "image/jpeg");
    assert_eq!(bytes, large);
    assert!(session.load_resource_bytes("img/none.png").is_err());
    match session.load_chapter(1) {
        Err(e) => assert_eq!(e.message(), "章节索引超出范围: 1"),
        Ok(_) => panic!("no such chapter"),
    }
    assert!(meta.id.starts_with("bk"));
    let p = Session::Epub(session).load_resource("img/a b.png").unwrap();
    assert_eq!(p.mime_type, "image/png");
    assert_eq!(p.base64, "iVBORw0KGgpzbWFsbA==");
}

#[test]
fn manifests_are_read() {
    let opf = r#"<package><metadata><dc:title> A &amp; B </dc:title><dc:language>zh</dc:language><meta name="cover" content="pic"/></metadata><manifest><item id="pic" href="my%20cover.jpg" media-type="image/jpeg"/><item id="ncx" href="toc.ncx" media-type="application/x-dtbncx+xml"/></manifest><spine toc="ncx"></spine></package>"#;
    let p = parse_opf(opf).unwrap();
    assert_eq!(p.title.as_deref(), Some("A & B"));
    assert_eq!(p.manifest.len(), 2);
    assert_eq!(p.manifest[0].href, "my cover.jpg");
}

#[test]
fn ncx_gives_a_nested_toc() {
    let opf = r#"<package><metadata><dc:title>t</dc:title></metadata><manifest><item id="ncx" href="toc.ncx" media-type="application/x-dtbncx+xml"/><item id="a" href="a.xhtml" media-type="application/xhtml+xml"/><item id="b" href="b.xhtml" media-type="application/xhtml+xml"/></manifest><spine toc="ncx"><itemref idref="a"/><itemref idref="b"/></spine></package>"#;
    let ncx = r#"<ncx><navMap><navPoint id="n1"><navLabel><text>部</text></navLabel><content src="a.xhtml"/><navPoint id="n2"><navLabel><text>章</text></navLabel><content src="b.xhtml#x"/></navPoint></navPoint></navMap></ncx>"#;
    let data = zipped(&[
        ("META-INF/container.xml", container("content.opf").as_bytes()),
        ("content.opf", opf.as_bytes()),
        ("toc.ncx", ncx.as_bytes()),
        ("a.xhtml", b"<html><body>A</body></html>"),
        ("b.xhtml", b"<html><body>B</body></html>"),
    ]);
    let (_, toc, _) = EpubBook::open(&file_of(&data), data).unwrap();
    assert_eq!(toc.len(), 1);
    assert_eq!(toc[0].label, "部");
    assert_eq!(toc[0].chapter_index, 0);
    assert_eq!(toc[0].children.len(), 1);
    assert_eq!(toc[0].children[0].label, "章");
    assert_eq!(toc[0].children[0].chapter_index, 1);
    assert_eq!(toc[0].children[0].anchor.as_deref(), Some("x"));
}

#[test]
fn a_book_is_opened_by_its_format() {
    let opf = ONE_CHAPTER.replace(
        "<manifest>",
        r#"<manifest><item id="cov" href="cover.png" media-type="image/png" properties="cover-image"/>"#,
    );
    let mut picture = b"\x89PNG\r\n\x1a\n\0\0\0\rIHDR".to_vec();
    picture.extend(600u32.to_be_bytes());
    picture.extend(900u32.to_be_bytes());
    let data = zipped(&[
        ("META-INF/container.xml", container("OEBPS/content.opf").as_bytes()),
        ("OEBPS/content.opf", opf.as_bytes()),
        ("OEBPS/c1.xhtml", b"<html><body>x</body></html>"),
        ("OEBPS/cover.png", &picture),
    ]);
    let file = file_of(&data);
    let head = data[..72].to_vec();
    let (meta, _, book) = open_book_from_path(&file, &head, data.clone()).unwrap();
    assert_eq!(meta.format, BookFormat::Epub);
    assert_eq!(meta.cover_resource.as_deref(), Some("OEBPS/cover.png"));
    assert_eq!(book.load_resource_bytes("OEBPS/cover.png").unwrap().1, picture);
    assert_eq!(load(&file, &head, data.clone()).unwrap(), vec![picture]);
    match open_book_from_path(&file, b"not a zip", data) {
        Err(e) => assert_eq!(e.message(), "EPUB 文件头校验失败（非 ZIP 容器）"),
        Ok(_) => panic!("opened"),
    }
}

#[test]
fn only_the_source_of_a_picture_is_exchanged() {
    let data = zipped(&[
        ("META-INF/container.xml", container("content.opf").as_bytes()),
        ("content.opf", ONE_CHAPTER.as_bytes()),
        ("c1.xhtml", b"<html><body>x</body></html>"),
        ("a.png", &[1, 2, 3]),
    ]);
    let (_, _, book) = EpubBook::open(&file_of(&data), data).unwrap();
    let inline = |html: &str| {
        let html: Vec<char> = html.chars().collect();
        book.inline_images(&[], &html).into_iter().collect::<String>()
    };
    assert_eq!(
        inline(r#"<img alt="a.png" src="a.png">"#),
        r#"<img alt="a.png" src="data:image/png;base64,AQID">"#
    );
    assert_eq!(
        inline(r#"x<img class='a.png' src = 'a.png' alt='a.png'/>y"#),
        r#"x<img class='a.png' src = 'data:image/png;base64,AQID' alt='a.png'/>y"#
    );
    let none = r#"<img alt="b.png" src="b.png">"#;
    assert_eq!(inline(none), none);
}

#[test]
fn a_font_named_like_a_keyword_is_left_alone() {
    assert!(augment_one_family("Droid Serif").is_none());
    assert!(augment_one_family("MySerif").is_none());
    assert!(augment_one_family("Georgia, Lucida Sans-Serif").is_none());
    assert!(augment_one_family("Georgia,serif").unwrap().starts_with("Georgia,Noto Serif SC"));
    assert!(augment_one_family("serif").unwrap().ends_with(",serif"));
}

#[test]
fn an_import_hides_no_dangerous_css() {
    let chapter = r#"<html><head><style>p { x: java@import "none.css";script:y; color: red }</style></head><body><p>z</p></body></html>"#;
    let data = zipped(&[
        ("META-INF/container.xml", container("content.opf").as_bytes()),
        ("content.opf", ONE_CHAPTER.as_bytes()),
        ("c1.xhtml", chapter.as_bytes()),
    ]);
    let (_, _, book) = EpubBook::open(&file_of(&data), data).unwrap();
    let html = book.load_chapter_styled(0).unwrap().html.unwrap();
    assert!(html.contains("color: red"), "{html}");
    assert!(!html.contains("javascript:"), "{html}");
}
