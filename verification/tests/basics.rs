use std::io::{Cursor, Write};

use kedu_reader::archive::Archive;
use kedu_reader::commands::fonts::{
    add_font, add_font_file, face_names, is_font_file, offer_fonts, NameRecord,
};
use kedu_reader::commands::settings::{cache_info, update_reader_settings, ReaderSettings};
use kedu_reader::decoding::{decode_to_utf8, judge_decoding};
use kedu_reader::error::AppError;
use kedu_reader::natural::sort_names;
use kedu_reader::numbers::{parse_decimal, write_decimal};
use kedu_reader::text::{collapse, lines_of, replace, split_at, trim};
use kedu_reader::transfer::percent_encode;
use kedu_reader::xml::attrs_of;

fn chars(s: &str) -> Vec<char> {
    s.chars().collect()
}

fn string(c: Vec<char>) -> String {
    c.into_iter().collect()
}

#[test]
fn ipc_error_serializes_as_string() {
    let e = AppError::DrmDetected;
    assert!(e.message().contains("DRM"));
    let e2 = AppError::ChapterOutOfRange(9);
    assert_eq!(e2.message(), "章节索引超出范围: 9");
    assert_eq!(
        AppError::DrmDetected.message(),
        "该电子书包含 DRM 加密保护，无法在本地阅读器中打开"
    );
}

#[test]
fn every_error_has_its_sentence() {
    let s = || "x".to_string();
    assert_eq!(AppError::Io(s()).message(), "文件读取失败: x");
    assert_eq!(AppError::Zip(s()).message(), "ZIP 容器解析失败: x");
    assert_eq!(AppError::Xml(s()).message(), "XML 解析失败: x");
    assert_eq!(AppError::Encoding(s()).message(), "文本编码检测失败: x");
    assert_eq!(AppError::UnsupportedFormat(s()).message(), "不支持的电子书格式: x");
    assert_eq!(AppError::BookNotOpen(s()).message(), "书籍未打开或已被关闭: x");
    assert_eq!(AppError::ResourceNotFound(s()).message(), "书籍资源不存在: x");
    assert_eq!(AppError::Storage(s()).message(), "本地持久化读写失败: x");
    assert_eq!(AppError::other("x").message(), "x");
}

#[test]
fn settings_are_kept_within_bounds() {
    let mut s = ReaderSettings::default();
    assert_eq!(s.font_size_px, 18);
    assert_eq!(s.line_height_bits, 1.6f32.to_bits());
    assert_eq!(s.column_width_px, 730);
    s.font_size_px = 9;
    s.page_margin_px = 121;
    s.scroll_column_width_px = 100;
    s.shelf_card_size = 101;
    s.font_family = Some(" ".to_string());
    let s = update_reader_settings(s);
    assert_eq!(
        (s.font_size_px, s.page_margin_px, s.scroll_column_width_px, s.shelf_card_size),
        (10, 120, 480, 100)
    );
    assert_eq!(s.font_family, None);
    let again = update_reader_settings(s.clone());
    assert_eq!(again.font_size_px, s.font_size_px);
    assert_eq!(update_reader_settings(ReaderSettings::default()).shelf_card_size, 30);
}

#[test]
fn caches_are_described() {
    let i = cache_info(&None, "/d/EBWebView", "/d", 5, 6);
    assert_eq!((i.webview_dir.as_str(), i.custom), ("/d/EBWebView", false));
    let i = cache_info(&Some("/c".to_string()), "/d/EBWebView", "/d", 5, 6);
    assert_eq!((i.webview_dir.as_str(), i.custom, i.covers_size_bytes), ("/c", true, 6));
}

fn record(name_id: u16, language: u16, text: &str) -> NameRecord {
    NameRecord { platform: 3, name_id, language, text: Some(text.to_string()) }
}

#[test]
fn fonts_are_named() {
    let names = face_names(&vec![
        record(1, 0x0409, "Microsoft YaHei"),
        record(1, 0x0804, "微软雅黑"),
        record(16, 0x0409, "YaHei"),
        record(1, 0x0409, "ignored"),
    ]);
    assert_eq!(names, Some(("YaHei".to_string(), "微软雅黑".to_string())));
    assert_eq!(
        face_names(&vec![record(1, 0x0804, "楷体")]),
        Some(("楷体".to_string(), "楷体".to_string()))
    );
    assert_eq!(face_names(&vec![record(1, 0x0411, "x"), record(1, 0x0409, " ")]), None);
    let mac = NameRecord { platform: 1, ..record(1, 0x0409, "x") };
    assert_eq!(face_names(&vec![mac]), None);
}

#[test]
fn fonts_are_offered_in_order() {
    let mut list = vec![];
    add_font(&mut list, "b", "Beta", false);
    add_font(&mut list, "z", "仿宋", true);
    add_font(&mut list, "a", "alpha", false);
    add_font(&mut list, "b", "Again", true);
    let shown: Vec<String> = offer_fonts(&list).into_iter().map(|f| f.display).collect();
    assert_eq!(shown, vec!["Beta", "仿宋", "alpha"]);
    assert!(is_font_file(true, "C:/Windows/Fonts/msyh.TTC"));
    assert!(!is_font_file(true, "a.woff"));
}

fn table(tag: &[u8; 4], offset: usize, len: usize) -> Vec<u8> {
    let mut t = tag.to_vec();
    t.extend(0u32.to_be_bytes());
    t.extend((offset as u32).to_be_bytes());
    t.extend((len as u32).to_be_bytes());
    t
}

/// A font with nothing but a name.
fn tiny_font(name: &str) -> Vec<u8> {
    let mut head = vec![0u8; 54];
    head[18..20].copy_from_slice(&1000u16.to_be_bytes());
    let hhea = vec![0u8; 36];
    let mut maxp = 0x00005000u32.to_be_bytes().to_vec();
    maxp.extend(1u16.to_be_bytes());
    let text: Vec<u8> = name.encode_utf16().flat_map(|u| u.to_be_bytes()).collect();
    let mut names = vec![];
    for n in [0u16, 1, 18, 3, 1, 0x0409, 1, text.len() as u16, 0] {
        names.extend(n.to_be_bytes());
    }
    names.extend(&text);
    let tables: [(&[u8; 4], &Vec<u8>); 4] =
        [(b"head", &head), (b"hhea", &hhea), (b"maxp", &maxp), (b"name", &names)];
    let mut out = 0x00010000u32.to_be_bytes().to_vec();
    for n in [4u16, 64, 2, 0] {
        out.extend(n.to_be_bytes());
    }
    let mut offset = 12 + 16 * tables.len();
    for (tag, t) in tables {
        out.extend(table(tag, offset, t.len()));
        offset += t.len();
    }
    for (_, t) in tables {
        out.extend(t);
    }
    out
}

#[test]
fn font_files_are_read() {
    let mut list = vec![];
    add_font_file(&mut list, &tiny_font("Tiny"));
    add_font_file(&mut list, b"no font");
    assert_eq!(list, vec![("Tiny".to_string(), ("Tiny".to_string(), false))]);
}

#[test]
fn names_are_sorted_by_their_numbers() {
    let list: Vec<String> =
        ["p10", "P2", "p1", "a"].iter().map(|s| s.to_string()).collect();
    assert_eq!(sort_names(&list), vec!["a", "p1", "P2", "p10"]);
}

#[test]
fn long_numbers_count_by_their_value() {
    let list: Vec<String> = [
        "p99999999999999999999",
        "p100000000000000000000",
        "p1",
        "p018446744073709551616",
        "p18446744073709551615",
        "p00",
    ]
    .iter()
    .map(|s| s.to_string())
    .collect();
    assert_eq!(
        sort_names(&list),
        vec![
            "p00",
            "p1",
            "p18446744073709551615",
            "p018446744073709551616",
            "p99999999999999999999",
            "p100000000000000000000",
        ]
    );
}

#[test]
fn numbers_are_read_and_written() {
    assert_eq!(string(write_decimal(1234567890)), "1234567890");
    assert_eq!(parse_decimal(&chars("255"), 255), Some(255));
    assert_eq!(parse_decimal(&chars("256"), 255), None);
    assert_eq!(parse_decimal(&write_decimal(u64::MAX), u64::MAX), Some(u64::MAX));
}

#[test]
fn text_is_taken_apart() {
    assert_eq!(string(collapse(&chars(" a\u{3000} b\n"))), "a b");
    assert_eq!(string(replace(&chars("aXbX"), &chars("X"), &chars("--"))), "a--b--");
    assert_eq!(trim(&chars("\t a ")), chars("a").as_slice());
    let parts: Vec<String> = split_at(&chars("a,,b"), ',').into_iter().map(string).collect();
    assert_eq!(parts, vec!["a", "", "b"]);
    let lines: Vec<String> = lines_of(&chars("a\r\nb\n\nc")).into_iter().map(string).collect();
    assert_eq!(lines, vec!["a", "b", "", "c"]);
}

#[test]
fn addresses_are_encoded() {
    assert_eq!(percent_encode("a b/中"), "a%20b/%E4%B8%AD");
}

#[test]
fn attributes_are_read() {
    let attrs = attrs_of("item id=\"a\" href='b c'");
    assert_eq!(
        attrs,
        vec![("id".to_string(), "a".to_string()), ("href".to_string(), "b c".to_string())]
    );
}

#[test]
fn texts_are_decoded() {
    assert_eq!(decode_to_utf8("\u{feff}中文".as_bytes()).unwrap(), "中文");
    assert_eq!(decode_to_utf8(&[0xff, 0xfe, 0x2d, 0x4e]).unwrap(), "中");
    assert_eq!(judge_decoding("GBK", Some(("中".to_string(), false))).unwrap(), "中");
    assert!(judge_decoding("GBK", Some(("?".to_string(), true))).is_err());
}

#[test]
fn entries_are_found_by_the_end_of_their_path() {
    let mut zw = zip::ZipWriter::new(Cursor::new(Vec::new()));
    for name in ["OEBPS/Text/C1.xhtml", "OEBPS/img/a.png"] {
        zw.start_file(name, zip::write::SimpleFileOptions::default()).unwrap();
        zw.write_all(name.as_bytes()).unwrap();
    }
    let a = Archive::new(zw.finish().unwrap().into_inner()).unwrap();
    assert_eq!(a.locate_entry_name("OEBPS/img/a.png").as_deref(), Some("OEBPS/img/a.png"));
    assert_eq!(a.locate_entry_name("img/a.png").as_deref(), Some("OEBPS/img/a.png"));
    assert_eq!(a.read_entry_string("oebps/text/c1.xhtml").unwrap(), "OEBPS/Text/C1.xhtml");
    assert!(a.locate_entry_name("none.png").is_none());
    assert!(a.read_entry_bytes("none.png").is_err());
    assert!(Archive::new(b"no archive".to_vec()).is_err());
}
