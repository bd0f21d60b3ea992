use kedu_reader::error::AppError;
use kedu_reader::launch::{book_path_from_args, is_book_path, ASSOCIATED_BOOK_EXTS};
use kedu_reader::parser::detect_format;

fn started_with(args: &[&str]) -> Option<String> {
    let all: Vec<String> = args.iter().map(|a| a.to_string()).collect();
    book_path_from_args(false, &all)
}

#[test]
fn recognizes_associated_extensions() {
    assert!(is_book_path(false, r"C:\书\a.epub"));
    assert!(is_book_path(false, "book.MOBI"));
    assert!(is_book_path(false, "/home/u/book.azw3"));
    assert!(!is_book_path(false, "readme.txt.bak"));
    assert!(!is_book_path(false, r"C:\no-ext"));
    assert!(!is_book_path(false, ""));
}

#[test]
fn extracts_book_path_from_argv() {
    let path = started_with(&[r"C:\App\苛读.exe", r"C:\Users\me\Documents\三体.epub"]);
    assert_eq!(path.as_deref(), Some(r"C:\Users\me\Documents\三体.epub"));

    let path = started_with(&[
        "kedu-reader",
        "--verbose",
        r"D:\books\foo.mobi",
        r"D:\books\bar.epub",
    ]);
    assert_eq!(path.as_deref(), Some(r"D:\books\foo.mobi"));

    assert_eq!(started_with(&["kedu-reader"]), None);
    assert_eq!(started_with(&["kedu-reader", r"C:\temp\note.docx"]), None);
}

#[test]
fn the_program_itself_is_no_book() {
    assert_eq!(started_with(&["a.epub"]), None);
    assert_eq!(started_with(&["a.epub", "", "-b.epub", "/c.epub", "d.txt"]).as_deref(), Some("d.txt"));
    assert_eq!(started_with(&[]), None);
}

#[test]
fn folders_have_no_say() {
    assert!(is_book_path(true, r"C:\b\a.epub"));
    assert!(!is_book_path(true, r"C:\b.epub\a"));
    assert!(is_book_path(true, r"C:\b.doc/a.txt"));
    assert!(!is_book_path(true, r"C:\b\.epub"));
    assert!(!is_book_path(false, "/b.epub/a"));
    assert!(is_book_path(true, "c:a.epub"));
    let args = vec!["kedu-reader".to_string(), r"C:\b.epub\a".to_string()];
    assert_eq!(book_path_from_args(true, &args), None);
}

#[test]
fn what_looks_like_a_book_is_of_a_known_format() {
    let unknown = |path: &str| {
        matches!(detect_format(false, path, b""), Err(AppError::UnsupportedFormat(_)))
    };
    for ext in ASSOCIATED_BOOK_EXTS.split(' ') {
        let path = format!("/b/a.{}", ext.to_uppercase());
        assert!(is_book_path(false, &path), "{path}");
        assert!(!unknown(&path), "{path}");
    }
    for path in ["/b/a.doc", "/b/a", "/b/.epub", "/b/a.epu", "/b/a.epub mobi", ""] {
        assert!(!is_book_path(false, path), "{path}");
        assert!(unknown(path), "{path}");
    }
}
