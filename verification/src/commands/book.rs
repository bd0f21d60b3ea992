//! Opening books, and putting them on the shelf.
use vstd::prelude::*;
use crate::commands::shelf::{on_shelf, shelved, with_opened};
use crate::commands::summary::find_book;
use crate::error::{joined, AppError, AppResult, Failure};
use crate::model::{newly_shelved, BookFormat, BookMeta, Meta, ShelfBook, ShelfData};
use crate::parser::session::BookSession;
use crate::parser::{
    detect_format, detected, file_id, make_book_id, path_title, title_from_path, BookFile, FileView,
};
use crate::text::{
    chars_of, contains, ends, ends_with, find_from, find_from_is_first, lower_ascii, occurs, stands_at,
    to_lower_ascii,
};
use crate::views::deep_push;

verus! {

/// An identifier can name a directory: it leads nowhere else.
pub open spec fn safe_id(id: Seq<char>) -> bool {
    !occurs(id, "/"@) && !occurs(id, "\\"@) && !occurs(id, ".."@)
}

/// Whether an identifier can name a directory.
pub fn check_book_id(book_id: &str) -> (r: AppResult<()>)
    ensures
        match r {
            Ok(_) => safe_id(book_id@),
            Err(e) => !safe_id(book_id@) && e@ == Failure::Storage("非法的书籍 id: "@ + book_id@),
        },
{
    let id = chars_of(book_id);
    if contains(&id, &chars_of("/")) || contains(&id, &chars_of("\\")) || contains(
        &id,
        &chars_of(".."),
    ) {
        Err(AppError::Storage(joined("非法的书籍 id: ", book_id)))
    } else {
        Ok(())
    }
}

/// What is known of a PDF file: its name and its size.
pub open spec fn pdf_known(file: FileView, head: Seq<u8>) -> Result<Meta, Failure> {
    match detected(file.windows, file.path, head) {
        Err(e) => Err(e),
        Ok(f) => if f == BookFormat::Pdf {
            Ok(
                Meta {
                    id: file_id(file),
                    title: path_title(file.windows, file.path),
                    author: None,
                    publisher: None,
                    language: None,
                    format: BookFormat::Pdf,
                    file_size: file.size,
                    file_path: file.path,
                    total_chapters: 0,
                    cover_resource: None,
                },
            )
        } else {
            Err(Failure::Other("文件不是有效的 PDF"@))
        },
    }
}

/// What is known of a PDF file.
pub fn pdf_meta(file: &BookFile, head: &[u8]) -> (r: AppResult<BookMeta>)
    ensures
        match r {
            Ok(m) => pdf_known(file.deep_view(), head@) == Ok::<Meta, Failure>(m.deep_view()),
            Err(e) => pdf_known(file.deep_view(), head@) == Err::<Meta, Failure>(e@),
        },
{
    let format = match detect_format(file.windows, &file.path, head) {
        Ok(f) => f,
        Err(e) => {
            return Err(e);
        },
    };
    if format != BookFormat::Pdf {
        return Err(AppError::other("文件不是有效的 PDF"));
    }
    Ok(
        BookMeta {
            id: make_book_id(&file.canonical, file.size),
            title: title_from_path(file.windows, &file.path),
            author: None,
            publisher: None,
            language: None,
            format: BookFormat::Pdf,
            file_size: file.size,
            file_path: file.path.clone(),
            total_chapters: 0,
            cover_resource: None,
        },
    )
}

/// Whether a path is that of a PDF file, by its end.
pub fn is_pdf_path(path: &str) -> (r: bool)
    ensures
        r == ends(lower_ascii(path@), ".pdf"@),
{
    ends_with(&to_lower_ascii(&chars_of(path)), &chars_of(".pdf"))
}

/// Puts a PDF file on the shelf, unless it is there.
pub fn ensure_in_shelf(
    shelf: &mut ShelfData,
    book_id: &str,
    title: &str,
    file_path: &str,
    file_size: u64,
    now: i64,
)
    ensures
        final(shelf).deep_view() == with_opened(
            old(shelf).deep_view(),
            newly_shelved(
                book_id@,
                title@,
                None,
                BookFormat::Pdf,
                file_size,
                file_path@,
                now,
            ),
        ),
{
    if shelf.has_book(book_id) {
        return;
    }
    let book = ShelfBook::new_opened(
        book_id.to_owned(),
        title.to_owned(),
        None,
        BookFormat::Pdf,
        file_size,
        file_path.to_owned(),
        now,
    );
    let ghost before = shelf.books;
    shelf.books.push(book);
    proof {
        deep_push(before, book, shelf.books);
    }
}

/// Puts a book on the shelf, unless it is there; what is there then.
pub fn add_book_to_shelf(shelf: &mut ShelfData, meta: &BookMeta, now: i64) -> (r: ShelfBook)
    ensures
        final(shelf).deep_view() == with_opened(
            old(shelf).deep_view(),
            newly_shelved(
                meta.id@,
                meta.title@,
                meta.author.deep_view(),
                meta.format,
                meta.file_size,
                meta.file_path@,
                now,
            ),
        ),
        on_shelf(final(shelf).deep_view(), meta.id@),
        r.deep_view() == shelved(final(shelf).deep_view(), meta.id@),
{
    shelf.auto_add_opened_book(meta, now);
    proof {
        crate::commands::shelf::opening_puts_on_the_shelf(
            old(shelf).deep_view(),
            newly_shelved(
                meta.id@,
                meta.title@,
                meta.author.deep_view(),
                meta.format,
                meta.file_size,
                meta.file_path@,
                now,
            ),
        );
    }
    let i = find_book(&shelf.books, &meta.id).unwrap();
    assert(shelf.books.deep_view()[i as int] == shelf.books@[i as int].deep_view());
    shelf.books[i].clone()
}

/// The cover that a book has of its own, where it has one that can be read.
pub open spec fn own_cover<S: BookSession>(book: S, resource: Option<Seq<char>>) -> Option<
    Seq<u8>,
> {
    match resource {
        Some(path) => match book.resource_at(path) {
            Ok((_, bytes)) => Some(bytes),
            Err(_) => None,
        },
        None => None,
    }
}

/// The cover that a book has of its own.
pub fn cover_of_book<S: BookSession>(book: &S, meta: &BookMeta) -> (r: Option<Vec<u8>>)
    requires
        book.ready(),
    ensures
        own_cover(*book, meta.deep_view().cover_resource) == match r {
            Some(b) => Some(b@),
            None => None,
        },
{
    match &meta.cover_resource {
        Some(path) => match book.load_resource_bytes(path) {
            Ok((_, bytes)) => Some(bytes),
            Err(_) => None,
        },
        None => None,
    }
}


/// An identifier is refused if and only if it could lead elsewhere: by a slash of either kind, or by two dots
/// in a row.
#[verifier::rlimit(40)]
pub proof fn an_identifier_leads_nowhere_else(id: Seq<char>)
    ensures
        safe_id(id) <==> {
            &&& forall|i: int| 0 <= i < id.len() ==> #[trigger] id[i] != '/' && id[i] != '\\'
            &&& forall|i: int, j: int|
                #![trigger id[i], id[j]]
                0 <= i && j == i + 1 && j < id.len() ==> id[i] != '.' || id[j] != '.'
        },
{
    reveal_strlit("/");
    reveal_strlit("\\");
    reveal_strlit("..");
    find_from_is_first(id, "/"@, 0);
    find_from_is_first(id, "\\"@, 0);
    find_from_is_first(id, ".."@, 0);
    assert forall|i: int| 0 <= i < id.len() implies (stands_at(id, i, "/"@) <==> #[trigger] id[i] == '/') && (
    stands_at(id, i, "\\"@) <==> id[i] == '\\') by {
        assert(id.subrange(i, i + 1)[0] == id[i]);
        if id[i] == '/' {
            assert(id.subrange(i, i + 1) =~= "/"@);
        }
        if id[i] == '\\' {
            assert(id.subrange(i, i + 1) =~= "\\"@);
        }
    }
    assert forall|i: int, j: int|
        #![trigger id[i], id[j]]
        0 <= i && j == i + 1 && j < id.len() implies (stands_at(id, i, ".."@) <==> id[i] == '.' && id[j]
        == '.') by {
        let sub = id.subrange(i, i + 2);
        assert(sub[0] == id[i] && sub[1] == id[j]);
        if id[i] == '.' && id[j] == '.' {
            assert(sub =~= ".."@);
        }
    }
    let one = forall|i: int| 0 <= i < id.len() ==> #[trigger] id[i] != '/' && id[i] != '\\';
    let two = forall|i: int, j: int|
        #![trigger id[i], id[j]]
        0 <= i && j == i + 1 && j < id.len() ==> id[i] != '.' || id[j] != '.';
    if safe_id(id) {
        assert forall|i: int| 0 <= i < id.len() implies #[trigger] id[i] != '/' && id[i] != '\\' by {
            assert(!stands_at(id, i, "/"@));
            assert(!stands_at(id, i, "\\"@));
        }
        assert forall|i: int, j: int|
            #![trigger id[i], id[j]]
            0 <= i && j == i + 1 && j < id.len() implies id[i] != '.' || id[j] != '.' by {
            assert(!stands_at(id, i, ".."@));
        }
        assert(one && two);
    } else if occurs(id, "/"@) {
        let k = find_from(id, "/"@, 0).unwrap();
        assert(stands_at(id, k, "/"@));
        assert(id[k] == '/');
    } else if occurs(id, "\\"@) {
        let k = find_from(id, "\\"@, 0).unwrap();
        assert(stands_at(id, k, "\\"@));
        assert(id[k] == '\\');
    } else {
        let k = find_from(id, ".."@, 0).unwrap();
        assert(stands_at(id, k, ".."@));
        let sub = id.subrange(k, k + 2);
        assert(sub[0] == id[k] && sub[1] == id[k + 1]);
        assert(!two);
    }
}

} // verus!
