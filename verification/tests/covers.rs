use kedu_reader::commands::covers::{
    book_on_shelf, check_cover_file, cover_candidate, cover_differs, cover_is_outdated,
    cycle_book_cover, get_book_cover_options, load_cover, CandidateCache, CoverChoice,
    CycleDirection, CANDIDATE_CACHE_CAP,
};
use kedu_reader::model::{BookFormat, ShelfBook, ShelfData};
use kedu_reader::parser::covers::{dimensions, step_index, Candidates};

fn png(w: u32, h: u32, salt: u8) -> Vec<u8> {
    let mut b = b"\x89PNG\r\n\x1a\n\0\0\0\rIHDR".to_vec();
    b.extend(w.to_be_bytes());
    b.extend(h.to_be_bytes());
    b.push(salt);
    b
}

fn shelved(id: &str) -> ShelfBook {
    ShelfBook::new_opened(
        id.to_string(),
        "书".to_string(),
        None,
        BookFormat::Epub,
        7,
        "/b.epub".to_string(),
        5,
    )
}

#[test]
fn candidates_deduplicate_filter_and_prefer_portrait() {
    let promo = png(300, 400, 0);
    let flower = png(600, 913, 1);
    let portrait = png(404, 492, 2);
    let mut c = Candidates::default();
    c.push(promo.clone(), true);
    c.push(promo.clone(), false);
    c.push(portrait.clone(), false);
    c.push(flower.clone(), false);
    c.push(png(30, 30, 0), false);
    assert_eq!(c.finish(), vec![promo, flower, portrait]);
}

#[test]
fn stepping_uses_saved_image_and_wraps() {
    let candidates = vec![vec![1], vec![2], vec![3]];
    assert_eq!(step_index(&candidates, Some(&[1]), true).unwrap(), 1);
    assert_eq!(step_index(&candidates, Some(&[2]), true).unwrap(), 2);
    assert_eq!(step_index(&candidates, Some(&[3]), true).unwrap(), 0);
    assert_eq!(step_index(&candidates, Some(&[9]), true).unwrap(), 0);
    assert_eq!(step_index(&candidates, Some(&[9]), false).unwrap(), 2);
    assert_eq!(step_index(&candidates, Some(&[3]), false).unwrap(), 1);
    assert_eq!(step_index(&candidates, Some(&[1]), false).unwrap(), 2);
    assert_eq!(step_index(&[vec![1]], Some(&[1]), true).unwrap(), 0);
    assert_eq!(step_index(&[vec![1]], Some(&[1]), false).unwrap(), 0);
    assert!(step_index(&[], None, true).is_err());
}

#[test]
fn picture_sizes_are_read() {
    assert_eq!(dimensions(&png(600, 913, 0)), Some((600, 913)));
    assert_eq!(dimensions(b"GIF89a\x10\x00\x20\x01"), Some((16, 288)));
    assert_eq!(dimensions(b"no picture"), None);
}

#[test]
fn going_back_undoes_going_on() {
    let list = vec![vec![1], vec![2], vec![3]];
    for i in 0..3 {
        let next = step_index(&list, Some(&list[i]), true).unwrap();
        assert_eq!(step_index(&list, Some(&list[next]), false).unwrap(), i);
    }
}

#[test]
fn cycling_counts_from_one() {
    let list = vec![vec![1], vec![2]];
    let (i, c) = cycle_book_cover(&list, Some(&[1]), None).unwrap();
    assert_eq!(i, 1);
    assert_eq!(c, CoverChoice { index: 2, total: 2 });
    let (i, c) = cycle_book_cover(&list, None, Some(CycleDirection::Prev)).unwrap();
    assert_eq!(i, 1);
    assert_eq!(c, CoverChoice { index: 2, total: 2 });
    assert_eq!(CycleDirection::default(), CycleDirection::Next);
    let e = cycle_book_cover(&vec![], None, None).unwrap_err();
    assert_eq!(e.message(), "本书没有可切换的内置封面图片");
}

#[test]
fn the_chosen_cover_is_shown() {
    let custom = Some(vec![1]);
    let default = Some(vec![2]);
    assert_eq!(load_cover("b", false, custom.clone(), default.clone()).unwrap(), vec![1]);
    assert_eq!(load_cover("b", false, None, default.clone()).unwrap(), vec![2]);
    let e = load_cover("b", true, custom, default).unwrap_err();
    assert_eq!(e.message(), "书籍资源不存在: 封面: b");
    assert!(load_cover("b", false, None, None).is_err());
}

#[test]
fn options_say_what_is_chosen() {
    let book = shelved("b");
    let list = vec![vec![1], vec![2]];
    let o = get_book_cover_options(&book, &list, true, false, &Some(vec![2]));
    assert_eq!(o.selection, "candidate:1");
    assert!(o.custom_is_builtin && o.has_custom && o.has_default);
    assert_eq!(o.candidate_count, 2);
    assert_eq!(o.title, "书");
    assert_eq!(get_book_cover_options(&book, &list, true, false, &Some(vec![9])).selection, "custom");
    assert_eq!(get_book_cover_options(&book, &list, true, false, &None).selection, "default");
    assert_eq!(get_book_cover_options(&book, &list, false, false, &None).selection, "none");
    assert_eq!(get_book_cover_options(&book, &list, true, true, &Some(vec![2])).selection, "none");
}

#[test]
fn only_pictures_become_covers() {
    assert!(check_cover_file(&png(1, 1, 0)).is_ok());
    assert!(check_cover_file(b"GIF89a....").is_ok());
    assert!(check_cover_file(b"RIFF\0\0\0\0WEBP").is_ok());
    let e = check_cover_file(b"RIFF\0\0\0\0WAVE").unwrap_err();
    assert_eq!(e.message(), "请选择 20 MB 以内的 JPG、PNG、GIF 或 WebP 图片");
    let mut big = png(1, 1, 0);
    big.resize(20 * 1024 * 1024 + 1, 0);
    assert!(check_cover_file(&big).is_err());
    big.pop();
    assert!(check_cover_file(&big).is_ok());
}

#[test]
fn a_candidate_is_taken_by_its_place() {
    let list = vec![vec![1], vec![2]];
    assert_eq!(cover_candidate(&list, 1).unwrap(), &vec![2]);
    assert_eq!(cover_candidate(&list, 2).unwrap_err().message(), "封面序号越界");
}

#[test]
fn a_book_must_be_on_the_shelf() {
    let mut shelf = ShelfData { categories: vec![], books: vec![], uncategorized_order: 0 };
    assert_eq!(book_on_shelf(&shelf, "b").unwrap_err().message(), "书籍不在书架中");
    shelf.books.push(shelved("b"));
    assert_eq!(book_on_shelf(&shelf, "b").unwrap().title, "书");
}

#[test]
fn pictures_are_kept_while_the_file_is_the_same() {
    let mut cache = CandidateCache::new();
    cache.put("b", 10, 20, vec![vec![1]]);
    assert_eq!(cache.get("b", 10, 20), Some(&vec![vec![1]]));
    assert!(cache.get("b", 11, 20).is_none());
    assert!(cache.get("b", 10, 21).is_none());
    assert!(cache.get("c", 10, 20).is_none());
    for i in 1..CANDIDATE_CACHE_CAP {
        cache.put(&format!("x{i}"), 1, 1, vec![]);
    }
    assert!(cache.get("b", 10, 20).is_some());
    cache.put("one more", 1, 1, vec![]);
    assert!(cache.get("b", 10, 20).is_none());
    assert!(cache.get("one more", 1, 1).is_some());
}

#[test]
fn covers_are_written_when_they_differ() {
    assert!(cover_differs(&None, &[1]));
    assert!(cover_differs(&Some(vec![1, 2]), &[1]));
    assert!(!cover_differs(&Some(vec![1]), &[1]));
    assert!(cover_is_outdated(BookFormat::Mobi, false));
    assert!(!cover_is_outdated(BookFormat::Azw3, true));
    assert!(!cover_is_outdated(BookFormat::Epub, false));
}

#[test]
fn covers_are_ordered_and_limited() {
    let mut c = Candidates::default();
    let wide = png(900, 400, 0);
    let small = png(200, 300, 1);
    let large = png(400, 600, 2);
    let default = png(10, 10, 3);
    for (bytes, primary) in [(&wide, false), (&small, false), (&default, true), (&large, false)] {
        c.push(bytes.clone(), primary);
    }
    c.push(small.clone(), false);
    c.push(b"no picture".to_vec(), true);
    c.push(png(0, 300, 4), true);
    c.push(png(159, 900, 5), false);
    c.push(png(300, 239, 6), false);
    let mut huge = png(400, 600, 7);
    huge.resize(20 * 1024 * 1024 + 1, 0);
    c.push(huge, true);
    assert_eq!(c.finish(), vec![default, large, small, wide]);

    let mut many = Candidates::default();
    for i in 0..40u8 {
        many.push(png(160 + i as u32, 240, i), false);
    }
    let kept = many.finish();
    assert_eq!(kept.len(), 32);
    assert_eq!(kept[0], png(192, 240, 32));
    assert_eq!(kept[1], png(191, 240, 31));
}
