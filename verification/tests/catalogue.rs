use omaread::catalogue::{
    copying, import, index_book, is_indexed, last_cfi, mark_indexed, mark_missing, row_of,
    save_progress, upsert_book, wants_index, Copying, Record,
};
use omaread::db::BookRow;

fn row(path: &str, cover: Option<Vec<u8>>, managed: bool) -> BookRow {
    BookRow {
        hash: "h1".into(),
        path: path.into(),
        title: "Un libro".into(),
        author: "Alguien".into(),
        cover,
        managed,
        ..Default::default()
    }
}

#[test]
fn progress_round_trips_and_upserts() {
    let mut stored: Option<Record> = None;
    assert_eq!(last_cfi(&stored), None);

    stored = Some(save_progress(stored, "h1", "/a.epub", "A", "epubcfi(/6/4!/4/2)", 250, 10));
    assert_eq!(last_cfi(&stored).as_deref(), Some("epubcfi(/6/4!/4/2)"));

    // Same book, moved and further along.
    stored = Some(save_progress(stored, "h1", "/moved/a.epub", "A", "epubcfi(/6/8!/4/6)", 500, 20));
    assert_eq!(last_cfi(&stored).as_deref(), Some("epubcfi(/6/8!/4/6)"));
    let r = stored.unwrap();
    assert_eq!((r.hash.as_str(), r.path.as_str(), r.opened_at), ("h1", "/moved/a.epub", Some(20)));
}

#[test]
fn describing_a_book_again_keeps_the_place() {
    let first = upsert_book(None, row("/a.epub", Some(vec![1]), false), 5);
    assert_eq!((first.added_at, first.place.as_deref()), (Some(5), None));
    let read = save_progress(Some(first), "h1", "/a.epub", "A", "epubcfi(/6/4!/4/2)", 250, 10);
    let again = upsert_book(Some(read), row("/b.epub", None, true), 30);
    assert_eq!(last_cfi(&Some(again.clone())).as_deref(), Some("epubcfi(/6/4!/4/2)"));
    assert_eq!((again.added_at, again.cover, again.managed), (Some(5), Some(vec![1]), true));
    assert_eq!((again.path.as_str(), again.title.as_str()), ("/b.epub", "Un libro"));
}

#[test]
fn missing_books_keep_ghost_rows() {
    let read = save_progress(None, "h1", "/a.epub", "A", "epubcfi(/6/4!/4/2)", 250, 10);
    assert!(!mark_missing(read.clone(), true).missing);
    let gone = mark_missing(read, false);
    assert!(gone.missing);
    assert_eq!(gone.place.as_deref(), Some("epubcfi(/6/4!/4/2)"));
    assert!(!wants_index(&gone), "there is nothing to read");
    assert!(!upsert_book(Some(gone), row("/a.epub", None, false), 40).missing);
}

#[test]
fn books_are_indexed_once() {
    let r = upsert_book(None, row("/a.epub", None, false), 5);
    assert!(wants_index(&r) && !is_indexed(&Some(r.clone())));
    let r = mark_indexed(r);
    assert!(!wants_index(&r) && is_indexed(&Some(r)));
    assert!(!is_indexed(&None));
}

#[test]
fn chapters_are_indexed_under_their_own_number() {
    let chapters =
        vec![Some("<p>one</p><p>two</p>".to_string()), None, Some("<p> </p>".to_string())];
    let (texts, n) = index_book(&chapters);
    assert_eq!(texts.len(), 2);
    assert_eq!((texts[0].0, texts[0].1.trim()), (0, "one two"));
    assert_eq!(texts[1].0, 2);
    assert_eq!(n, 1, "a blank chapter has nothing to index");
}

#[test]
fn a_book_is_copied_once_and_never_over_another() {
    assert_eq!(copying("/a.epub", "/lib/a.epub", None), Copying::Copy);
    assert_eq!(copying("/a.epub", "/lib/a.epub", Some(true)), Copying::Keep);
    assert_eq!(copying("/a.epub", "/lib/a.epub", Some(false)), Copying::Leave);
    assert_eq!(copying("/lib/a.epub", "/lib/a.epub", None), Copying::Keep);
    assert_eq!(copying("/lib/a.epub", "/lib/a.epub", Some(true)), Copying::Keep);
}

#[test]
fn an_import_opens_the_copy_or_the_original() {
    let (kept, opened) = import(row("/a.epub", None, false), "/lib", Copying::Copy, true);
    assert_eq!(opened, "/lib/Alguien - Un libro.epub");
    assert_eq!((kept.path.as_str(), kept.managed), (opened.as_str(), true));
    let (kept, opened) = import(row("/a.epub", None, false), "/lib", Copying::Keep, false);
    assert_eq!((opened.as_str(), kept.managed), ("/lib/Alguien - Un libro.epub", true));
    let (kept, opened) = import(row("/a.epub", None, false), "/lib", Copying::Copy, false);
    assert_eq!((opened.as_str(), kept.managed), ("/a.epub", false));
    // Another book has the name: the file is opened where it is.
    let (kept, opened) = import(row("/a.epub", None, false), "/lib", Copying::Leave, true);
    assert_eq!((opened.as_str(), kept.path.as_str(), kept.managed), ("/a.epub", "/a.epub", false));
}

#[test]
fn the_shelf_shows_what_is_recorded() {
    let r = upsert_book(None, row("/a.epub", Some(vec![1]), false), 5);
    let new = row_of(r.clone(), vec!["essay".into()]);
    assert_eq!((new.has_cover, new.started, new.progress), (true, false, 0));
    assert_eq!(new.tags, ["essay"]);
    let read = save_progress(Some(r), "h1", "/a.epub", "A", "epubcfi(/6/4!/4/2)", 250, 10);
    let read = row_of(read, vec![]);
    assert_eq!((read.started, read.progress, read.title.as_str()), (true, 250, "A"));
}
