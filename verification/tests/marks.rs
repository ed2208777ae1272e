use omaread::book::{Book, BookError, TocEntry};
use omaread::db::Hit;
use omaread::dom::{Dom, Element, Inline, LineBox, Node};
use omaread::marks::{
    bookmark, bookmark_at, completing_tag, contents_start, fold_tag, highlight, hit_entry, mark_at,
    mark_entry, plural, reading_order, tag_suggestion, toc_entries, toggle_tag, Mark,
};
use omaread::paginate::Pages;
use omaread::paint::Area;
use omaread::places::{
    entry_page, falls_back, is_external, page_of_fragment, page_of_position, page_of_text, read_toc,
    resolve_href, start_chapter, NavPoint,
};
use omaread::readout::{
    book_page, here_label, measured, percent, readout, subtitle, TocMode,
};

fn mark(cfi: &str, length: usize, text: &str, note: &str) -> Mark {
    Mark { id: 1, cfi: cfi.into(), length, text: text.into(), note: note.into() }
}

fn entry(label: &str, spine: usize) -> TocEntry {
    TocEntry { label: label.into(), depth: 0, spine, fragment: None, find: None, cfi: None }
}

#[test]
fn a_bookmark_is_a_highlight_with_no_span() {
    assert!(Mark::default().is_bookmark());
    assert!(!mark("", 3, "", "").is_bookmark());
}

#[test]
fn marks_say_their_words_or_their_chapter() {
    let c = "epubcfi(/6/8!/4/2)";
    assert_eq!(mark_entry(&mark(c, 0, "", "")).label, "Bookmark · chapter 4");
    assert_eq!(mark_entry(&mark(c, 0, "", "why")).label, "Bookmark · why");
    assert_eq!(mark_entry(&mark(c, 5, "words", "")).label, "Highlight · words");
    let e = mark_entry(&mark(c, 5, "words", "why"));
    assert_eq!(e.label, "Highlight · words — why");
    assert_eq!((e.spine, e.cfi.as_deref()), (3, Some(c)));
    assert_eq!(mark_entry(&mark("junk", 0, "", "")).spine, 0);
}

#[test]
fn marks_are_listed_in_reading_order() {
    let marks = vec![
        mark("epubcfi(/6/20!/4:5)", 1, "", ""),
        mark("epubcfi(/6/4!/4:30)", 1, "", ""),
        mark("epubcfi(/6/4!/4:7)", 1, "", ""),
    ];
    let at: Vec<usize> = reading_order(&marks).iter().map(|p| p.at).collect();
    assert_eq!(at, [2, 1, 0]);
}

#[test]
fn hits_are_named_after_their_chapter() {
    let toc = [entry("One", 0), entry("Two", 4)];
    let hit = |spine| Hit { spine, snippet: "…words…".into() };
    assert_eq!(hit_entry(&toc, &hit(3), "w").label, "One · …words…");
    assert_eq!(hit_entry(&toc, &hit(9), "w").label, "Two · …words…");
    let e = hit_entry(&toc[1..], &hit(2), "w");
    assert_eq!(e.label, "Chapter 3 · …words…");
    assert_eq!(e.find.as_deref(), Some("w"));
    assert_eq!(contents_start(&toc, 3), 0);
    assert_eq!(contents_start(&toc, 4), 1);
    assert_eq!(contents_start(&[], 4), 0);
}

#[test]
fn one_tag_however_it_is_typed() {
    for typed in ["Sci Fi", "sci-fi", "SCI-FI", "#sci fi", "  Sci   Fi "] {
        assert_eq!(fold_tag(typed), "sci-fi", "{typed}");
    }
    assert_eq!(fold_tag("Canción"), "cancion");
}

#[test]
fn the_box_completes_a_tag_or_a_query() {
    assert_eq!(completing_tag(Some("sc"), "x").as_deref(), Some("sc"));
    assert_eq!(completing_tag(None, " #sc").as_deref(), Some("sc"));
    assert_eq!(completing_tag(None, "sc"), None);
    assert_eq!(tag_suggestion("scifi", 1), ("#scifi".to_string(), "1 book".to_string()));
    assert_eq!(tag_suggestion("scifi", 2).1, "2 books");
    assert_eq!(plural(0), "s");
}

/// A document of two paragraphs in a body, the second on a second page.
fn two_paragraphs() -> (Dom, Pages) {
    let node = |parent, tag: &str, id: &str, y, height, inline| Node {
        parent,
        element: Some(Element {
            tag: tag.into(),
            attrs: vec![("id".into(), id.into())],
            inline,
        }),
        x: 0,
        y,
        width: 500_000,
        height,
        inset_x: 0,
        inset_y: 0,
    };
    let text = |s: &str| {
        Some(Inline { text: s.into(), lines: vec![LineBox { top: 0, bottom: 30_000, start: 0 }] })
    };
    let dom = Dom::new(vec![
        node(None, "html", "r", 0, 1_000_000, None),
        node(Some(0), "body", "b", 0, 1_000_000, None),
        node(Some(1), "p", "one", 0, 30_000, text("Añadir texto")),
        node(Some(1), "p", "two", 900_000, 30_000, text("La resonancia")),
    ])
    .unwrap();
    let pages =
        Pages { tops: vec![0, 800_000], page_height: 900_000, content_height: 1_000_000 };
    (dom, pages)
}

#[test]
fn a_selection_is_kept_as_characters() {
    let (dom, _) = two_paragraphs();
    let m = highlight(&dom, 2, 3, 7, 6).expect("a highlight");
    assert_eq!((m.cfi.as_str(), m.length, m.text.as_str()), ("epubcfi(/6/14!/2/2:2)", 4, "adir"));
    assert!(highlight(&dom, 2, 2, 7, 6).is_none(), "inside a character");
    assert!(highlight(&dom, 1, 0, 0, 6).is_none(), "no text there");
}

#[test]
fn text_is_counted_in_characters() {
    let (dom, _) = two_paragraphs();
    assert_eq!((dom.text_len(), dom.line_count()), (25, 2));
}

#[test]
fn a_bookmark_anchors_the_page() {
    let (dom, pages) = two_paragraphs();
    let m = bookmark(&dom, &pages, 1, 0).expect("a bookmark");
    assert_eq!((m.cfi.as_str(), m.length), ("epubcfi(/6/2!/2/4)", 0));
    assert_eq!(page_of_position(&dom, &pages, &m.cfi), Some(1));
}

#[test]
fn entries_lead_to_their_page() {
    let (dom, pages) = two_paragraphs();
    assert_eq!(page_of_fragment(&dom, &pages, "two"), Some(1));
    assert_eq!(page_of_fragment(&dom, &pages, "no"), None);
    assert_eq!(page_of_text(&dom, &pages, "RESONANCIA"), Some(1));
    assert_eq!(page_of_position(&dom, &pages, "epubcfi(/6/2!/2/2)"), Some(0));
    assert_eq!(page_of_position(&dom, &pages, "epubcfi(/6/2!/2/8)"), None);

    let mut e = entry("x", 0);
    assert_eq!(entry_page(&dom, &pages, &e, 0), 0);
    e.fragment = Some("two".into());
    assert_eq!(entry_page(&dom, &pages, &e, 0), 1);
    e.fragment = Some("dangling".into());
    assert_eq!(entry_page(&dom, &pages, &e, 1), 1, "the chapter is still the right place");
    e.find = Some("anadir".into());
    assert_eq!(entry_page(&dom, &pages, &e, 1), 0);
}

#[test]
fn a_press_finds_the_highlight_under_it() {
    let area = |x0, y0, x1, y1| Area { x0, y0, x1, y1 };
    let painted = vec![(7, vec![area(0, 0, 10, 10)]), (8, vec![area(5, 5, 20, 20)])];
    assert_eq!(mark_at(&painted, 6, 6), Some(7));
    assert_eq!(mark_at(&painted, 15, 15), Some(8));
    assert_eq!(mark_at(&painted, 30, 0), None);
}

fn book() -> Book {
    let spine = ["/OEBPS/ch01.html", "/OEBPS/ch02.html", "/OEBPS/notes.html"];
    let mut b = Book::new(
        Some("T".into()),
        None,
        spine.iter().map(|s| s.to_string()).collect(),
    )
    .unwrap();
    b.weights = vec![100, 300, 600];
    b
}

#[test]
fn links_resolve_against_their_chapter() {
    let b = book();
    assert_eq!(resolve_href(&b, 1, "#n1"), Some((1, Some("n1".into()))));
    assert_eq!(resolve_href(&b, 1, "notes.html#n2"), Some((2, Some("n2".into()))));
    assert_eq!(resolve_href(&b, 1, "../OEBPS/ch01.html"), Some((0, None)));
    assert_eq!(resolve_href(&b, 1, "missing.html"), None);
    assert_eq!(resolve_href(&b, 1, "../../etc/passwd"), None);
    assert!(is_external("https://example.org"));
    assert!(is_external("mailto:me@example.org"));
    assert!(!is_external("notes.html"));
}

#[test]
fn dead_contents_lines_are_dropped() {
    let b = book();
    let nav = |href: &str| NavPoint { label: href.into(), depth: 1, href: href.into() };
    let toc = read_toc(&b.spine, &vec![nav("/OEBPS/ch02.html#s1"), nav("/gone.html")]);
    assert_eq!(toc.len(), 1);
    assert_eq!((toc[0].spine, toc[0].fragment.as_deref(), toc[0].depth), (1, Some("s1"), 1));
    assert!(!falls_back(&b.spine, &vec![nav("/OEBPS/ch02.html")]));

    let none = vec![nav("/gone.html")];
    assert!(falls_back(&b.spine, &none));
    let toc = read_toc(&b.spine, &none);
    assert_eq!(toc.len(), 3, "a book without navigation lists its spine");
    assert_eq!((toc[2].label.as_str(), toc[2].spine), ("Chapter 3", 2));
}

#[test]
fn a_book_opens_where_it_was_left() {
    assert_eq!(start_chapter(Some(2), 3, 0), 2);
    assert_eq!(start_chapter(Some(3), 3, 1), 1, "the chapter is gone");
    assert_eq!(start_chapter(None, 3, 1), 1);
}

#[test]
fn books_without_a_spine_do_not_open() {
    assert!(matches!(Book::new(None, None, vec![]), Err(BookError::EmptySpine)));
    let b = book();
    assert_eq!(b.chapter_count(), 3);
    assert!(matches!(b.spine_item(3), Err(BookError::NoSpineItem(3))));
}

#[test]
fn progress_is_weighted_by_length() {
    let b = book();
    assert_eq!(b.progress(0, 0, 400), 0);
    assert_eq!(b.progress(1, 200, 400), 250);
    assert_eq!(b.progress(2, 400, 400), 1000);
    assert_eq!((b.progress(1, 0, 0), b.progress(9, 1, 2)), (b.progress(1, 0, 7), 0));
    // The place is rounded once: 0.50508 of the book.
    let mut long = book();
    long.weights = vec![997, 3];
    assert_eq!((long.progress(0, 5066, 10_000), long.percent(0, 5066, 10_000)), (505, 51));
    assert_eq!((long.percent(0, 0, 10_000), long.percent(1, 10_000, 10_000)), (0, 100));
    long.weights = vec![u64::MAX / 2, u64::MAX / 2];
    assert_eq!(long.percent(1, i64::MAX / 2, i64::MAX), 75);
    assert_eq!(percent(345), 35);
    assert_eq!(percent(344), 34);
    assert_eq!(percent(1000), 100);
}

#[test]
fn page_numbers_run_through_the_book() {
    let counts = [3, 0, 5];
    assert_eq!(book_page(&counts, 0, 2), (3, 8));
    assert_eq!(book_page(&counts, 2, 0), (4, 8));
    assert_eq!(book_page(&counts, 2, 99), (8, 8));
    assert_eq!(book_page(&[], 0, 0), (1, 1));
}

#[test]
fn the_readout_speaks_of_the_whole_book() {
    assert_eq!(readout(true, Some((27, 336)), 8), "page 27 of 336");
    assert_eq!(readout(false, Some((27, 336)), 8), "8%");
    assert_eq!(readout(true, None, 8), "8%");
    assert_eq!(here_label(Some(7), 8), "Back to page 7");
    assert_eq!(here_label(None, 8), "Back to 8%");
}

#[test]
fn lists_say_what_they_list() {
    assert_eq!(TocMode::Marks.heading(), "Marks");
    assert_eq!(subtitle(TocMode::Contents, "Un libro", "", None, 3), "Un libro");
    assert_eq!(subtitle(TocMode::Search, "", "reso", None, 1), "“reso” — 1 hit in this book");
    assert_eq!(subtitle(TocMode::Marks, "", "", None, 2), "2 bookmarks and highlights");
    assert_eq!(subtitle(TocMode::Marks, "", "", Some("why"), 2), "note: why|");
}

#[test]
fn typing_a_tag_again_takes_it_off() {
    let none: Vec<String> = vec!["essay".into()];
    let (on, has) = toggle_tag(&none, "Sci Fi");
    assert!(has);
    assert_eq!(on, ["essay", "sci-fi"]);
    let (off, has) = toggle_tag(&on, "#SCI-FI");
    assert!(!has);
    assert_eq!(off, ["essay"]);
    assert_eq!(toggle_tag(&off, "  ").0, ["essay"]);
}

#[test]
fn a_position_has_one_bookmark() {
    let c = "epubcfi(/6/8!/4/2)";
    let marks = vec![mark(c, 5, "words", ""), Mark { id: 9, ..mark(c, 0, "", "") }];
    assert_eq!(bookmark_at(&marks, c), Some(9), "a highlight there is not a bookmark");
    assert_eq!(bookmark_at(&marks, "epubcfi(/6/8!/4/4)"), None);
}

#[test]
fn a_list_is_contents_marks_or_hits() {
    let toc = [entry("One", 0), entry("Two", 4)];
    let marks = [mark("epubcfi(/6/8!/4/2)", 0, "", "")];
    let hits = [Hit { spine: 3, snippet: "…words…".into() }];
    let labels = |mode| -> Vec<String> {
        toc_entries(mode, &toc, &marks, &hits, "w").into_iter().map(|e| e.label).collect()
    };
    assert_eq!(labels(TocMode::Contents), ["One", "Two"]);
    assert_eq!(labels(TocMode::Marks), ["Bookmark · chapter 4"]);
    assert_eq!(labels(TocMode::Search), ["One · …words…"]);
}

#[test]
fn counts_hold_for_one_layout() {
    assert_eq!(measured("20x900", "20x900", &[3, 5], 1, 0), Some((4, 8)));
    assert_eq!(measured("20x900", "24x900", &[3, 5], 1, 0), None);
}
