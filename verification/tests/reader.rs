use omaread::db::Sort;
use omaread::events::{add_folder, drop_folder, menu_choice, Build, Hover};
use omaread::marks::Mark;
use omaread::reader::{Action, Key, Link, MenuChoice, Pane, Press, Reader, Surface, Wake};
use omaread::readout::TocMode;
use omaread::screen::{HUD_LINGER, SLIDE};
use omaread::style::{ReadingStyle, Theme};

fn surface() -> Surface {
    Surface { pages: 10, chapter_pages: 10, columns: 1, cards: 4, covering: 2, now: 1000 }
}

fn text(s: &str) -> Key {
    Key::Text(s.to_string())
}

fn shelf() -> Reader {
    let mut r = Reader::new(ReadingStyle::default(), 0, None);
    r.rows_loaded(9);
    r
}

fn reading() -> Reader {
    let mut r = shelf();
    r.book_opened(3, 1);
    r.chapter_loaded(1, 10, false);
    r
}

#[test]
fn typing_on_the_shelf_searches() {
    let mut r = shelf();
    let s = surface();
    assert_eq!(
        r.on_key(&text("q"), &s, &[]),
        [Action::ReloadRows, Action::DropLibrary, Action::Redraw]
    );
    r.on_key(&Key::Space, &s, &[]);
    r.on_key(&text("é"), &s, &[]);
    assert_eq!(r.query, "q é");
    r.on_key(&Key::Backspace, &s, &[]);
    assert_eq!(r.query, "q ");
    assert!(!r.on_key(&Key::Escape, &s, &[]).contains(&Action::Exit));
    assert_eq!(r.query, "");
    assert!(r.on_key(&Key::Escape, &s, &[]).contains(&Action::Exit));
}

#[test]
fn a_space_pages_the_shelf_while_nothing_is_typed() {
    let mut r = shelf();
    r.on_key(&Key::Space, &surface(), &[]);
    assert_eq!(r.page, 1);
    r.on_key(&Key::PageUp, &surface(), &[]);
    r.on_key(&Key::PageUp, &surface(), &[]);
    assert_eq!(r.page, 0);
    r.page = 9;
    r.on_key(&Key::PageDown, &surface(), &[]);
    assert_eq!(r.page, 9, "the last page is the last");
}

#[test]
fn the_selection_never_leaves_the_shelf() {
    let mut r = shelf();
    let s = surface();
    assert_eq!(r.on_key(&Key::Down, &s, &[]), [Action::FollowSelection, Action::Redraw]);
    assert_eq!(r.selected, 4);
    r.on_key(&Key::Down, &s, &[]);
    r.on_key(&Key::Down, &s, &[]);
    assert_eq!(r.selected, 8);
    r.on_key(&Key::Left, &s, &[]);
    r.on_key(&Key::Up, &s, &[]);
    r.on_key(&Key::Up, &s, &[]);
    assert_eq!(r.selected, 0);
    r.selected = 8;
    r.rows_loaded(3);
    assert_eq!(r.selected, 2);
    r.rows_loaded(0);
    assert_eq!(r.selected, 0);
    assert_eq!(r.on_key(&Key::Right, &s, &[]), []);
}

#[test]
fn tab_changes_the_order_and_enter_opens() {
    let mut r = shelf();
    r.on_key(&Key::Tab, &surface(), &[]);
    assert_eq!(r.sort, Sort::Title);
    assert_eq!(r.on_key(&Key::Enter, &surface(), &[]), [Action::OpenSelected]);
    assert_eq!(
        r.on_key(&Key::F5, &surface(), &[]),
        [Action::Rescan, Action::DropLibrary, Action::Redraw]
    );
}

#[test]
fn a_tag_is_typed_into_the_box() {
    let mut r = shelf();
    let s = surface();
    r.on_key(&Key::F2, &s, &[]);
    for k in [text("S"), text("ci"), Key::Space, text("fi"), text("x"), Key::Backspace] {
        r.on_key(&k, &s, &[]);
    }
    assert_eq!(r.tagging.as_deref(), Some("Sci-fi"));
    assert_eq!(
        r.on_key(&Key::Enter, &s, &[]),
        [Action::ApplyTag, Action::Complete, Action::DropLibrary, Action::Redraw]
    );
    assert_eq!(r.take_tag().as_deref(), Some("Sci-fi"));
    assert_eq!(r.take_tag(), None);

    let mut empty = Reader::new(ReadingStyle::default(), 0, None);
    assert_eq!(empty.on_key(&Key::F2, &s, &[]), [], "nothing to tag");
}

#[test]
fn the_panel_takes_every_key() {
    let mut r = shelf();
    let s = surface();
    assert_eq!(r.on_click(&Press::Gear), [Action::OpenMenu]);
    assert_eq!(r.on_key(&text("x"), &s, &[]), []);
    assert_eq!(r.query, "");
    r.menu_action(&Some(MenuChoice::Add));
    r.on_key(&text("/b"), &s, &[]);
    assert_eq!(r.on_key(&Key::Enter, &s, &[]), [Action::AddFolder]);
    assert_eq!(r.take_folder().as_deref(), Some("/b"));
    assert_eq!(r.on_key(&Key::Escape, &s, &[]), [Action::Redraw]);
    assert!(!r.menu);
    assert_eq!(r.menu_action(&None), None, "no panel, no press");
}

#[test]
fn a_press_in_the_panel_chooses() {
    assert!(matches!(menu_choice("theme:grey"), MenuChoice::Theme(Theme::Grey)));
    assert!(matches!(menu_choice("theme:other"), MenuChoice::Theme(Theme::Sepia)));
    assert!(matches!(menu_choice("drop:/a:b"), MenuChoice::Drop(p) if p == "/a:b"));
    assert!(matches!(menu_choice("add"), MenuChoice::Add));
    assert!(matches!(menu_choice("nothing"), MenuChoice::Other));

    let mut r = shelf();
    r.menu = true;
    r.menu_action(&Some(MenuChoice::Theme(Theme::Night)));
    assert_eq!(r.style.theme, Theme::Night);
    assert_eq!(r.menu_action(&None), Some(vec![Action::Redraw]));
}

#[test]
fn folders_are_added_once_and_dropped() {
    let dirs = vec!["/a".to_string(), "/b".to_string()];
    assert_eq!(add_folder(&dirs, "/c"), ["/a", "/b", "/c"]);
    assert_eq!(add_folder(&dirs, "/b"), ["/a", "/b"]);
    assert_eq!(drop_folder(&dirs, "/a"), ["/b"]);
    assert_eq!(drop_folder(&dirs, "/z"), ["/a", "/b"]);
}

#[test]
fn turning_crosses_chapters_and_stops_at_the_ends() {
    let mut r = reading();
    let s = surface();
    assert_eq!(r.on_key(&Key::Right, &s, &[]), [Action::SaveHere, Action::Redraw]);
    assert_eq!(r.page, 1);
    assert_eq!(r.slide.map(|s| (s.from, s.forward, s.at)), Some((0, true, 1000)));
    r.on_key(&Key::Left, &s, &[]);
    assert_eq!(r.page, 0, "back where it was");
    assert_eq!(
        r.on_key(&Key::PageUp, &s, &[])[0],
        Action::Load { index: 0, backwards: true }
    );
    r.chapter_loaded(0, 5, true);
    assert_eq!((r.index, r.page), (0, 4), "backwards opens on the last page");

    r.chapter_loaded(2, 10, true);
    assert_eq!(r.on_key(&Key::Space, &s, &[]), [], "the end of the book");
    r.chapter_loaded(0, 10, false);
    assert_eq!(r.on_key(&Key::Left, &s, &[]), [], "and its start");
}

#[test]
fn two_columns_turn_two_pages() {
    let mut r = reading();
    let s = Surface { columns: 2, ..surface() };
    r.on_key(&Key::Right, &s, &[]);
    assert_eq!(r.page, 2);
    r.page = 9;
    assert_eq!(r.on_key(&Key::Right, &s, &[])[0], Action::Load { index: 2, backwards: false });
}

#[test]
fn chapters_turn_too() {
    let mut r = reading();
    let s = surface();
    assert_eq!(
        r.on_key(&Key::Down, &s, &[]),
        [Action::Load { index: 2, backwards: false }, Action::Redraw]
    );
    assert_eq!(
        r.on_key(&Key::Up, &s, &[]),
        [Action::Load { index: 0, backwards: false }, Action::Redraw]
    );
    assert_eq!(r.chapter_failed(1), Some(2));
    assert_eq!(r.chapter_failed(2), None, "none is left to try");
}

#[test]
fn letters_are_commands_while_reading() {
    let mut r = reading();
    let s = surface();
    assert_eq!(r.on_key(&text("b"), &s, &[]), [Action::ToggleBookmark]);
    assert_eq!(r.on_key(&text("h"), &s, &[]), [Action::Highlight]);
    assert_eq!(r.on_key(&text("y"), &s, &[]), [Action::CopySelection]);
    assert_eq!(r.on_key(&text("q"), &s, &[]), [Action::SaveHere, Action::Exit]);
    assert_eq!(r.on_key(&text("t"), &s, &[]), [Action::SaveTheme, Action::Restyle]);
    assert_eq!(r.style.theme, Theme::Grey);
    assert_eq!(r.on_key(&text("?"), &s, &[]), []);
}

#[test]
fn the_letter_size_has_bounds() {
    let mut r = reading();
    let s = surface();
    for _ in 0..9 {
        r.on_key(&text("+"), &s, &[]);
    }
    assert_eq!(r.style.scale, 1600);
    assert_eq!(r.on_key(&text("="), &s, &[]), []);
    assert_eq!(r.on_key(&text("-"), &s, &[]), [Action::SaveScale, Action::Restyle]);
    assert_eq!(r.style.scale, 1500);
    for _ in 0..9 {
        r.hud_action("smaller", &s);
    }
    assert_eq!(r.style.scale, 800);
}

#[test]
fn columns_toggle_and_measure_when_pages_are_shown() {
    let mut r = reading();
    let s = surface();
    assert_eq!(r.on_key(&text("c"), &s, &[]), [Action::Relayout, Action::Redraw]);
    assert_eq!(r.columns, 2);
    assert_eq!(
        r.hud_action("readout", &s),
        Some(vec![Action::MeasureBook, Action::DropHud, Action::Redraw])
    );
    assert!(r.show_page);
    assert_eq!(
        r.on_key(&text("c"), &s, &[]),
        [Action::Relayout, Action::MeasureBook, Action::Redraw]
    );
    assert_eq!(r.columns, 1);
}

#[test]
fn the_contents_open_where_the_reader_is_and_close_again() {
    let mut r = reading();
    let s = surface();
    r.page = 7;
    assert_eq!(
        r.on_key(&Key::Tab, &s, &[]),
        [Action::BuildToc, Action::FollowToc, Action::Redraw]
    );
    assert_eq!((r.pane, r.toc_sel, r.page), (Pane::Toc, 2, 0));
    r.list_built(5);
    r.on_key(&Key::Down, &s, &[]);
    assert_eq!(r.toc_sel, 3);
    r.on_key(&Key::End, &s, &[]);
    assert_eq!(r.toc_sel, 4);
    r.on_key(&Key::Home, &s, &[]);
    assert_eq!(r.toc_sel, 0);
    assert_eq!(r.on_key(&Key::Enter, &s, &[]), [Action::OpenEntry(0)]);
    r.on_key(&Key::Escape, &s, &[]);
    assert_eq!((r.pane, r.page), (Pane::Reading, 7));
}

#[test]
fn a_search_in_the_book_types_every_letter() {
    let mut r = reading();
    let s = surface();
    r.on_key(&text("/"), &s, &[]);
    assert_eq!((r.mode, r.toc_sel), (TocMode::Search, 0));
    r.on_key(&text("q"), &s, &[]);
    r.on_key(&Key::Space, &s, &[]);
    r.on_key(&text("l"), &s, &[]);
    assert_eq!(r.find, "q l");
    assert_eq!(r.on_key(&Key::Escape, &s, &[]), [Action::DropToc, Action::Redraw]);
    assert_eq!((r.find.as_str(), r.pane), ("", Pane::Toc));
    r.on_key(&Key::Escape, &s, &[]);
    assert_eq!((r.mode, r.pane), (TocMode::Contents, Pane::Reading));
}

#[test]
fn marks_are_annotated_and_deleted() {
    let mut r = reading();
    let s = surface();
    let marks = vec![
        Mark { id: 7, note: "old".into(), ..Default::default() },
        Mark { id: 8, ..Default::default() },
    ];
    assert_eq!(r.on_key(&text("m"), &s, &marks)[0], Action::LoadMarks);
    r.on_key(&text("n"), &s, &marks);
    assert_eq!((r.noting, r.note.as_str()), (Some(7), "old"));
    r.on_key(&text("q"), &s, &marks);
    assert_eq!(r.note, "oldq", "letters are text while a note is typed");
    assert_eq!(r.on_key(&Key::Enter, &s, &marks)[0], Action::SaveNote);
    assert_eq!(r.take_note(), Some((7, "oldq".to_string())));
    assert_eq!(r.take_note(), None);
    r.toc_sel = 1;
    assert_eq!(r.on_key(&text("x"), &s, &marks)[0], Action::DeleteMark(8));
    r.marks_left(1);
    assert_eq!(r.toc_sel, 0);
}

#[test]
fn a_note_on_show_takes_the_next_key() {
    let mut r = reading();
    assert_eq!(r.link_action(Link::Note, ""), Some(vec![Action::OpenNote]));
    assert_eq!(r.on_key(&text("q"), &surface(), &[]), [Action::Redraw]);
    assert!(!r.popup);
}

#[test]
fn a_followed_link_can_be_taken_back() {
    let mut r = reading();
    r.page = 6;
    assert_eq!(r.link_action(Link::Nothing, ""), None);
    assert_eq!(r.link_action(Link::Broken, ""), None);
    assert_eq!(r.link_action(Link::Outside, ""), Some(vec![]));
    assert_eq!(
        r.link_action(Link::Place(2), "Back to 3%"),
        Some(vec![Action::DropHud, Action::GoTo(2)])
    );
    r.chapter_loaded(2, 4, false);
    r.arrive(Some(3));
    assert_eq!((r.page, r.resume_page), (3, 3));
    let back = r.take_back().expect("a way back");
    assert_eq!((back.spine, back.page, back.label.as_str()), (1, 6, "Back to 3%"));
    r.chapter_loaded(1, 10, false);
    r.land(back.page, 10);
    assert_eq!((r.index, r.page), (1, 6));
    assert!(r.take_back().is_none());
}

#[test]
fn a_link_without_a_page_keeps_the_page_of_its_chapter() {
    let mut r = reading();
    (r.index, r.page) = (1, 6);
    r.follow(1, None);
    assert_eq!((r.page, r.resume_page), (6, 6), "the chapter on show");
    r.follow(1, Some(2));
    assert_eq!((r.page, r.resume_page), (2, 2));
    r.follow(4, None);
    assert_eq!((r.index, r.page, r.resume_page), (1, 0, 0), "one that could not be laid out");
}

#[test]
fn an_entry_opens_its_chapter() {
    let mut r = reading();
    r.page = 5;
    r.on_key(&Key::Tab, &surface(), &[]);
    assert_eq!(
        r.open_entry(2, true, "Back"),
        [Action::DropHud, Action::Load { index: 2, backwards: false }]
    );
    assert_eq!(r.pane, Pane::Reading);
    assert_eq!(r.back.as_ref().map(|b| (b.spine, b.page)), Some((1, 5)));
    assert_eq!(r.open_entry(1, true, "Back"), [Action::DropHud]);
    assert_eq!(r.page, 0);
    assert_eq!(r.open_entry(1, false, ""), [Action::Load { index: 1, backwards: false }]);
}

#[test]
fn closing_a_book_shows_the_head_of_the_shelf() {
    let mut r = reading();
    r.page = 6;
    assert_eq!(
        r.on_key(&Key::Escape, &surface(), &[]),
        [
            Action::SaveAt(6),
            Action::ShowTitle,
            Action::ReloadRows,
            Action::SelectOpenBook,
            Action::Redraw
        ]
    );
    assert_eq!((r.pane, r.page), (Pane::Library, 0));
    r.book_found(Some(4));
    assert_eq!(r.selected, 4);
    r.book_found(None);
    assert_eq!(r.selected, 0);
}

#[test]
fn presses_open_what_they_land_on() {
    let mut r = shelf();
    r.on_click(&Press::Suggestion("reso".into()));
    assert_eq!(r.query, "reso");
    assert_eq!(r.on_click(&Press::Card(3)), [Action::OpenSelected]);
    assert_eq!(r.selected, 3);
    assert_eq!(r.on_click(&Press::Entry(1)), []);
    r.pane = Pane::Toc;
    assert_eq!(r.on_click(&Press::Entry(1)), [Action::OpenEntry(1)]);
    r.pane = Pane::Reading;
    assert_eq!(r.on_click(&Press::Card(1)), []);
}

#[test]
fn the_wheel_turns_what_is_on_screen() {
    let mut r = reading();
    let s = surface();
    assert_eq!(r.on_wheel(500, &s), []);
    assert_eq!(r.on_wheel(501, &s), [Action::SaveHere, Action::Redraw]);
    let mut shelf = shelf();
    assert_eq!(shelf.on_wheel(1000, &s), [Action::Redraw], "no position is stored");
    assert_eq!(shelf.page, 1);
    shelf.on_wheel(-1000, &s);
    assert_eq!(shelf.page, 0);
}

#[test]
fn the_bars_linger_and_go() {
    let mut r = reading();
    assert_eq!(r.poke_hud(100), [Action::Redraw]);
    assert_eq!(r.poke_hud(200), []);
    assert_eq!(r.on_tick(200 + HUD_LINGER - 1), (vec![], Wake::At(200 + HUD_LINGER)));
    assert_eq!(r.on_tick(200 + HUD_LINGER), (vec![Action::Redraw], Wake::Never));
    assert!(!r.hud_shown);
    assert_eq!(r.on_tick(9999), (vec![], Wake::Unchanged));
    assert_eq!(shelf().poke_hud(0), [], "the shelf has no bars");
}

#[test]
fn a_turn_runs_its_time() {
    let mut r = reading();
    r.on_key(&Key::Right, &surface(), &[]);
    assert_eq!(r.on_tick(1001), (vec![Action::Redraw], Wake::At(1017)));
    assert!(r.slide.is_some());
    r.on_tick(1000 + SLIDE);
    assert!(r.slide.is_none());
}

#[test]
fn leaving_by_itself_stores_the_position() {
    let mut r = Reader::new(ReadingStyle::default(), 0, Some(50));
    assert_eq!(r.on_tick(49), (vec![], Wake::At(50)));
    assert_eq!(r.on_tick(50), (vec![Action::SaveHere, Action::Exit], Wake::Unchanged));
}

#[test]
fn controls_of_the_bars_act() {
    let mut r = reading();
    let s = surface();
    r.mark = Some(5);
    assert_eq!(
        r.hud_action("unhighlight", &s),
        Some(vec![Action::RemoveMark(5), Action::DropHud, Action::Redraw])
    );
    assert_eq!(r.mark, None);
    assert!(r.hud_shown, "using the bars keeps them up");
    assert_eq!(
        r.hud_action("back", &s),
        Some(vec![Action::GoBack, Action::DropHud, Action::Redraw])
    );
    assert_eq!(r.hud_action("nothing", &s), None);
    r.hud_action("library", &s);
    assert_eq!(r.pane, Pane::Library);
}

#[test]
fn only_what_changed_is_laid_out() {
    let mut r = shelf();
    assert_eq!(r.to_build(None, false), Build::Library);
    assert_eq!(r.to_build(Some(0), false), Build::Nothing);
    assert_eq!(r.to_build(Some(1), false), Build::Library);
    r.pane = Pane::Toc;
    assert_eq!(r.to_build(None, false), Build::Toc);
    assert_eq!(r.to_build(None, true), Build::Nothing);
    r.pane = Pane::Reading;
    assert_eq!(r.to_build(None, false), Build::Nothing);
    r.hud_shown = true;
    assert_eq!(r.to_build(None, false), Build::Hud);
}

#[test]
fn hovering_paints_only_when_something_changed() {
    let mut h = Hover::new();
    assert!(h.moved(Some(1), None, None));
    assert!(!h.moved(Some(1), None, None));
    assert!(h.moved(Some(1), Some("back".into()), None));
    assert!(h.left());
    assert!(!h.left());
}

#[test]
fn a_smaller_document_keeps_the_page_on_it() {
    let mut r = shelf();
    r.page = 8;
    r.relaid(3);
    assert_eq!(r.page, 2);
    r.page_found(Some(1));
    assert_eq!(r.page, 1);
    r.page_found(None);
    assert_eq!(r.page, 1);
}

#[test]
fn a_list_does_not_move_the_reader() {
    let mut r = reading();
    let s = surface();
    r.page = 7;
    r.on_key(&Key::Tab, &s, &[]);
    r.on_key(&Key::PageDown, &s, &[]);
    assert_eq!(r.place(), Some(7));
    assert_eq!(r.on_key(&text("l"), &s, &[])[0], Action::SaveAt(7));
    assert_eq!(r.place(), None, "there is nothing to store over it");
}
