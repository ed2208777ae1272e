use omaread::check::{cut_atoms, cutting, dangling, is_empty, judge, stalled, Break, Tally};
use omaread::book::TocEntry;
use omaread::dom::{Dom, Node};
use omaread::paginate::{paginate, Atom, AtomKind, Pages};
use omaread::settings::{saved_style, scale_setting, set_setting, setting};
use omaread::shot::{asks, chapter, columns, page, ppm, size, theme};
use omaread::style::Theme;

fn atom(top: i64, bottom: i64) -> Atom {
    Atom { top, bottom, group: 1, kind: AtomKind::Line, keep_with_next: false }
}

fn blank() -> Dom {
    Dom::new(vec![Node {
        parent: None,
        element: None,
        x: 0,
        y: 0,
        width: 0,
        height: 500,
        inset_x: 0,
        inset_y: 0,
    }])
    .unwrap()
}

#[test]
fn cuts_that_no_break_can_help_are_told_apart() {
    let atoms = vec![atom(0, 900_000), atom(900_000, 950_000)];
    assert_eq!(judge(&atoms, 500_000, 500_000), Break::Big);
    assert_eq!(judge(&atoms, 920_000, 500_000), Break::Cut);
    assert_eq!(judge(&atoms, 900_500, 500_000), Break::Clean, "within a pixel of the edge");
    assert_eq!(cut_atoms(&atoms, 920_000), [1]);
    let pages = Pages {
        tops: vec![0, 500_000, 920_000],
        page_height: 500_000,
        content_height: 950_000,
    };
    assert_eq!(cutting(&atoms, &pages), (1, 1));
}

#[test]
fn a_stall_is_noticed() {
    let at = |tops: Vec<i64>| Pages { tops, page_height: 1, content_height: 1 };
    assert!(stalled(&at(vec![0, 5, 5])));
    assert!(!stalled(&at(vec![0, 5, 6])));
    assert!(!stalled(&at(vec![])));
    assert!(!stalled(&paginate(&vec![atom(0, 900_000)], 900_000, 200_000)));
}

#[test]
fn the_tally_decides_the_run() {
    let mut t = Tally::default();
    assert_eq!(t.exit_code(), 0);
    t.big = 2;
    assert_eq!(t.exit_code(), 0, "a row taller than a page cannot be spared");
    t.panicked = 3;
    assert_eq!(t.exit_code(), 1, "an engine panic");
    t.panicked = 0;
    t.empty = 1;
    assert_eq!(t.exit_code(), 1, "a chapter without text");
    t.empty = 0;
    t.panicked = 3;
    let atoms = vec![atom(0, 100_000)];
    let pages = Pages { tops: vec![0, 50_000], page_height: 200_000, content_height: 100_000 };
    t.count_chapter(&atoms, &pages, true, 4);
    assert_eq!((t.chapters, t.pages, t.cutting, t.empty, t.dangling), (1, 2, 1, 1, 4));
    assert_eq!(t.exit_code(), 1);
    assert_eq!(
        t.summary(),
        "checked 0 books, 1 chapters, 2 pages | empty 1 | engine panics 3 | breaks cutting an atom 1 | stalls 0 | taller than a page 2 | contents entries 0 | from the spine 0 | dangling 4"
    );
    let mut f = Tally::default();
    f.failed = 1;
    assert_eq!(f.exit_code(), 1);
}

#[test]
fn empty_chapters_and_dangling_fragments_are_counted() {
    let dom = blank();
    assert!(is_empty(&dom));
    let e = |spine: usize, f: Option<&str>| TocEntry {
        label: String::new(),
        depth: 0,
        spine,
        fragment: f.map(String::from),
        find: None,
        cfi: None,
    };
    assert_eq!(dangling(&dom, &[e(0, Some("x")), e(1, Some("x")), e(0, None)], 0), 1);
}

#[test]
fn a_size_is_two_numbers_and_a_cross() {
    assert_eq!(size("1800x1000"), (1800, 1000));
    assert_eq!(size(" 20 X 30 "), (20, 30));
    assert_eq!(size("0x5"), (1, 5));
    assert_eq!(size(""), (900, 1000));
    assert_eq!(size("12"), (900, 1000));
    assert_eq!(size("ax9"), (900, 1000));
}

#[test]
fn shots_are_asked_for_by_words() {
    let args: Vec<String> = ["hud", "night", "pages"].iter().map(|s| s.to_string()).collect();
    assert!(asks(&args, "pages"));
    assert!(!asks(&args, "sepia"));
    assert_eq!(theme(&args), Theme::Night);
    assert_eq!(theme(&args[2..]), Theme::White);
    assert_eq!(columns(Some("2")), 2);
    assert_eq!(columns(Some("9")), 2);
    assert_eq!(columns(Some("0")), 1);
    assert_eq!(columns(Some("x")), 1);
    assert_eq!(columns(None), 1);
    assert_eq!(chapter("8"), 7);
    assert_eq!(chapter("0"), 0);
    assert_eq!(chapter("x"), 0);
}

#[test]
fn a_page_is_a_number_or_the_words_on_it() {
    let dom = blank();
    let pages = Pages { tops: vec![0, 9, 18], page_height: 9, content_height: 27 };
    assert_eq!(page(&dom, &pages, "2"), 1);
    assert_eq!(page(&dom, &pages, "99"), 2);
    assert_eq!(page(&dom, &pages, "not there"), 0);
}

#[test]
fn an_image_file_drops_the_opacity() {
    assert_eq!(ppm(&[1, 2, 3, 255, 4, 5, 6, 255], 2, 1), b"P6\n2 1\n255\n\x01\x02\x03\x04\x05\x06");
    assert_eq!(ppm(&[1, 2, 3], 0, 0), b"P6\n0 0\n255\n", "half a pixel is none");
}

#[test]
fn writing_a_setting_leaves_the_others_alone() {
    let text = set_setting("theme=night\nfont-scale=1.00\n", "font-scale", "1.40");
    assert_eq!(setting(&text, "theme").as_deref(), Some("night"));
    assert_eq!(setting(&text, "font-scale").as_deref(), Some("1.40"));
    assert_eq!(setting(&text, "other"), None);
}

#[test]
fn settings_become_a_style() {
    let s = saved_style(Some("grey"), Some(1400));
    assert_eq!((s.theme, s.scale), (Theme::Grey, 1400));
    let s = saved_style(None, None);
    assert_eq!((s.theme, s.scale), (Theme::Sepia, 1000));
    assert_eq!(saved_style(Some("nonsense"), None).theme, Theme::Sepia);
    assert_eq!(scale_setting(1400), "1.40");
    assert_eq!(scale_setting(800), "0.80");
    assert_eq!(scale_setting(1055), "1.06");
}

#[test]
fn the_settings_panel_marks_the_theme_in_force() {
    let dirs = vec!["/a<b>".to_string()];
    let out = omaread::menu::menu_html(Theme::Grey, &dirs, None);
    assert!(out.contains("class=\"row on\" data-set=\"theme:grey\""), "{out}");
    assert!(out.contains("data-set=\"drop:/a&lt;b&gt;\""), "{out}");
    assert!(out.contains("data-set=\"add\""));
    let typing = omaread::menu::menu_html(Theme::Grey, &[], Some("/x"));
    assert!(typing.contains(">/x|<") && !typing.contains("data-set=\"add\""), "{typing}");
    let css = omaread::menu::menu_stylesheet("#1", "#2", "#3", 28_000, 74_500);
    assert!(css.contains("margin-left: 28px") && css.contains("margin-top: 74.5px"), "{css}");
}
