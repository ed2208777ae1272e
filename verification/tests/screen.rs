use omaread::dom::Rect;
use omaread::frame::{compose, Layer, Plan, Turn};
use omaread::paginate::Pages;
use omaread::paint::{self, bands, clear, icon, outline, page, wash, Area, Frame, Icon};
use omaread::screen::{
    column_width, columns_for, eased, layout_key, menu_anchor, page_height, page_margin, parse_hex,
    pointer_in_flow, probes, slices, slide_offsets, SLIDE,
};
use omaread::db::BookRow;
use omaread::dom::{Dom, Element, Node, LENGTH_MAX, REACH_MAX};
use omaread::reader::{Action, Key, Link, MenuChoice, Pane, Press, Reader, Surface};
use omaread::style::{ReadingStyle, Theme, GUTTER_EM, MEASURE_EM};
use omaread::window::{find_book, href_at, indexed_at, press_at, Shown};

fn px(x: f32) -> i64 {
    (x * 1000.0) as i64
}

fn pages() -> Pages {
    Pages { tops: vec![0, px(800.0), px(1600.0)], page_height: px(900.0), content_height: px(2000.0) }
}

#[test]
fn a_turn_slides_the_way_it_was_turned() {
    let w = px(900.0);
    assert_eq!(slide_offsets(true, 0, w), (0, w), "the new page waits offstage right");
    assert_eq!(slide_offsets(true, 1000, w), (-w, 0), "and lands where the old one was");
    assert_eq!(slide_offsets(false, 0, w), (0, -w), "turning back, it waits at the left");
    assert_eq!(slide_offsets(false, 1000, w), (w, 0));
    let (out, into) = slide_offsets(true, 500, w);
    assert!((into - out - w).abs() < 10, "{out} and {into} must abut");
}

#[test]
fn two_columns_need_the_width_and_the_reading_view() {
    let em = px(20.0);
    let min = 2 * (MEASURE_EM + 2 * GUTTER_EM) * em / 1000;

    assert_eq!(columns_for(2, min, em, true), 2);
    assert_eq!(columns_for(2, min - px(1.0), em, true), 1, "too narrow falls back");
    assert_eq!(columns_for(1, min * 2, em, true), 1, "not asked for");
    assert_eq!(columns_for(2, min, em, false), 1);
    assert_eq!(columns_for(2, min, em * 16 / 10, true), 1);
}

#[test]
fn columns_share_the_window() {
    assert_eq!(column_width(1801, 2), 900);
    assert_eq!(column_width(1801, 1), 1801);
    assert_eq!(column_width(1, 2), 1);
}

#[test]
fn margins_follow_the_letter_size() {
    assert_eq!(page_margin(px(20.0)), px(50.0));
    assert_eq!(page_height(px(1000.0), px(50.0)), px(900.0));
    assert_eq!(page_height(px(80.0), px(50.0)), px(1.0));
}

#[test]
fn the_pointer_knows_its_column() {
    let p = pages();
    let (w, m) = (px(1800.0), px(50.0));
    assert_eq!(pointer_in_flow(px(10.0), px(60.0), w, 2, 0, &p, m), (px(10.0), px(10.0)));
    assert_eq!(pointer_in_flow(px(910.0), px(60.0), w, 2, 0, &p, m), (px(10.0), px(810.0)));
    assert_eq!(pointer_in_flow(px(910.0), px(60.0), w, 1, 0, &p, m), (px(910.0), px(10.0)));
    assert_eq!(
        pointer_in_flow(px(910.0), px(60.0), w, 2, 2, &p, m),
        (px(10.0), px(1610.0)),
        "past the last page is the last page"
    );
}

#[test]
fn a_turn_eases_out() {
    assert_eq!(eased(0), Some(0));
    assert_eq!(eased(SLIDE / 2), Some(750));
    assert_eq!(eased(SLIDE - 1), Some(999));
    assert_eq!(eased(SLIDE), None);
}

#[test]
fn columns_past_the_end_are_clean_paper() {
    assert_eq!(slices(&pages(), 2, 2), [(px(1600.0), px(400.0)), (0, 0)]);
    assert_eq!(slices(&pages(), 0, 1), [(0, px(800.0))]);
}

#[test]
fn colours_are_read_from_their_digits() {
    assert_eq!(parse_hex("#2e3440"), (0x2e, 0x34, 0x40));
    assert_eq!(parse_hex("0a84ff"), (0x0a, 0x84, 0xff));
    assert_eq!(parse_hex("#nonsense"), (0, 0, 0));
    assert_eq!(parse_hex(""), (0, 0, 0));
}

#[test]
fn the_panel_hangs_under_the_cog_and_stays_on_screen() {
    let gear = |x: f32| Rect { x: px(x), y: px(20.0), width: px(18.0), height: px(18.0) };
    let (w, m) = (px(320.0), px(50.0));
    assert_eq!(menu_anchor(&gear(200.0), px(900.0), w, m), (px(190.0), px(98.0)));
    assert_eq!(menu_anchor(&gear(880.0), px(900.0), w, m).0, px(900.0 - 320.0 - 28.0));
    assert_eq!(menu_anchor(&gear(5.0), px(900.0), w, m).0, px(28.0));
}

#[test]
fn the_exact_point_is_probed_first() {
    let p = probes(100_000, 50_000);
    assert_eq!(p.len(), 9);
    assert_eq!(p[0], (100_000, 50_000));
    assert!(p.iter().all(|&(x, y)| (x - 100_000).abs() <= 7000 && (y - 50_000).abs() <= 7000));
}

#[test]
fn page_counts_are_keyed_by_size_and_width() {
    assert_eq!(layout_key(px(20.0), 900), "20x900");
    assert_eq!(layout_key(20_500, 900), "20x900", "a half goes to the even one");
    assert_eq!(layout_key(21_500, 450), "22x450");
    assert_eq!(layout_key(20_501, 900), "21x900");
}

fn frame() -> Frame {
    Frame { width: px(900.0), height: px(1000.0), margin: px(50.0), page_height: px(900.0) }
}

#[test]
fn masks_hide_all_but_the_page() {
    let m = paint::column(px(872.0), px(900.0), px(450.0), &frame());
    assert_eq!(m[0], Area { x0: px(900.0), y0: 0, x1: px(1350.0), y1: px(50.0) });
    assert_eq!(m[1], Area { x0: px(900.0), y0: px(922.0), x1: px(1350.0), y1: px(1000.0) });
    assert_eq!(page(px(5000.0), &frame())[1].y0, px(950.0), "never taller than a page");
    assert_eq!(page(-5, &frame())[1].y0, px(50.0));
    assert_eq!(clear(&frame()).x1, px(900.0));
}

#[test]
fn highlights_do_not_bleed_into_the_margin() {
    let on = Area { x0: 0, y0: px(790.0), x1: px(100.0), y1: px(830.0) };
    let got = bands(&[on], 0, px(800.0), px(5.0), &frame());
    assert_eq!(got, [Area { x0: px(5.0), y0: px(840.0), x1: px(105.0), y1: px(850.0) }]);
    assert_eq!(bands(&[on], px(900.0), px(800.0), 0, &frame()), [], "another page's");
    let thin = Area { x0: 10, y0: 0, x1: 10, y1: px(9.0) };
    assert_eq!(bands(&[thin], 0, px(800.0), 0, &frame()), []);
    assert!(on.contains(0, px(790.0)) && !on.contains(0, px(789.0)));
}

#[test]
fn outlines_need_a_face() {
    let r = Rect { x: 1000, y: 2000, width: 3000, height: 4000 };
    assert_eq!(outline(&r), Some(Area { x0: 1000, y0: 2000, x1: 4000, y1: 6000 }));
    assert_eq!(wash(&Rect { x: 0, y: 0, width: 0, height: 9 }), None);
}

#[test]
fn icons_are_drawn_in_their_box() {
    let r = Rect { x: 0, y: 0, width: px(20.0), height: px(10.0) };
    let back = icon(Icon::Back, &r);
    assert_eq!(back, [vec![(11_800, 1200), (11_800, 8800), (7200, 5000)]]);
    assert_eq!(icon(Icon::Contents, &r).len(), 3);
    assert_eq!(icon(Icon::Highlight, &r).len(), 2);
    assert_eq!(icon(Icon::Bookmark, &r)[0].len(), 5);
    assert_eq!(icon(Icon::Bookmark, &Rect { x: 0, y: 0, width: 5, height: 0 }).len(), 0);
    assert_eq!(Icon::Highlight.name(), "highlight");
}

fn plan() -> Plan {
    Plan {
        page: 1,
        columns: 2,
        width: px(1800.0),
        turn: None,
        hovered: false,
        selected: false,
        popup: false,
        library: false,
        menu: false,
        hud: false,
    }
}

#[test]
fn a_frame_shows_its_columns_side_by_side() {
    let got = compose(&Plan { page: 2, hud: true, ..plan() }, &pages());
    assert_eq!(
        got,
        [
            Layer::Column { top: px(1600.0), extent: px(400.0), x: 0, first: true },
            Layer::Highlights { top: px(1600.0), extent: px(400.0), x: 0 },
            Layer::Selection { top: px(1600.0), extent: px(400.0), x: 0 },
            Layer::Column { top: 0, extent: 0, x: px(900.0), first: false },
            Layer::Hud,
        ]
    );
}

#[test]
fn a_turning_frame_shows_both_pages() {
    let turn = Some(Turn { from: 0, forward: true, t: 500 });
    let got = compose(&Plan { columns: 1, turn, ..plan() }, &pages());
    assert_eq!(
        got,
        [
            Layer::Clear,
            Layer::Column { top: 0, extent: px(800.0), x: px(-900.0), first: false },
            Layer::Column { top: px(800.0), extent: px(800.0), x: px(900.0), first: false },
        ]
    );
}

#[test]
fn chrome_is_painted_over_the_shelf() {
    let got = compose(
        &Plan {
            page: 0,
            columns: 1,
            hovered: true,
            selected: true,
            library: true,
            menu: true,
            popup: true,
            ..plan()
        },
        &pages(),
    );
    assert_eq!(
        &got[3..],
        [
            Layer::Hover { top: 0, extent: px(800.0) },
            Layer::Outline { top: 0 },
            Layer::Note,
            Layer::Gear { top: 0 },
            Layer::Menu,
        ]
    );
}

fn surface() -> Surface {
    Surface { pages: 10, chapter_pages: 10, columns: 1, cards: 4, covering: 2, now: 1000 }
}

fn shown() -> Shown {
    Shown { card: true, hovered: Some(0), note: true, menu: true, bars: true }
}

#[test]
fn a_frame_shows_what_its_view_has() {
    let mut r = Reader::new(ReadingStyle::default(), 0, None);
    r.rows_loaded(3);
    let p = r.plan(&shown(), 1, px(900.0), 0);
    assert!(p.library && p.selected && !p.hovered, "the selected card needs no wash");
    assert!(!p.menu && !p.popup && !p.hud);
    r.selected = 1;
    r.menu = true;
    let p = r.plan(&shown(), 1, px(900.0), 0);
    assert!(p.hovered && p.menu);
    assert_eq!(r.ground("#102030"), (0x10, 0x20, 0x30));

    r.book_opened(3, 0);
    r.chapter_loaded(0, 10, false);
    r.poke_hud(0);
    r.on_key(&Key::Right, &surface(), &[]);
    let p = r.plan(&shown(), 1, px(900.0), 1080);
    assert!(!p.library && !p.selected && p.hud);
    assert_eq!(p.turn, Some(Turn { from: 0, forward: true, t: 750 }));
    assert_eq!(r.plan(&shown(), 1, px(900.0), 1160).turn, None);
    r.style.theme = Theme::Night;
    assert_eq!(r.ground("#102030"), (0x14, 0x14, 0x16));
}

fn tree(attrs: Vec<Vec<(&str, &str)>>) -> Dom {
    let nodes = attrs.into_iter().enumerate().map(|(i, attrs)| Node {
        parent: i.checked_sub(1),
        element: Some(Element {
            tag: "div".into(),
            attrs: attrs.into_iter().map(|(k, v)| (k.into(), v.into())).collect(),
            inline: None,
        }),
        x: 0,
        y: 0,
        width: 0,
        height: 0,
        inset_x: 0,
        inset_y: 0,
    });
    Dom::new(nodes.collect()).unwrap()
}

#[test]
fn a_document_is_refused_only_out_of_bounds() {
    let node = |parent, y| Node {
        parent,
        element: None,
        x: 0,
        y,
        width: 0,
        height: 0,
        inset_x: 0,
        inset_y: 0,
    };
    let many: Vec<Node> = (0..1_200_000usize).map(|i| node((i > 0).then_some(0), 1)).collect();
    assert!(Dom::new(many).is_some());
    assert!(Dom::new(vec![node(None, 0), node(None, 0)]).is_none(), "a second root");
    assert!(Dom::new(vec![node(None, 0), node(Some(1), 0)]).is_none(), "its own parent");
    assert!(Dom::new(vec![node(None, LENGTH_MAX)]).is_some());
    assert!(Dom::new(vec![node(None, LENGTH_MAX + 1)]).is_none());
    let deep = |n: usize| (0..n).map(|i| node(i.checked_sub(1), LENGTH_MAX)).collect::<Vec<_>>();
    let most = (REACH_MAX / LENGTH_MAX) as usize;
    assert!(Dom::new(deep(most)).is_some());
    assert!(Dom::new(deep(most + 1)).is_none());
}

#[test]
fn a_press_means_what_it_landed_on() {
    let rows: Vec<BookRow> = ["a", "b"]
        .iter()
        .map(|h| BookRow { hash: h.to_string(), ..Default::default() })
        .collect();
    let dom = tree(vec![
        vec![],
        vec![("data-hash", "b"), ("data-index", "7")],
        vec![("data-suggest", "reso")],
        vec![("data-menu", "")],
    ]);
    assert!(matches!(press_at(&dom, 0, Pane::Library, &rows), Press::Nothing));
    assert!(matches!(press_at(&dom, 1, Pane::Library, &rows), Press::Card(1)));
    assert!(matches!(press_at(&dom, 2, Pane::Library, &rows), Press::Suggestion(t) if t == "reso"));
    assert!(matches!(press_at(&dom, 3, Pane::Library, &rows), Press::Gear));
    assert!(matches!(press_at(&dom, 3, Pane::Toc, &rows), Press::Entry(7)));
    assert!(matches!(press_at(&dom, 3, Pane::Reading, &rows), Press::Nothing));
    assert_eq!(indexed_at(&dom, 0), None);
    assert_eq!(find_book(&rows, "b"), Some(1));
    assert_eq!(find_book(&rows, "c"), None);
}

#[test]
fn the_exact_point_wins() {
    let dom = tree(vec![vec![], vec![("href", "#n1")], vec![("href", "#n2")]]);
    assert_eq!(href_at(&dom, &[Some(2), Some(1)]).as_deref(), Some("#n2"));
    assert_eq!(href_at(&dom, &[Some(0), None, Some(1)]).as_deref(), Some("#n1"));
    assert_eq!(href_at(&dom, &[Some(0), None]), None);
}

#[test]
fn what_is_on_top_takes_the_press() {
    let mut r = Reader::new(ReadingStyle::default(), 0, None);
    r.book_opened(3, 1);
    r.chapter_loaded(1, 10, false);
    let s = surface();
    let taken = r.page_pressed(Some("bookmark"), Link::Place(2), "Back", &s).unwrap();
    assert_eq!(taken[0], Action::ToggleBookmark);
    assert!(r.back.is_none(), "the link under it was not followed");
    let taken = r.page_pressed(None, Link::Place(2), "Back", &s).unwrap();
    assert_eq!(taken, [Action::DropHud, Action::GoTo(2)]);
    assert_eq!(r.page_pressed(None, Link::Nothing, "", &s), None, "the page takes it");

    let mut r = Reader::new(ReadingStyle::default(), 0, None);
    r.rows_loaded(3);
    r.menu = true;
    assert_eq!(r.list_pressed(&Some(MenuChoice::Other), &Press::Card(2)), [Action::BuildMenu]);
    assert_eq!(r.selected, 0);
    r.list_pressed(&None, &Press::Card(2));
    assert!(!r.menu);
    assert_eq!(r.list_pressed(&None, &Press::Card(2)), [Action::OpenSelected]);
}
