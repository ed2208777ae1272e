use omaread::bands::{absorb_into_bands, separate_bands};
use omaread::chapter::{base_url_for, blank_cover, prepare, title_page};
use omaread::net::ORIGIN;
use omaread::paginate::{Atom, AtomKind};

fn px(x: f32) -> i64 {
    (x * 1000.0) as i64
}

fn atom(top: f32, bottom: f32, kind: AtomKind) -> Atom {
    Atom { top: px(top), bottom: px(bottom), group: 1, kind, keep_with_next: false }
}

#[test]
fn only_a_cover_that_paints_nothing_is_replaced() {
    let svg =
        r#"<html><body><svg viewBox="0 0 1 1"><image xlink:href="c.jpg"/></svg></body></html>"#;
    let img = r#"<html><body><div><img src="cover.jpeg" alt="Cover"/></div></body></html>"#;
    let prose = "<html><body><p>Llamadme Ismael.</p></body></html>";

    assert!(blank_cover(svg));
    assert!(!blank_cover(img), "a real cover image must survive");
    assert!(!blank_cover(&img.to_uppercase().replace("XLINK", "xlink")));
    assert!(!blank_cover(prose));

    let page = title_page("<script>x</script>", "A & B");
    assert!(!page.contains("<script"), "{page}");
    assert!(page.contains("A &amp; B"));
    assert!(!title_page("Solo", "  ").contains("margin-top: 2em"));
}

#[test]
fn a_row_band_grows_over_a_line_that_overflows_its_cell() {
    let mut bands = vec![atom(4577.0, 4604.0, AtomKind::Row)];
    let line = atom(4586.0, 4615.0, AtomKind::Line);

    let orphans = absorb_into_bands(&mut bands, &vec![line]);

    assert!(orphans.is_empty(), "the line belongs to the row, not to the flow");
    assert_eq!((bands[0].top, bands[0].bottom), (px(4577.0), px(4615.0)));
    assert!(!bands[0].splits(px(4620.0)), "a break past the grown band is legal");
    assert!(bands[0].splits(px(4610.0)), "a break inside it still is not");
}

#[test]
fn a_line_lands_in_the_band_it_overlaps_most() {
    let mut bands =
        vec![atom(100.0, 130.0, AtomKind::Row), atom(130.0, 200.0, AtomKind::Row)];
    let orphans = absorb_into_bands(&mut bands, &vec![atom(128.0, 160.0, AtomKind::Line)]);

    assert!(orphans.is_empty());
    assert_eq!(bands[0].bottom, px(130.0), "the band it barely touches must not grow");
    assert_eq!(bands[1].top, px(128.0));
}

#[test]
fn overlapping_row_bands_are_pulled_apart() {
    let mut bands = vec![
        atom(4577.0, 4615.0, AtomKind::Row),
        atom(4604.0, 4758.0, AtomKind::Row),
        atom(4754.0, 4823.0, AtomKind::Row),
    ];
    separate_bands(&mut bands);

    let edges: Vec<(i64, i64)> = bands.iter().map(|b| (b.top, b.bottom)).collect();
    assert_eq!(
        edges,
        [
            (px(4577.0), px(4615.0)),
            (px(4615.0), px(4758.0)),
            (px(4758.0), px(4823.0))
        ]
    );
    for b in &bands {
        assert!(
            !b.splits(px(4615.0)) && !b.splits(px(4758.0)),
            "a row boundary must be breakable"
        );
    }
}

#[test]
fn a_band_swallowed_whole_is_dropped() {
    let mut bands = vec![
        atom(100.0, 400.0, AtomKind::Row),
        atom(120.0, 300.0, AtomKind::Row),
        atom(390.0, 450.0, AtomKind::Row),
    ];
    separate_bands(&mut bands);

    let edges: Vec<(i64, i64)> = bands.iter().map(|b| (b.top, b.bottom)).collect();
    assert_eq!(edges, [(px(100.0), px(400.0)), (px(400.0), px(450.0))]);
}

#[test]
fn table_content_outside_every_row_stays_an_atom() {
    let mut bands = vec![atom(100.0, 130.0, AtomKind::Row)];
    let caption = atom(60.0, 90.0, AtomKind::Line);

    let orphans = absorb_into_bands(&mut bands, &vec![caption]);

    assert_eq!(orphans.len(), 1);
    assert_eq!((orphans[0].top, orphans[0].bottom), (px(60.0), px(90.0)));
    assert_eq!((bands[0].top, bands[0].bottom), (px(100.0), px(130.0)));
}

#[test]
fn base_url_uses_the_chapter_directory() {
    assert_eq!(base_url_for("/OEBPS/ch09.html"), format!("{ORIGIN}OEBPS/"));
    assert_eq!(base_url_for("OEBPS/ch09.html"), format!("{ORIGIN}OEBPS/"));
    assert_eq!(base_url_for("/a/b/c.xhtml"), format!("{ORIGIN}a/b/"));
    assert_eq!(base_url_for("/ch01.html"), ORIGIN);
    assert_eq!(base_url_for("ch01.html"), ORIGIN);
}

#[test]
fn only_the_first_item_becomes_a_title_page() {
    let svg = "<html><body><svg></svg></body></html>";
    assert!(prepare(svg, 0, "Título", "Autor", None).contains("Título"));
    assert_eq!(prepare(svg, 1, "Título", "Autor", None), svg);
    let styled = "<p>a</p><style>p{}</style>";
    assert_eq!(prepare(styled, 0, "T", "A", None), "<p>a</p>");
}

#[test]
fn separated_bands_lie_over_what_they_lay_over_before() {
    let before = vec![
        atom(120.0, 300.0, AtomKind::Row),
        atom(100.0, 260.0, AtomKind::Row),
        atom(500.0, 510.0, AtomKind::Row),
        atom(290.0, 320.0, AtomKind::Row),
    ];
    let mut after = before.clone();
    separate_bands(&mut after);
    for y in 90..520 {
        let over = |bands: &[Atom]| bands.iter().any(|b| b.top <= px(y as f32) && px(y as f32) < b.bottom);
        assert_eq!(over(&after), over(&before), "{y}");
    }
}
