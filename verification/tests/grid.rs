use omaread::db::{BookRow, Sort};
use omaread::grid::{
    card, clamp, escape, grid_width, html, per_row, stylesheet, COVER_ORIGIN, COVER_W, GAP, MAX_PER_ROW,
    SIDE_PAD,
};

fn row(title: &str, author: &str) -> BookRow {
    BookRow {
        hash: "abc123".into(),
        path: "/x.epub".into(),
        title: title.into(),
        author: author.into(),
        ..Default::default()
    }
}

fn px(x: f32) -> i64 {
    (x * 1000.0) as i64
}

#[test]
fn metadata_cannot_inject_markup() {
    let nasty = row(r#"<script>x</script>" onload="y"#, "<img src=x onerror=1>");
    let out = html(&[nasty], "", Sort::Recent, &[], None, 0..1);
    assert!(!out.contains("<script"), "script tag survived: {out}");
    assert!(!out.contains("<img src=x"), "raw img survived");
    assert!(out.contains("&lt;script&gt;"));
    assert!(out.contains(r#"data-hash="abc123""#));
}

#[test]
fn query_is_escaped_in_the_heading() {
    let out = html(&[], "<b>", Sort::Title, &[], None, 0..0);
    assert!(!out.contains("<b>"));
    assert!(out.contains("&lt;b&gt;"));
}

#[test]
fn missing_state_and_indices_reach_the_markup() {
    let mut a = row("A", "x");
    let mut b = row("B", "y");
    b.hash = "def".into();
    b.missing = true;
    a.started = true;
    let out = html(&[a, b], "", Sort::Recent, &[], None, 0..2);
    assert!(out.contains(r#"class="card""#) || out.contains("card "), "{out}");
    assert!(out.contains("missing"));
    assert!(out.contains("data-index=\"1\""));
    assert!(!out.contains("selected"), "selection is painted, not marked up");
}

#[test]
fn the_search_form_shows_the_query_and_escapes_suggestions() {
    let sugs = vec![
        ("resonancia".to_string(), "12 chapters".to_string()),
        ("<img src=x>".to_string(), "author".to_string()),
    ];
    let out = html(&[], "reso", Sort::Recent, &sugs, None, 0..0);
    assert!(out.contains(r#"<span class="typed">reso</span>"#), "{out}");
    assert!(out.contains(r#"data-suggest="resonancia""#));
    assert!(out.contains("12 chapters"));
    assert!(!out.contains("<img src=x"), "suggestion injected markup");
    assert!(out.contains("&lt;img src=x&gt;"));
}

#[test]
fn an_empty_query_shows_a_placeholder_and_no_suggestions() {
    let out = html(&[], "", Sort::Recent, &[], None, 0..0);
    assert!(out.contains("Type to search"));
    assert!(!out.contains("class=\"suggest\""));
    assert!(out.contains("class=\"caret\""));
}

#[test]
fn tags_show_on_the_card_and_in_the_box() {
    let mut r = row("Un libro", "Autor");
    r.tags = vec!["scifi".into(), "<img src=x>".into()];
    let out = html(&[r], "", Sort::Recent, &[], Some("sci<b>"), 0..1);

    assert!(out.contains("#scifi"), "{out}");
    assert!(!out.contains("<img src=x"), "a tag injected markup");
    assert!(out.contains(r#"<span class="typed">#sci&lt;b&gt;</span>"#), "{out}");
    assert!(!out.contains("Type to search"));
}

#[test]
fn only_the_named_cards_carry_covers() {
    let rows: Vec<BookRow> = (0..6)
        .map(|i| {
            let mut r = row(&format!("Libro {i}"), "Autor");
            r.hash = format!("h{i}");
            r.has_cover = true;
            r
        })
        .collect();

    let out = html(&rows, "", Sort::Recent, &[], None, 2..4);
    assert_eq!(out.matches("<img class=\"cover\"").count(), 2, "only two covers");
    assert!(out.contains(&format!("{COVER_ORIGIN}h2")));
    assert!(out.contains(&format!("{COVER_ORIGIN}h3")));
    assert!(!out.contains(&format!("{COVER_ORIGIN}h0")), "off-page cover requested");
    assert_eq!(out.matches("cover blank").count(), 4);
    assert_eq!(out.matches("data-index=").count(), 6, "every book still listed");
}

#[test]
fn a_row_holds_at_most_seven_however_wide_the_window() {
    let need = (grid_width() + 2 * SIDE_PAD) as f32;
    assert_eq!(per_row(px(need)), MAX_PER_ROW);
    assert_eq!(per_row(px(3840.0)), MAX_PER_ROW, "a 4K window still gets seven");
    assert_eq!(per_row(px(need - 1.0)), MAX_PER_ROW - 1, "one pixel short drops a column");

    let pitch = (COVER_W + GAP) as f32;
    assert_eq!(per_row(px(2.0 * SIDE_PAD as f32 + COVER_W as f32)), 1);
    assert_eq!(per_row(px(2.0 * SIDE_PAD as f32 + pitch + COVER_W as f32)), 2);
    assert_eq!(per_row(px(10.0)), 1, "never zero columns");

    let css = stylesheet("#fff", "#111", "#888", "#eee");
    assert!(css.contains(&format!("max-width: {}px", grid_width())), "{css}");
}

#[test]
fn a_card_is_the_same_box_with_or_without_a_cover() {
    let mut with = row("Con portada", "A");
    with.has_cover = true;
    let without = row("Sin portada", "N");

    let a = html(&[with], "", Sort::Recent, &[], None, 0..1);
    let b = html(&[without], "", Sort::Recent, &[], None, 0..1);
    assert!(a.contains(r#"<img class="cover" src="#), "{a}");
    assert!(b.contains(r#"<img class="cover blank"/>"#), "{b}");
    assert_eq!(a.matches("<img class=\"cover").count(), 1);
    assert_eq!(b.matches("<img class=\"cover").count(), 1);
    assert!(b.contains("Sin portada"));
}

#[test]
fn escaping_leaves_nothing_that_markup_is_made_of() {
    assert_eq!(escape("a<b>&\"c'"), "a&lt;b&gt;&amp;&quot;c&#39;");
    assert_eq!(escape("plain"), "plain");
    assert_eq!(escape(""), "");
}

#[test]
fn text_is_shortened_at_a_word() {
    assert_eq!(clamp("short", 10), "short");
    let cut = clamp("a rather long title that goes on", 14);
    assert!(cut.chars().count() <= 14, "{cut:?}");
    assert!(cut.starts_with("a rather"), "{cut:?}");
}

#[test]
fn a_card_counts_from_its_place_on_the_shelf() {
    let out = card(41, &row("T", "A"), false);
    assert!(out.contains("data-index=\"41\""), "{out}");
    assert!(out.contains("data-atom"), "{out}");
}

#[test]
fn metadata_adds_no_markup_to_the_shelf() {
    let plain = [row("A", "B"), row("C", "D")];
    let mut nasty = [row("<b>\"A\"</b>", "'B' > <i>"), row("\">", "<<<>>>")];
    nasty[1].hash = "\"<x>'".into();
    let of = |rows: &[BookRow]| html(rows, "q", Sort::Title, &[], None, 0..2);
    for c in ['<', '>', '"', '\''] {
        assert_eq!(of(&nasty).matches(c).count(), of(&plain).matches(c).count(), "{c}");
    }
}
