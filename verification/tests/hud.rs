use omaread::hud::{html, html_with_back, note_html, note_stylesheet, stylesheet, BAR, INSET};

#[test]
fn the_bars_sit_at_the_head_and_foot_of_the_window() {
    let out = html("A Book", "42%", 1, false, 1000_000);
    let push = 1000.0 - 2.0 * (INSET as f32 / 1000.0) - 2.0 * (BAR as f32 / 1000.0);
    assert!(out.contains(&format!("margin-top: {push}px")), "{out}");
    assert!(out.contains("42%"));
}

#[test]
fn a_tiny_window_does_not_push_the_bar_off_the_top() {
    let out = html("A Book", "0%", 1, false, 10_000);
    assert!(out.contains("margin-top: 0px"), "{out}");
}

#[test]
fn the_title_cannot_inject_markup() {
    let out = html(r#"<script>x</script>"#, "<b>", 2, false, 800_000);
    assert!(!out.contains("<script"), "{out}");
    assert!(out.contains("&lt;script&gt;"));
    assert!(!out.contains("<b>"));
}

#[test]
fn the_controls_are_click_targets_and_the_title_is_bold() {
    let out = html("A Book", "page 8 of 19", 2, false, 900_000);
    for what in [
        "bookmark", "contents", "highlight", "smaller", "bigger", "columns", "readout", "library",
    ] {
        assert!(out.contains(&format!(r#"data-hud="{what}""#)), "missing {what}: {out}");
    }
    assert!(out.contains("2 col"), "the columns control shows the current state");
    assert!(out.contains("page 8 of 19"));

    let css = stylesheet("#111", "#888", "#eee");
    assert!(css.contains("html .title {") && css.contains("font-weight: 600;"));
}

#[test]
fn the_highlight_control_becomes_a_remove_control() {
    let plain = html("A Book", "5%", 1, false, 900_000);
    assert!(plain.contains(r#"data-hud="highlight""#));
    assert!(!plain.contains("unhighlight"));

    let inside = html("A Book", "5%", 1, true, 900_000);
    assert!(inside.contains(r#"data-hud="unhighlight""#), "{inside}");
    assert!(inside.contains(">Remove<"));
    assert!(inside.contains(r#"data-icon="highlight""#));
}

#[test]
fn the_icon_slots_are_there_for_the_window_to_paint_into() {
    let out = html("A Book", "5%", 2, false, 900_000);
    for icon in ["bookmark", "contents", "highlight", "back"] {
        assert!(out.contains(&format!(r#"data-icon="{icon}""#)), "missing {icon}: {out}");
    }
    let css = stylesheet("#111", "#888", "#eee");
    assert!(css.contains("html .ico {"), "the slot needs a size to reserve");
}

#[test]
fn the_document_declares_a_doctype() {
    assert!(html("A", "1%", 1, false, 900_000).starts_with("<!DOCTYPE html>"));
    assert!(omaread::toc::html(&[], "Contents", "t", 0, 0).starts_with("<!DOCTYPE html>"));
    assert!(omaread::grid::html(&[], "", omaread::db::Sort::Recent, &[], None, 0..0)
        .starts_with("<!DOCTYPE html>"));
}

#[test]
fn the_overlay_ground_is_transparent() {
    let css = stylesheet("#111", "#888", "#eee");
    assert_eq!(css.matches("background: transparent").count(), 2, "html and body");
}

#[test]
fn the_way_back_is_offered_only_when_there_is_one() {
    let plain = html_with_back("A", "5%", 1, false, 900_000, None);
    assert_eq!(plain, html("A", "5%", 1, false, 900_000));
    assert!(!plain.contains("data-hud=\"back\""));
    let back = html_with_back("A", "5%", 1, false, 900_000, Some("Back to <7>"));
    assert!(back.contains("data-hud=\"back\">Back to &lt;7&gt;</span>"), "{back}");
}

#[test]
fn a_note_cannot_inject_markup() {
    let out = note_html("1. Ibíd. <script>");
    assert!(out.starts_with("<!DOCTYPE html>"));
    assert!(out.contains("1. Ibíd. &lt;script&gt;"), "{out}");
    assert_eq!(note_stylesheet("#111", "#888", "#eee").matches("background: transparent").count(), 2);
}

#[test]
fn bars_keep_a_fraction_of_a_pixel() {
    let out = html("A", "1%", 1, false, 1000_500);
    assert!(out.contains("margin-top: 900.5px"), "{out}");
}
