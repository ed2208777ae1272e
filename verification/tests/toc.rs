use omaread::book::TocEntry;
use omaread::toc::{html, stylesheet, MAX_DEPTH};

fn entry(label: &str, depth: usize, spine: usize) -> TocEntry {
    TocEntry { label: label.into(), depth, spine, fragment: None, find: None, cfi: None }
}

#[test]
fn labels_cannot_inject_markup() {
    let e = [entry(r#"<script>x</script>" onclick="y"#, 0, 0)];
    let out = html(&e, "Contents", "<b>title</b>", 0, 0);
    assert!(!out.contains("<script"), "script tag survived: {out}");
    assert!(!out.contains("<b>"), "raw markup in the title survived");
    assert!(out.contains("&lt;script&gt;"));
    assert!(out.contains(r#"data-index="0""#));
}

#[test]
fn nesting_indents_and_stops_indenting() {
    let e = [entry("Part", 0, 0), entry("Chapter", 1, 1), entry("Deep", 9, 2)];
    let out = html(&e, "Contents", "t", 99, 99);
    let css = stylesheet("#fff", "#111", "#888", "#eee");
    assert!(out.contains(r#"class="row d0""#), "{out}");
    assert!(out.contains(r#"class="row d1""#));
    assert!(out.contains(&format!(r#"class="row d{MAX_DEPTH}""#)));
    for d in 0..=MAX_DEPTH {
        assert!(css.contains(&format!("html .row.d{d} {{")), "no indent rule for d{d}");
    }
}

#[test]
fn the_current_chapter_and_the_selection_are_marked() {
    let e = [entry("One", 0, 0), entry("Two", 0, 4), entry("Three", 0, 9)];
    let out = html(&e, "Contents", "t", 4, 2);
    assert!(out.contains(r#"class="row d0 here" data-index="1""#), "{out}");
    assert!(out.contains(r#"class="row d0 selected" data-index="2""#), "{out}");
}

#[test]
fn every_row_has_a_rule_that_indents_it() {
    let css = stylesheet("#fff", "#111", "#888", "#eee");
    for depth in [0, 1, MAX_DEPTH, MAX_DEPTH + 1, usize::MAX] {
        let out = html(&[entry("x", depth, 1)], "Contents", "t", 0, 0);
        let class = out.split("class=\"row ").nth(1).unwrap().split(['"', ' ']).next().unwrap();
        assert!(css.contains(&format!("html .row.{class} {{")), "{class}");
    }
}
