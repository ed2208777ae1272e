use omaread::style::{parse_chrome, strip_publisher_css, ReadingStyle, Theme};

#[test]
fn the_omarchy_palette_is_read_or_refused() {
    let good = ":root {\n  --bg: #2e3440;\n  --fg: #d8dee9;\n\
                --subtle: #4c566a;\n  --panel: #434c5e;\n}\n";
    assert_eq!(
        parse_chrome(good),
        Some((
            "#2e3440".to_string(),
            "#d8dee9".to_string(),
            "#4c566a".to_string(),
            "#434c5e".to_string(),
        ))
    );

    assert_eq!(parse_chrome("--background: #2e3440;"), None);
    assert_eq!(parse_chrome("--bg: #2e3440; --fg: #fff;"), None);
    assert_eq!(
        parse_chrome("--bg: {{ background }}; --fg: #d8dee9; --subtle: #4c566a; --panel: #434c5e;"),
        None
    );
}

#[test]
fn strips_style_and_link() {
    let html = r#"<html><head>
            <link rel="stylesheet" href="stylesheet.css"/>
            <style>p { color: red }</style>
            <title>keep</title></head><body><p>text</p></body></html>"#;
    let out = strip_publisher_css(html);
    assert!(!out.contains("<link"), "link survived: {out}");
    assert!(!out.contains("<style"), "style survived: {out}");
    assert!(!out.contains("color: red"), "css body survived: {out}");
    assert!(out.contains("<title>keep</title>"));
    assert!(out.contains("<p>text</p>"));
}

#[test]
fn survives_unterminated_markup() {
    assert!(!strip_publisher_css("<p>a</p><style>oops").contains("oops"));
    assert!(!strip_publisher_css("<p>a</p><link rel=x").contains("<link"));
}

#[test]
fn what_is_dropped_leaves_no_css_behind() {
    assert_eq!(strip_publisher_css("<sty<style></style>le>p{}</style><p>a</p>"), "<p>a</p>");
    assert_eq!(strip_publisher_css("<li<link href=x>nk href=y><p>a</p>"), "<p>a</p>");
    assert_eq!(strip_publisher_css("<sty<link>le>p{}</style>b"), "b");
}

#[test]
fn every_selector_is_under_html() {
    let css = ReadingStyle::default().stylesheet();
    let mut bare = String::new();
    let mut rest = css.as_str();
    while let Some((head, tail)) = rest.split_once("/*") {
        bare.push_str(head);
        rest = tail.split_once("*/").expect("a comment closes").1;
    }
    bare.push_str(rest);
    let mut rules = 0;
    for rule in bare.split('}').filter(|r| !r.trim().is_empty()) {
        let (heads, body) = rule.split_once('{').expect("a rule");
        assert!(heads.split(',').all(|h| h.trim().split(' ').next() == Some("html")), "{heads}");
        assert!(body.contains(':'), "{body}");
        rules += 1;
    }
    assert_eq!(rules, 26);
}

#[test]
fn the_reading_stylesheet_says_all_of_this() {
    let expected = r##"
html {
  box-sizing: border-box;
  font-family: "Literata", "Charis SIL", serif;
  font-size: 20px;
  line-height: 1.6;
  background: #f8f1e3;
  color: #4f321c;
}
html *, html *::before, html *::after { box-sizing: inherit; }

html body {
  /* The measure is 33em of text; border-box means the gutters live inside the
     max-width, so the column is exactly 33em wide however the padding changes.
     `margin: 0 auto` centres it in one-column mode at every window width. */
  max-width: 36.5em;
  margin: 0 auto;
  /* Horizontal only. Vertical breathing room is the page's job, not the
     document's — see PAGE_MARGIN_EM. */
  padding: 0 1.75em;
  text-align: justify;
  hyphens: auto;
}

/* Editorial convention: indent, no inter-paragraph gap. */
html p { margin: 0; text-indent: 1.2em; }
html h1 + p, html h2 + p, html h3 + p, html h4 + p, html h5 + p, html h6 + p,
html blockquote + p, html hr + p, html p:first-child { text-indent: 0; }

html h1,
html h2,
html h3,
html h4,
html h5,
html h6 {
  text-align: left;
  hyphens: none;
  font-weight: 600;
  margin: 2em 0 0.6em 0;
  line-height: 1.25;
}
html h1 { font-size: 1.5em; }
html h2 { font-size: 1.3em; }
html h3 { font-size: 1.15em; }
html h4, html h5, html h6 { font-size: 1em; }

html blockquote { margin: 1em 2em; font-size: 0.95em; }
html blockquote p { text-indent: 0; }

/* No sideways in a paginated reader: code wraps, never scrolls. */
html pre, html code, html kbd, html samp { font-family: "IBM Plex Mono", monospace; }
html pre {
  white-space: pre-wrap;
  overflow-wrap: break-word;
  font-size: 0.9em;
  line-height: 1.45;
  text-align: left;
  hyphens: none;
  padding: 0.8em 1em;
  margin: 1.2em 0;
  border-radius: 6px;
  background: rgba(127, 127, 127, 0.12);
}
html code { font-size: 0.9em; }

html img,
html svg {
  display: block;
  margin: 1.2em auto;
  max-width: 100%;
  max-height: 85vh;
}
html figure { margin: 1.4em 0; }
html figcaption {
  font-size: 0.85em;
  color: #96785f;
  text-align: center;
  text-indent: 0;
  hyphens: none;
}

html ul, html ol { margin: 1em 0; padding-left: 1.6em; }
html li { text-indent: 0; margin: 0.3em 0; }

html table {
  border-collapse: collapse;
  margin: 1.4em 0;
  font-size: 0.9em;
  text-align: left;
  hyphens: none;
}
html th,
html td {
  border-bottom: 1px solid rgba(127, 127, 127, 0.3);
  padding: 0.45em 0.7em;
  text-indent: 0;
}
html th { font-weight: 600; }

html a { color: inherit; text-decoration-color: #96785f; }
html hr {
  border: 0;
  border-top: 1px solid rgba(127, 127, 127, 0.3);
  margin: 2em auto;
  width: 30%;
}
html sup, html sub { line-height: 0; }
"##;
    assert_eq!(ReadingStyle::default().stylesheet(), expected);
}

#[test]
fn font_scale_is_clamped() {
    let s = ReadingStyle { theme: Theme::White, scale: 99_000 };
    assert_eq!(s.font_px(), 32_000);
    let s = ReadingStyle { theme: Theme::White, scale: 10 };
    assert_eq!(s.font_px(), 16_000);
}

#[test]
fn stylesheet_reflects_theme_and_scale() {
    let s = ReadingStyle { theme: Theme::Night, scale: 1_200 };
    let css = s.stylesheet();
    assert!(css.contains("#141416"), "night background missing");
    assert!(css.contains("font-size: 24px"), "scale not applied");
}

#[test]
fn themes_come_round_and_keep_their_names() {
    assert_eq!(Theme::White.next(), Theme::Sepia);
    assert_eq!(Theme::Night.next(), Theme::White);
    assert_eq!(Theme::Grey.name(), "grey");
    assert_eq!(Theme::Night.background_rgb(), [0x14, 0x14, 0x16]);
}

#[test]
fn markup_without_css_is_kept_whole() {
    let html = "<html><body><p>text</p></body></html>";
    assert_eq!(strip_publisher_css(html), html);
}
