use omaread::grid::escape;
use omaread::search::{fold, fts_query, text_of_html};

#[test]
fn tags_become_word_breaks_and_inline_tags_do_not() {
    assert_eq!(text_of_html("<p>one</p><p>two</p>"), "one two");
    assert_eq!(text_of_html("<p>sur<em>real</em>ism</p>"), "surrealism");
    assert_eq!(text_of_html("a<br/>b"), "a b");
}

#[test]
fn script_style_and_comments_are_not_prose() {
    assert_eq!(text_of_html("<p>a</p><script>var x = 1 < 2;</script><p>b</p>"), "a b");
    assert_eq!(text_of_html("<style>p{color:red}</style><p>c</p>"), "c");
    assert_eq!(text_of_html("<p>a<!-- <b>hidden</b> -->b</p>"), "ab");
    assert_eq!(text_of_html("<p><![CDATA[raw <stuff>]]>x</p>"), "x");
}

#[test]
fn entities_and_whitespace_are_normalised() {
    assert_eq!(text_of_html("<p>caf&#233; &amp; cr&#xE8;me</p>"), "café & crème");
    assert_eq!(text_of_html("<p>a\n\n   \t b</p>"), "a b");
    assert_eq!(text_of_html("<p>ma&shy;ñana</p>"), "mañana");
    assert_eq!(text_of_html("<p>&frac12; x</p>"), "&frac12; x");
}

#[test]
fn written_out_spaces_are_collapsed_too() {
    assert_eq!(text_of_html("<p>a &nbsp;b</p>"), "a b");
    assert_eq!(text_of_html("<p>&nbsp;&#32;a&#10;&#9;b&nbsp;</p>"), "a b");
    assert_eq!(text_of_html("<p>&nbsp;</p>"), "");
}

#[test]
fn the_values_of_attributes_are_not_prose() {
    assert_eq!(text_of_html("<p title=\"a > b\">uno</p><img alt='x > \"y\"'/>dos"), "uno dos");
    // A value that never closes ends with its tag.
    assert_eq!(text_of_html("<p class=\"x>uno</p>"), "uno");
    assert_eq!(text_of_html("<!DOCTYPE html><p>1 < 2 > \"3\"</p>"), "1 \"3\"");
}

#[test]
fn folding_keeps_what_is_said_piece_by_piece() {
    let (a, b) = ("Coneixença", " ΑΒΓ İ");
    assert_eq!(fold(&format!("{a}{b}")), format!("{}{}", fold(a), fold(b)));
    assert!(fold(&format!("{a}{b}")).contains(&fold("xENÇA")));
}

#[test]
fn unterminated_markup_does_not_lose_everything() {
    assert_eq!(text_of_html("<p>kept</p><p class=\"x"), "kept");
    assert_eq!(text_of_html("plain, no tags"), "plain, no tags");
}

#[test]
fn folding_matches_how_people_type() {
    assert_eq!(fold("Canción"), "cancion");
    assert_eq!(fold("MAÑANA"), "manana");
    assert_eq!(fold("Coneixença"), "coneixenca");
    assert!(fold("ma\u{00ad}ñana").contains("ma nana"));
}

#[test]
fn queries_are_quoted_and_prefix_matched() {
    assert_eq!(fts_query("resonancia"), Some("\"resonancia\"*".into()));
    assert_eq!(fts_query("la metáfora"), Some("\"la\" \"metáfora\"*".into()));
    assert_eq!(fts_query("NEAR(a b)"), Some("\"NEAR\" \"a\" \"b\"*".into()));
    assert_eq!(fts_query("\"quoted\""), Some("\"quoted\"*".into()));
    assert_eq!(fts_query("a AND* b"), Some("\"a\" \"AND\" \"b\"*".into()));
    assert_eq!(fts_query("   "), None);
    assert_eq!(fts_query("!!!"), None);
}

#[test]
fn code_points_that_are_no_character_are_kept_as_written() {
    assert_eq!(text_of_html("&#xD800; x"), "&#xD800; x");
    assert_eq!(text_of_html("&#65;&#x42;"), "AB");
}

#[test]
fn folding_lowers_letters_that_are_not_latin() {
    assert_eq!(fold("ΑΒΓ"), "αβγ");
}

#[test]
fn matches_are_counted_in_characters() {
    let text = "La señal y la canción";
    assert_eq!(omaread::search::char_match(text, " CANCION "), Some((14, 7)));
    assert_eq!(omaread::search::char_match(text, "senal"), Some((3, 5)));
    assert_eq!(omaread::search::char_match(text, "nada"), None);
    // Marked breaks are part of what is matched, and do not stop a match.
    let marked = "la re\u{ad}so\u{ad}nan\u{ad}cia.";
    assert_eq!(omaread::search::char_match(marked, "RESONANCIA"), Some((3, 13)));
    assert_eq!(omaread::search::char_match(marked, "onan"), Some((7, 5)));
    assert_eq!(omaread::search::char_match(text, "  "), None);
}

#[test]
fn extraction_undoes_escaping() {
    let said = "a < b & \"c\" > 'd' — &amp; not &#39;";
    assert_eq!(text_of_html(&escape(said)), said);
    assert_eq!(text_of_html(&escape(" <i>one</i>\n\ntwo  ")), "<i>one</i> two");
}

#[test]
fn plain_text_is_left_as_it_is() {
    assert_eq!(text_of_html("uno dos; tres > 2"), "uno dos; tres > 2");
    assert_eq!(text_of_html(""), "");
}

#[test]
fn folding_any_character_twice_changes_nothing_more() {
    for c in '\0'..=char::MAX {
        let once = fold(&c.to_string());
        assert_eq!(fold(&once), once, "{c:?}");
    }
}
