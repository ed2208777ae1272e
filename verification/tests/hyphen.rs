use omaread::hyphen::{language_of, mark_html, mark_word, Hyphenator_, Lang, SOFT};

fn es() -> Hyphenator_ {
    Hyphenator_::for_language("es").expect("Spanish patterns")
}

#[test]
fn breaks_spanish_words() {
    let h = es();
    let out = h.mark("predicadora");
    assert!(out.contains(SOFT), "no break points in {out:?}");
    assert_eq!(out.replace(SOFT, ""), "predicadora");
}

#[test]
fn short_words_are_left_alone() {
    let h = es();
    for w in ["de", "la", "los", "casa"] {
        assert_eq!(h.mark(w), w, "{w} was hyphenated");
    }
}

#[test]
fn punctuation_and_spacing_survive() {
    let h = es();
    let src = "«Los dunkers», oficialmente denominado —Iglesia—.";
    let out = h.mark(src);
    assert_eq!(out.replace(SOFT, ""), src);
}

#[test]
fn unknown_languages_get_nothing() {
    assert!(Hyphenator_::for_language("ja").is_none());
    assert!(Hyphenator_::for_language("").is_none());
    assert!(Hyphenator_::for_language("es-ES").is_some(), "region tags should work");
}

#[test]
fn markup_is_never_touched() {
    let h = es();
    let html = r#"<p class="predicadora">predicadora evangelista</p>"#;
    let out = mark_html(html, &h);
    assert!(out.contains(r#"class="predicadora""#), "attribute was hyphenated: {out}");
    assert!(out.contains(SOFT), "body text was not hyphenated");
    assert_eq!(out.replace(SOFT, ""), html);
}

#[test]
fn attribute_values_and_comments_are_never_touched() {
    let h = es();
    for markup in ["<img alt=\"uno > predicadora\"/>", "<a title='>predicadora<'>", "<!-- x > predicadora <b> -->"] {
        let out = mark_html(&format!("{markup}predicadora"), &h);
        assert!(out.starts_with(markup), "{out}");
        assert_eq!(out, format!("{markup}{}", h.mark("predicadora")));
    }
}

#[test]
fn code_and_pre_are_skipped() {
    let h = es();
    let html = "<p>predicadora</p><pre>predicadora ejemplo</pre><p>predicadora</p>";
    let out = mark_html(html, &h);
    let pre = &out[out.find("<pre>").unwrap()..out.find("</pre>").unwrap()];
    assert!(!pre.contains(SOFT), "pre was hyphenated: {pre:?}");
    assert_eq!(out.matches(SOFT).count() > 0, true);
    assert_eq!(out.replace(SOFT, ""), html);
}

#[test]
fn entities_are_not_split() {
    let h = es();
    let html = "<p>predicadora &amp; evangelista &#8212; final</p>";
    let out = mark_html(html, &h);
    assert!(out.contains("&amp;"), "entity broken: {out}");
    assert!(out.contains("&#8212;"), "numeric entity broken: {out}");
    assert_eq!(out.replace(SOFT, ""), html);
}

#[test]
fn unterminated_markup_does_not_lose_text() {
    let h = es();
    let html = "<p>predicadora <em>evangelista";
    let out = mark_html(html, &h);
    assert_eq!(out.replace(SOFT, ""), html);
}

#[test]
fn breaks_fall_where_the_patterns_say() {
    let word: Vec<char> = "predicadora".chars().collect();
    let out: String = mark_word(&word, &[3, 5]).into_iter().collect();
    assert_eq!(out, "pre\u{ad}di\u{ad}cadora");
    let en = Hyphenator_::for_language("en-US").expect("English patterns");
    assert_eq!(en.mark("hyphenation").replace(SOFT, "-"), "hy-phen-a-tion");
}

#[test]
fn languages_are_told_by_their_first_subtag() {
    assert!(matches!(language_of("es-MX"), Some(Lang::Spanish)));
    assert!(matches!(language_of("CA"), Some(Lang::Catalan)));
    assert!(language_of("tlh").is_none());
}

#[test]
fn letters_beyond_ascii_are_part_of_a_word() {
    let h = es();
    let out = h.mark("comunicación");
    assert!(out.contains(SOFT), "{out:?}");
    assert_eq!(out.replace(SOFT, ""), "comunicación");
}

#[test]
fn every_language_wired_up_has_patterns() {
    for tag in ["en", "ES", "ca-ES", "pt_BR", "fr", "de", "it"] {
        assert!(Hyphenator_::for_language(tag).is_some(), "{tag}");
    }
}
