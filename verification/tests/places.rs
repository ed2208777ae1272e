use omaread::places::is_note;

#[test]
fn a_short_block_is_a_note_and_a_section_is_a_place() {
    assert!(is_note("p", "1. Ibíd., p. 233."), "a bibliography entry");
    assert!(is_note("aside", "A footnote, as EPUB 3 would write one."));
    assert!(is_note("li", "Postman, N., Amusing Ourselves to Death, 1985."));

    assert!(!is_note("h2", "Capítulo 4"));
    assert!(!is_note("section", "Capítulo 4"));
    assert!(!is_note("div", &"palabra ".repeat(200)));
    assert!(!is_note("p", "   "));
}
