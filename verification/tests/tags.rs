use omaread::readout::{counts_text, read_counts};
use omaread::tags::all_tags;

fn tags(names: &[&str]) -> Vec<String> {
    names.iter().map(|n| n.to_string()).collect()
}

fn offered(names: &[&str], typed: &str) -> Vec<String> {
    all_tags(&tags(names), typed).into_iter().map(|(tag, n)| format!("{tag} {n}")).collect()
}

#[test]
fn the_tags_most_used_are_offered_first() {
    let used = ["poesia", "ensayo", "viajes", "ensayo", "sci-fi", "ensa", "viajes"];
    assert_eq!(
        offered(&used, ""),
        ["#ensayo 2 books", "#viajes 2 books", "#ensa 1 book", "#poesia 1 book", "#sci-fi 1 book"]
    );
    assert_eq!(offered(&used, "#Ens"), ["#ensayo 2 books", "#ensa 1 book"]);
    assert_eq!(offered(&used, "Sci Fi"), ["#sci-fi 1 book"]);
    assert!(offered(&used, "zz").is_empty());
    assert_eq!(offered(&["b", "ña", "z", "a"], ""), ["#a 1 book", "#b 1 book", "#z 1 book", "#ña 1 book"]);
}

#[test]
fn page_counts_are_read_back_as_written() {
    assert_eq!(counts_text(&[3, 0, 12]), "3 0 12");
    assert_eq!(read_counts("3 0 12", 3), Some(vec![3, 0, 12]));
    assert_eq!(read_counts(" 3\n0 +12 ", 3), Some(vec![3, 0, 12]));
    assert_eq!(read_counts("3 0 12", 2), None, "of another book");
    assert_eq!(read_counts("3 x", 2), None);
    assert_eq!(read_counts(&counts_text(&[usize::MAX]), 1), Some(vec![usize::MAX]));
    assert_eq!((counts_text(&[]), read_counts("", 0)), (String::new(), Some(vec![])));
}
