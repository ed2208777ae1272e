use omaread::net::{book_resource, cover_resource, in_archive_path, percent_decode};

#[test]
fn resolves_normal_paths() {
    assert_eq!(in_archive_path("/OEBPS/ch01.html").as_deref(), Some("/OEBPS/ch01.html"));
    assert_eq!(in_archive_path("OEBPS/./assets/x.png").as_deref(), Some("/OEBPS/assets/x.png"));
    assert_eq!(in_archive_path("/OEBPS/a/../b.png").as_deref(), Some("/OEBPS/b.png"));
}

#[test]
fn percent_decodes() {
    assert_eq!(in_archive_path("/OEBPS/a%20b.png").as_deref(), Some("/OEBPS/a b.png"));
}

#[test]
fn rejects_traversal_and_junk() {
    assert_eq!(in_archive_path("/../etc/passwd"), None);
    assert_eq!(in_archive_path("/OEBPS/../../etc/passwd"), None);
    assert_eq!(in_archive_path("/%2e%2e/%2e%2e/etc/passwd"), None);
    assert_eq!(in_archive_path("/"), None);
    assert_eq!(in_archive_path("/OEBPS/a\\b.png"), None);
}

#[test]
fn bytes_that_are_no_text_are_replaced() {
    assert_eq!(percent_decode("a%FFb"), "a\u{fffd}b");
    assert_eq!(percent_decode("caf%C3%A9"), "café");
    assert_eq!(percent_decode("100%"), "100%");
    assert_eq!(percent_decode("%zz"), "%zz");
}

#[test]
fn only_the_own_origins_are_served() {
    assert_eq!(book_resource("omaread-book", "/OEBPS/x.png").as_deref(), Some("/OEBPS/x.png"));
    assert_eq!(book_resource("https", "/OEBPS/x.png"), None);
    assert_eq!(book_resource("omaread-book", "/../x.png"), None);
    assert_eq!(cover_resource("omaread-cover", "/abc").as_deref(), Some("abc"));
    assert_eq!(cover_resource("omaread-book", "/abc"), None);
}

#[test]
fn a_normal_path_is_its_own_normal_form() {
    for path in ["OEBPS/./a/../b.png", "a//b", "/x/y/../../z", "/a b/ç.html"] {
        let normal = in_archive_path(path).unwrap();
        assert_eq!(in_archive_path(&normal).as_deref(), Some(normal.as_str()));
    }
}
