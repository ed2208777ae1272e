use omaread::cfi::Cfi;

#[test]
fn round_trips_through_a_string() {
    let c = Cfi { spine: 6, steps: vec![4, 2, 6], offset: None };
    let s = c.to_string();
    assert_eq!(s, "epubcfi(/6/14!/4/2/6)");
    assert_eq!(Cfi::parse(&s), Some(c));
}

#[test]
fn parses_a_character_offset() {
    let c = Cfi::parse("epubcfi(/6/14!/4/2/1:341)").unwrap();
    assert_eq!(c.spine, 6);
    assert_eq!(c.steps, vec![4, 2, 1]);
    assert_eq!(c.offset, Some(341));
    assert_eq!(c.to_string(), "epubcfi(/6/14!/4/2/1:341)");
}

#[test]
fn rejects_junk() {
    for bad in [
        "",
        "epubcfi()",
        "epubcfi(/6/14)",
        "epubcfi(/6/0!/4)",
        "epubcfi(/6/14!/x/2)",
        "epubcfi(/6/14!)",
        "/6/14!/4/2",
        "epubcfi(/6/14!/4/2:abc)",
    ] {
        assert!(Cfi::parse(bad).is_none(), "accepted junk: {bad:?}");
    }
}

#[test]
fn spine_index_survives_the_round_trip() {
    for spine in [0usize, 1, 9, 130] {
        let c = Cfi { spine, steps: vec![4], offset: None };
        assert_eq!(Cfi::parse(&c.to_string()).unwrap().spine, spine);
    }
}

#[test]
fn a_number_too_large_for_a_step_is_junk() {
    assert!(Cfi::parse("epubcfi(/6/14!/4/99999999999999999999999)").is_none());
    assert!(Cfi::parse("epubcfi(/6/99999999999999999999999!/4)").is_none());
}
