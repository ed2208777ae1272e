use omaread::library::{
    canonical_name, expand_home, folders, folders_file, folders_text, is_epub, is_under, library_copy,
    pick_cover, sanitize, seed_folders, shrink_cover, COVER_MAX_W,
};

#[test]
fn canonical_names_are_filesystem_safe() {
    assert_eq!(
        canonical_name("Postman, Neil", "Divertirse hasta morir"),
        "Postman, Neil - Divertirse hasta morir.epub"
    );
    assert_eq!(canonical_name("", "Solo"), "Solo.epub");
    assert_eq!(canonical_name("A", ""), "Untitled.epub");
    let n = canonical_name("a/b\\c", "d:e*f?\"g<h>i|j");
    assert!(!n.contains(['/', '\\', ':', '*', '?', '"', '<', '>', '|']), "{n}");
    assert_eq!(canonical_name("  A   B ", " T   U "), "A B - T U.epub");
}

#[test]
fn long_names_stay_within_filesystem_limits() {
    let n = canonical_name(&"a".repeat(300), &"b".repeat(300));
    assert!(n.len() <= 190, "name too long: {}", n.len());
    assert!(n.ends_with(".epub"));
}

#[test]
fn only_epubs_are_picked_up() {
    assert!(is_epub("/x/a.epub"));
    assert!(is_epub("/x/a.EPUB"));
    assert!(!is_epub("/x/a.pdf"));
    assert!(!is_epub("/x/epub"));
}

#[test]
fn control_characters_do_not_reach_a_file_name() {
    assert_eq!(sanitize("a\u{0}b\tc"), sanitize("a b c"));
}

#[test]
fn folder_lists_come_back_as_they_were_set() {
    let dirs = vec!["/home/me/Books".to_string(), "/mnt/more".to_string()];
    let text = folders_text(&dirs);
    assert!(text.starts_with('#'), "{text}");
    assert_eq!(folders(&text, Some("/home/me")), dirs);
}

#[test]
fn folder_lists_skip_blank_lines_and_comments() {
    let text = "# watched\n\n  ~/Books  \n/mnt/more\n";
    assert_eq!(folders(text, Some("/home/me")), ["/home/me/Books", "/mnt/more"]);
    assert_eq!(seed_folders(Some("/home/me")), ["/home/me/Documents", "/home/me/Downloads"]);
}

#[test]
fn a_tilde_is_the_home_directory() {
    assert_eq!(expand_home("~/x", Some("/home/me")), "/home/me/x");
    assert_eq!(expand_home("/x", Some("/home/me")), "/x");
}

#[test]
fn files_are_where_the_user_keeps_them() {
    assert_eq!(folders_file(Some("/cfg"), Some("/home/me")), "/cfg/omaread/folders.txt");
    assert_eq!(folders_file(None, Some("/home/me")), "/home/me/.config/omaread/folders.txt");
    assert_eq!(library_copy("/lib", "A", "T"), "/lib/A - T.epub");
    assert!(is_under("/lib/A - T.epub", "/lib"));
    assert!(!is_under("/library/x.epub", "/lib"));
}

#[test]
fn a_leading_dot_is_part_of_a_path() {
    assert!(!is_under("omaread/x.epub", "./omaread"));
    assert!(!is_under("./omaread/x.epub", "omaread"));
    assert!(is_under("./omaread/./x.epub", "./omaread"));
    assert!(is_under("/./lib//x.epub", "/lib/."));
    for (path, dir) in [("./a/b", "a"), ("a/./b", "a"), ("././a", "./a"), ("/./a", "/a"), ("a", ""), (".", "")] {
        assert_eq!(is_under(path, dir), std::path::Path::new(path).starts_with(dir), "{path} {dir}");
    }
    assert!(is_epub("./x.epub"));
    assert!(!is_epub("."));
    assert!(!is_epub("./."));
}

#[test]
fn names_are_short_in_bytes_too() {
    let n = canonical_name("", &"€".repeat(300));
    assert_eq!(n, format!("{}.epub", "€".repeat(83)));
    let n = canonical_name(&"𝔸".repeat(40), &"é".repeat(300));
    assert!(n.len() <= 255 && n.len() > 250, "{}", n.len());
    // The cut never leaves a dot or a space behind.
    let n = canonical_name("", &format!("{} .{}", "€".repeat(82), "€".repeat(20)));
    assert_eq!(n, format!("{}.epub", "€".repeat(82)));
}

#[test]
fn a_wide_cover_is_shrunk_and_a_small_one_kept() {
    assert_eq!(pick_cover(vec![1, 2], None, None), vec![1, 2]);
    assert_eq!(pick_cover(vec![1, 2, 3], Some(COVER_MAX_W + 1), Some(vec![9])), vec![9]);
    assert_eq!(pick_cover(vec![1, 2, 3], Some(COVER_MAX_W + 1), None), vec![1, 2, 3]);
    assert_eq!(pick_cover(vec![1, 2, 3], Some(10), Some(vec![9])), vec![1, 2, 3]);
}

#[test]
fn a_cover_goes_through_the_image_codecs() {
    let mut wide = std::io::Cursor::new(Vec::new());
    image::DynamicImage::new_rgb8(COVER_MAX_W * 2, 40)
        .write_to(&mut wide, image::ImageFormat::Png)
        .unwrap();
    let small = shrink_cover(wide.into_inner());
    let back = image::load_from_memory(&small).expect("a shrunk cover is an image");
    assert_eq!(back.width(), COVER_MAX_W);
    assert_eq!(&small[..2], [0xff, 0xd8], "a JPEG");

    // What is transparent shows white, whatever colour it has.
    let mut clear = image::RgbaImage::from_pixel(COVER_MAX_W * 2, 40, image::Rgba([0, 0, 0, 0]));
    for y in 0..40 {
        for x in 0..COVER_MAX_W {
            clear.put_pixel(x, y, image::Rgba([200, 0, 0, 255]));
        }
    }
    let mut png = std::io::Cursor::new(Vec::new());
    image::DynamicImage::ImageRgba8(clear).write_to(&mut png, image::ImageFormat::Png).unwrap();
    let back = image::load_from_memory(&shrink_cover(png.into_inner())).unwrap().to_rgb8();
    let at = |x: u32| back.get_pixel(x, 10).0;
    assert!(at(COVER_MAX_W - 20).iter().all(|c| *c > 245), "{:?}", at(COVER_MAX_W - 20));
    assert!(at(20)[0] > 180 && at(20)[1] < 25 && at(20)[2] < 25, "{:?}", at(20));

    let mut narrow = std::io::Cursor::new(Vec::new());
    image::DynamicImage::new_rgb8(10, 10)
        .write_to(&mut narrow, image::ImageFormat::Png)
        .unwrap();
    let bytes = narrow.into_inner();
    assert_eq!(shrink_cover(bytes.clone()), bytes);
    assert_eq!(shrink_cover(b"no image".to_vec()), b"no image");
}
