use omaread::paginate::{paginate, Atom, AtomKind, Pages, ORPHANS, WIDOWS};

fn px(x: f32) -> i64 {
    (x * 1000.0) as i64
}

/// `count` lines of `h` px starting at `start`, all one paragraph.
fn para(group: usize, start: f32, h: f32, count: usize) -> Vec<Atom> {
    (0..count)
        .map(|i| Atom {
            top: px(start + i as f32 * h),
            bottom: px(start + (i as f32 + 1.0) * h),
            group,
            kind: AtomKind::Line,
            keep_with_next: false,
        })
        .collect()
}

fn is_legal(atoms: &[Atom], y: i64) -> bool {
    !atoms.iter().any(|a| a.splits(y))
}

#[test]
fn extent_is_the_distance_to_the_next_page_not_the_nominal_height() {
    let pages = Pages {
        tops: vec![px(0.0), px(872.0), px(1744.0)],
        page_height: px(900.0),
        content_height: px(2500.0),
    };
    assert_eq!(pages.extent_of(0), px(872.0), "a break snaps up, so a page ends short");
    assert_eq!(pages.extent_of(1), px(872.0));
    assert_eq!(pages.extent_of(2), px(756.0));
}

#[test]
fn extent_never_exceeds_the_page_height() {
    let pages = Pages { tops: vec![px(0.0)], page_height: px(900.0), content_height: px(5000.0) };
    assert_eq!(pages.extent_of(0), px(900.0));
}

#[test]
fn rows_overlapping_by_a_rounding_pixel_still_break_cleanly() {
    let mut atoms = Vec::new();
    let mut y = 0.0f32;
    for _ in 0..30 {
        let h = 480.0;
        atoms.push(Atom {
            top: px(y),
            bottom: px(y + h + 1.0),
            group: 9,
            kind: AtomKind::Row,
            keep_with_next: false,
        });
        y += h;
    }
    let pages = paginate(&atoms, px(y), px(900.0));
    assert!(pages.count() > 5);
    for (n, &t) in pages.tops.iter().enumerate() {
        assert!(is_legal(&atoms, t), "page {n} top {t} splits a row");
    }
}

#[test]
fn no_page_break_cuts_a_line() {
    let atoms = para(1, 0.0, 32.0, 100);
    let pages = paginate(&atoms, px(3200.0), px(500.0));
    assert!(pages.count() > 1);
    for &t in &pages.tops {
        assert!(is_legal(&atoms, t), "page starts mid-line at {t}");
    }
}

#[test]
fn pages_advance_and_cover_the_flow() {
    let atoms = para(1, 0.0, 32.0, 100);
    let pages = paginate(&atoms, px(3200.0), px(500.0));
    for w in pages.tops.windows(2) {
        assert!(w[1] > w[0], "pages must advance: {:?}", pages.tops);
        assert!(w[1] - w[0] <= px(500.0), "page taller than the viewport");
    }
    let last = *pages.tops.last().unwrap();
    assert!(last < px(3200.0), "a page starts past the end of the flow");
}

#[test]
fn a_heading_is_never_stranded_at_the_foot_of_a_page() {
    let mut atoms = para(1, 0.0, 32.0, 15);
    atoms.push(Atom {
        top: px(480.0),
        bottom: px(520.0),
        group: 2,
        kind: AtomKind::Line,
        keep_with_next: true,
    });
    atoms.extend(para(3, 520.0, 32.0, 40));

    let pages = paginate(&atoms, px(1800.0), px(500.0));
    assert_eq!(
        pages.tops[1],
        px(480.0),
        "the break should fall before the heading, got {:?}",
        pages.tops
    );
}

#[test]
fn orphans_and_widows_are_respected() {
    let atoms = para(1, 0.0, 30.0, 200);
    let pages = paginate(&atoms, px(6000.0), px(300.0));

    for i in 1..pages.count() {
        let y = pages.tops[i];
        let above = atoms.iter().filter(|a| a.group == 1 && a.bottom <= y).count();
        let below = atoms.iter().filter(|a| a.group == 1 && a.top >= y).count();
        assert!(above >= ORPHANS, "orphan at page {i}: only {above} lines above");
        assert!(below >= WIDOWS, "widow at page {i}: only {below} lines below");
    }
}

#[test]
fn a_short_paragraph_is_never_split() {
    let mut atoms = para(1, 0.0, 30.0, 16);
    atoms.extend(para(2, 480.0, 30.0, 3));
    atoms.extend(para(3, 570.0, 30.0, 40));

    let pages = paginate(&atoms, px(1800.0), px(500.0));
    let y = pages.tops[1];
    let split = atoms.iter().any(|a| a.group == 2 && a.bottom <= y)
        && atoms.iter().any(|a| a.group == 2 && a.top >= y);
    assert!(!split, "3-line paragraph was split at {y}");
}

#[test]
fn table_rows_split_between_bands() {
    let atoms: Vec<Atom> = (0..40)
        .map(|i| Atom {
            top: px(i as f32 * 74.0),
            bottom: px((i as f32 + 1.0) * 74.0),
            group: 7,
            kind: AtomKind::Row,
            keep_with_next: false,
        })
        .collect();

    let pages = paginate(&atoms, px(2960.0), px(800.0));
    assert!(pages.count() > 1);
    for &t in &pages.tops {
        assert!(is_legal(&atoms, t), "break cuts a table row at {t}");
    }
}

#[test]
fn an_atom_taller_than_a_page_still_advances() {
    let atoms = vec![Atom {
        top: px(0.0),
        bottom: px(900.0),
        group: 1,
        kind: AtomKind::Block,
        keep_with_next: false,
    }];
    let pages = paginate(&atoms, px(900.0), px(500.0));
    assert!(pages.count() >= 2, "pagination stalled on an oversized atom");
    for w in pages.tops.windows(2) {
        assert!(w[1] > w[0]);
    }
}

#[test]
fn a_group_spanning_many_pages_never_gets_cut() {
    let mut atoms = vec![Atom {
        top: px(0.0),
        bottom: px(40.0),
        group: 1,
        kind: AtomKind::Line,
        keep_with_next: true,
    }];
    atoms.extend(para(2, 40.0, 29.0, 400));

    let pages = paginate(&atoms, px(11640.0), px(500.0));
    assert!(pages.count() > 20, "expected many pages, got {}", pages.count());
    for (n, &t) in pages.tops.iter().enumerate() {
        assert!(is_legal(&atoms, t), "page {n} top {t} cuts a line");
    }
    for w in pages.tops.windows(2) {
        assert!(w[1] > w[0], "pages stopped advancing");
    }
}

#[test]
fn empty_flow_is_one_page() {
    let pages = paginate(&Vec::new(), px(0.0), px(500.0));
    assert_eq!(pages.count(), 1);
    assert_eq!(pages.tops, vec![px(0.0)]);
}

#[test]
fn page_containing_maps_offsets_back() {
    let atoms = para(1, 0.0, 32.0, 100);
    let pages = paginate(&atoms, px(3200.0), px(500.0));
    assert_eq!(pages.page_containing(px(0.0)), 0);
    let second = pages.tops[1];
    assert_eq!(pages.page_containing(second), 1);
    assert_eq!(pages.page_containing(second - px(1.0)), 0);
    assert_eq!(pages.page_containing(i64::MAX), pages.count() - 1);
}

#[test]
fn atoms_need_not_be_sorted() {
    let sorted = para(1, 0.0, 32.0, 100);
    let mut mixed = sorted.clone();
    mixed.reverse();
    assert_eq!(
        paginate(&mixed, px(3200.0), px(500.0)).tops,
        paginate(&sorted, px(3200.0), px(500.0)).tops
    );
}

#[test]
fn a_page_that_is_not_there_starts_at_the_head() {
    let pages = paginate(&para(1, 0.0, 32.0, 100), px(3200.0), px(500.0));
    assert_eq!(pages.top_of(9999), 0);
}
