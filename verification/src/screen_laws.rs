//! What holds of the window: what it says, where a press lands and what is asked of a
//! picture of it.
use crate::book::TocEntry;
use crate::chapter::located;
use crate::check::{cut_places, dangles, dangling_to};
use crate::db::BookRow;
use crate::dom::{abs_y, gives, indexed_to, Dom, Node, Rect};
use crate::grid::{cover_markup, escaped, tag_line};
use crate::marks::plural_text;
use crate::paginate::{law_page_containing_maps_offsets_back, Atom, Pages};
use crate::paint::{on_page, shown_bands, Area, Frame, Icon};
use crate::places_laws::{descending, lemma_found};
use crate::readout::{
    numbered, readout_text, rounded_percent, subtitle_text, sum_to, way_back, TocMode,
};
use crate::screen::{anchor, eased_at, in_flow, page_room, rounded, slice_of, span_of};
use crate::search::folded;
use crate::settings::{entry, scale_text};
use crate::shot::{chapter_in, page_in, theme_in};
use crate::style::Theme;
use crate::tags::{completion, counted, in_use, times};
use crate::text::{byte_at, bytes_len, decimal, lemma_spot_is, trimmed};
use crate::toc::{indent, indent_rule};
use vstd::prelude::*;

verus! {

/// The reader is told the page, where pages were counted and are asked for, else the
/// share that is read.
pub proof fn law_the_reader_is_told_how_far(page: usize, pages: usize, percent: nat)
    ensures
        readout_text(true, Some((page, pages)), percent) == "page "@ + decimal(page as nat) + " of "@
            + decimal(pages as nat),
        readout_text(false, Some((page, pages)), percent) == decimal(percent) + "%"@,
        readout_text(true, None, percent) == decimal(percent) + "%"@,
        readout_text(false, None, percent) == decimal(percent) + "%"@,
{
}

/// The way back says where it leads: to the page, where pages were counted, else to
/// the share that was read.
pub proof fn law_the_way_back_says_where_it_leads(page: usize, percent: nat)
    ensures
        way_back(Some(page), percent) == "Back to page "@ + decimal(page as nat),
        way_back(None, percent) == "Back to "@ + decimal(percent) + "%"@,
{
}

/// A list says how many it has, one hit or bookmark as one, and a note that is being
/// typed is shown as it stands.
pub proof fn law_a_list_says_what_it_has(
    title: Seq<char>,
    find: Seq<char>,
    typed: Seq<char>,
    n: nat,
)
    requires
        n != 1,
    ensures
        subtitle_text(TocMode::Contents, title, find, None, n) == title,
        subtitle_text(TocMode::Search, title, find, None, n) == "“"@ + find + "” — "@ + decimal(n)
            + " hit"@ + "s"@ + " in this book"@,
        subtitle_text(TocMode::Search, title, find, None, 1) == "“"@ + find + "” — "@ + decimal(1)
            + " hit"@ + ""@ + " in this book"@,
        subtitle_text(TocMode::Marks, title, find, None, n) == decimal(n) + " bookmark"@ + "s"@
            + " and highlights"@,
        subtitle_text(TocMode::Marks, title, find, None, 1) == decimal(1) + " bookmark"@ + ""@
            + " and highlights"@,
        subtitle_text(TocMode::Marks, title, find, Some(typed), n) == "note: "@ + typed + "|"@,
{
}

/// A press is read where the page shows it: a point of the flow that a column shows is
/// found under the place it is shown at.
pub proof fn law_a_press_is_read_where_it_is_shown(
    x: int,
    y: int,
    column: int,
    columns: int,
    css_width: int,
    page: int,
    tops: Seq<i64>,
    margin: int,
)
    requires
        columns == 1 || columns == 2,
        0 <= column < columns,
        0 <= x < css_width / columns,
        0 <= page,
        page + column < tops.len(),
    ensures
        in_flow(
            x + column * (css_width / columns),
            y - tops[page + column] + margin,
            css_width,
            columns,
            page,
            tops,
            margin,
        ) == (x, y),
{
    if column == 0 {
        assert(0 * (css_width / columns) == 0);
    } else {
        assert(1 * (css_width / columns) == css_width / columns);
    }
}

/// The settings hang ten pixels below their gear and ten to its left, as far as the
/// window's edges leave room.
pub proof fn law_the_settings_hang_below_their_gear(
    gear: Rect,
    css_width: int,
    menu_width: int,
    margin: int,
)
    requires
        css_width - menu_width >= 56_000,
    ensures
        ({
            let (left, top) = anchor(gear, css_width, menu_width, margin);
            &&& top == gear.y + gear.height + margin + 10_000
            &&& 28_000 <= left && left + menu_width + 28_000 <= css_width
            &&& 28_000 <= gear.x - 10_000 && gear.x - 10_000 + menu_width + 28_000 <= css_width
                ==> left == gear.x - 10_000
        }),
{
}

/// A page is as high as the window without its two margins, and never less than a
/// pixel.
pub proof fn law_pages_fill_the_window(css_height: int, margin: int)
    ensures
        css_height - 2 * margin >= 1000 ==> page_room(css_height, margin) + 2 * margin == css_height,
        css_height - 2 * margin < 1000 ==> page_room(css_height, margin) == 1000,
{
}

/// The numbers of the rows that a page shows are a span: it begins with the first and
/// ends behind the last.
pub proof fn law_rows_in_order_are_a_span(rows: Seq<int>, i: int)
    requires
        0 <= i < rows.len(),
        forall|j: int, k: int| 0 <= j < k < rows.len() ==> rows[j] < rows[k],
    ensures
        span_of(rows).0 == rows[0],
        span_of(rows).1 == rows[rows.len() - 1] + 1,
        span_of(rows).0 <= rows[i] < span_of(rows).1,
        span_of(Seq::empty()) == (0int, 0int),
{
}

/// A page shows the rows that start on it, from a pixel above its top to its foot, and
/// no others.
pub proof fn law_a_page_shows_the_rows_that_start_on_it(
    tops: Seq<(int, int)>,
    top: int,
    bottom: int,
    row: int,
)
    ensures
        crate::screen::on_page(tops, top, bottom).contains(row) <==> exists|i: int|
            0 <= i < tops.len() && (#[trigger] tops[i]).0 == row && top - 1000 <= tops[i].1 < bottom,
    decreases tops.len(),
{
    let all = crate::screen::on_page(tops, top, bottom);
    if tops.len() > 0 {
        let front = tops.drop_last();
        let before = crate::screen::on_page(front, top, bottom);
        law_a_page_shows_the_rows_that_start_on_it(front, top, bottom, row);
        assert(tops[tops.len() - 1] == tops.last());
        if before.contains(row) {
            let m = choose|m: int| 0 <= m < before.len() && before[m] == row;
            assert(all[m] == row);
            let i = choose|i: int|
                0 <= i < front.len() && (#[trigger] front[i]).0 == row && top - 1000 <= front[i].1 < bottom;
            assert(tops[i] == front[i]);
        }
        if all.contains(row) && !before.contains(row) {
            let m = choose|m: int| 0 <= m < all.len() && all[m] == row;
            if m < before.len() {
                assert(before[m] == row);
            }
        }
        if exists|i: int|
            0 <= i < tops.len() && (#[trigger] tops[i]).0 == row && top - 1000 <= tops[i].1 < bottom {
            let i = choose|i: int|
                0 <= i < tops.len() && (#[trigger] tops[i]).0 == row && top - 1000 <= tops[i].1 < bottom;
            if i < front.len() {
                assert(front[i] == tops[i]);
            } else {
                assert(all[all.len() - 1] == row);
            }
        }
    }
}

/// A numbered row is found at the height its element stands at.
pub proof fn law_numbered_rows_have_their_heights(nodes: Seq<Node>, n: int, i: int, k: usize)
    requires
        0 <= i < n <= nodes.len(),
        nodes[i].attr("data-index"@) == Some(decimal(k as nat)),
    ensures
        indexed_to(nodes, n).contains((k as int, abs_y(nodes, i))),
    decreases n,
{
    let all = indexed_to(nodes, n);
    let before = indexed_to(nodes, n - 1);
    if i == n - 1 {
        crate::text::law_numbers_round_trip(k as nat, usize::MAX as nat);
        assert(all[all.len() - 1] == (k as int, abs_y(nodes, i)));
    } else {
        law_numbered_rows_have_their_heights(nodes, n - 1, i, k);
        let m = choose|m: int| 0 <= m < before.len() && before[m] == (k as int, abs_y(nodes, i));
        assert(all[m] == before[m]);
    }
}

/// Every part of a mark that a page shows is painted, and only such parts.
pub proof fn law_marks_are_painted_where_they_show(
    rects: Seq<Area>,
    top: int,
    extent: int,
    dx: int,
    frame: Frame,
    i: int,
)
    requires
        0 <= i < rects.len(),
    ensures
        on_page(rects[i], top, extent, dx, frame) matches Some(b) ==> shown_bands(
            rects,
            top,
            extent,
            dx,
            frame,
        ).contains(b),
        shown_bands(rects, top, extent, dx, frame).len() <= rects.len(),
        (forall|k: int|
            0 <= k < rects.len() ==> on_page(#[trigger] rects[k], top, extent, dx, frame) is None)
            ==> shown_bands(rects, top, extent, dx, frame).len() == 0,
    decreases rects.len(),
{
    let front = rects.drop_last();
    let all = shown_bands(rects, top, extent, dx, frame);
    let before = shown_bands(front, top, extent, dx, frame);
    if front.len() > 0 {
        let j = if i < front.len() {
            i
        } else {
            0
        };
        law_marks_are_painted_where_they_show(front, top, extent, dx, frame, j);
        if forall|k: int|
            0 <= k < rects.len() ==> on_page(#[trigger] rects[k], top, extent, dx, frame) is None {
            assert forall|k: int| 0 <= k < front.len() implies on_page(
                #[trigger] front[k],
                top,
                extent,
                dx,
                frame,
            ) is None by {
                assert(front[k] == rects[k]);
            }
        }
    }
    if on_page(rects[i], top, extent, dx, frame) is Some {
        let b = on_page(rects[i], top, extent, dx, frame)->0;
        if i < front.len() {
            let m = choose|m: int| 0 <= m < before.len() && before[m] == b;
            assert(all[m] == b);
        } else {
            assert(all[all.len() - 1] == b);
        }
    }
    assert(rects[rects.len() - 1] == rects.last());
}

/// A picture is of the chapter and of the page that are asked for, counted from one;
/// of the last page where there are fewer.
pub proof fn law_pictures_are_of_what_is_asked_for(dom: Dom, tops: Seq<i64>, n: usize, page: int)
    requires
        n > 0,
        tops.len() > 0,
    ensures
        chapter_in(decimal(n as nat)) == n - 1,
        chapter_in(decimal(0)) == 0,
        chapter_in(Seq::empty()) == 0,
        n <= tops.len() ==> page_in(dom, tops, decimal(n as nat)) == n - 1,
        n > tops.len() ==> page_in(dom, tops, decimal(n as nat)) == tops.len() - 1,
        page_in(dom, tops, decimal(0)) == 0,
{
    crate::text::law_numbers_round_trip(n as nat, usize::MAX as nat);
    crate::text::law_numbers_round_trip(0, usize::MAX as nat);
}

/// A picture is of the page that says some words, if words are asked for.
pub proof fn law_pictures_are_found_by_words(
    dom: Dom,
    tops: Seq<i64>,
    words: Seq<char>,
    i: int,
    page: int,
)
    requires
        descending(tops),
        crate::text::number_to(words, 10, usize::MAX as nat) is None,
        located(dom.nodes@, trimmed(folded(words))) == Some(i),
        crate::places_laws::on_page(tops, page, abs_y(dom.nodes@, i)),
    ensures
        page_in(dom, tops, words) == page,
{
    law_page_containing_maps_offsets_back(tops, page, abs_y(dom.nodes@, i));
}

/// A picture has the theme that is named first, whether or not the bars are asked for,
/// and is white if none is.
pub proof fn law_pictures_have_the_theme_named(args: Seq<String>)
    ensures
        args.len() == 0 ==> theme_in(args) == Theme::White,
        args.len() > 0 && args[0]@ == "hud"@ ==> theme_in(args) == theme_in(args.drop_first()),
        args.len() > 0 && args[0]@ == "white"@ ==> theme_in(args) == Theme::White,
        args.len() > 0 && args[0]@ == "sepia"@ ==> theme_in(args) == Theme::Sepia,
        args.len() > 0 && args[0]@ == "grey"@ ==> theme_in(args) == Theme::Grey,
        args.len() > 0 && args[0]@ == "night"@ ==> theme_in(args) == Theme::Night,
{
    reveal_strlit("hud");
    reveal_strlit("white");
    reveal_strlit("sepia");
    reveal_strlit("grey");
    reveal_strlit("night");
    assert("hud"@[0] == 'h' && "white"@[0] == 'w' && "sepia"@[0] == 's' && "grey"@[0] == 'g'
        && "night"@[0] == 'n');
}

/// A break cuts the boxes that it falls more than a pixel inside, and no others.
pub proof fn law_cuts_are_named(atoms: Seq<Atom>, y: int, n: int, i: int)
    requires
        0 <= i < n <= atoms.len(),
        n <= usize::MAX,
    ensures
        cut_places(atoms, y, n).contains(i as usize) <==> atoms[i].top + 1000 < y
            < atoms[i].bottom - 1000,
    decreases n,
{
    let all = cut_places(atoms, y, n);
    let before = cut_places(atoms, y, n - 1);
    lemma_cut_below(atoms, y, n - 1);
    if i == n - 1 {
        if all.len() > before.len() {
            assert(all[all.len() - 1] == i as usize);
        }
        if before.contains(i as usize) {
            let m = choose|m: int| 0 <= m < before.len() && before[m] == i as usize;
            assert(before[m] < n - 1);
        }
    } else {
        law_cuts_are_named(atoms, y, n - 1, i);
        if before.contains(i as usize) {
            let m = choose|m: int| 0 <= m < before.len() && before[m] == i as usize;
            assert(all[m] == i as usize);
        }
        if all.contains(i as usize) {
            let m = choose|m: int| 0 <= m < all.len() && all[m] == i as usize;
            assert(before[m] == i as usize);
        }
    }
}

proof fn lemma_cut_below(atoms: Seq<Atom>, y: int, n: int)
    requires
        0 <= n <= atoms.len(),
        n <= usize::MAX,
    ensures
        forall|m: int| 0 <= m < cut_places(atoms, y, n).len() ==> (#[trigger] cut_places(atoms, y, n)[m]) < n,
    decreases n,
{
    if n > 0 {
        lemma_cut_below(atoms, y, n - 1);
        let all = cut_places(atoms, y, n);
        let before = cut_places(atoms, y, n - 1);
        assert forall|m: int| 0 <= m < all.len() implies (#[trigger] all[m]) < n by {
            if m < before.len() {
                assert(all[m] == before[m]);
            }
        }
    }
}

/// An entry of this chapter dangles if it has a fragment that no element has as its
/// id; one of another chapter, or without a fragment, does not.
pub proof fn law_entries_dangle_without_their_element(dom: Dom, e: TocEntry, index: usize, i: int)
    requires
        dom.wf(),
        0 <= i < dom.nodes@.len(),
    ensures
        e.spine != index ==> !dangles(dom, e, index),
        e.fragment is None ==> !dangles(dom, e, index),
        e.fragment matches Some(f) && gives(dom.nodes@[i], "id"@, f@) && (forall|k: int|
            0 <= k < i ==> !gives(#[trigger] dom.nodes@[k], "id"@, f@)) ==> !dangles(dom, e, index),
        e.spine == index && (e.fragment matches Some(f) && forall|k: int|
            0 <= k < dom.nodes@.len() ==> !gives(#[trigger] dom.nodes@[k], "id"@, f@)) ==> dangles(
            dom,
            e,
            index,
        ),
{
    if let Some(f) = e.fragment {
        if gives(dom.nodes@[i], "id"@, f@) && forall|k: int|
            0 <= k < i ==> !gives(#[trigger] dom.nodes@[k], "id"@, f@) {
            lemma_found(dom, "id"@, f@, i, 0);
        }
        if forall|k: int|
            0 <= k < dom.nodes@.len() ==> !gives(#[trigger] dom.nodes@[k], "id"@, f@) {
            lemma_unfound(dom, "id"@, f@, 0);
        }
    }
}

proof fn lemma_unfound(dom: Dom, name: Seq<char>, value: Seq<char>, from: int)
    requires
        0 <= from <= dom.nodes@.len(),
        forall|k: int| 0 <= k < dom.nodes@.len() ==> !gives(#[trigger] dom.nodes@[k], name, value),
    ensures
        crate::dom::found_by_attr(dom.nodes@, 0, name, value, from) is None,
    decreases dom.nodes@.len() - from,
{
    if from < dom.nodes@.len() {
        lemma_unfound(dom, name, value, from + 1);
    }
}

/// Each entry that dangles counts as one.
pub proof fn law_dangling_entries_are_counted(dom: Dom, toc: Seq<TocEntry>, index: usize, n: int)
    requires
        0 <= n < toc.len(),
    ensures
        dangling_to(dom, toc, index, 0) == 0,
        dangles(dom, toc[n], index) ==> dangling_to(dom, toc, index, n + 1) == dangling_to(
            dom,
            toc,
            index,
            n,
        ) + 1,
        !dangles(dom, toc[n], index) ==> dangling_to(dom, toc, index, n + 1) == dangling_to(
            dom,
            toc,
            index,
            n,
        ),
{
}

/// A letter size is written with two decimals, the third rounded.
pub proof fn law_sizes_are_written_with_two_decimals(whole: nat, tenth: nat, hundredth: nat, rest: nat)
    requires
        tenth < 10,
        hundredth < 10,
        rest < 5,
    ensures
        scale_text(1000 * whole + 100 * tenth + 10 * hundredth + rest) == decimal(whole) + "."@
            + decimal(tenth) + decimal(hundredth),
        1000 * whole + 100 * tenth + 10 * hundredth > rest ==> scale_text(
            (1000 * whole + 100 * tenth + 10 * hundredth - rest) as nat,
        ) == decimal(whole) + "."@ + decimal(tenth) + decimal(hundredth),
{
    let h = 100 * whole + 10 * tenth + hundredth;
    assert((10 * h + rest + 5) / 10 == h);
    assert((10 * h - rest + 5) / 10 == h);
    assert(h / 100 == whole);
    assert(h / 10 == 10 * whole + tenth);
    assert((10 * whole + tenth) % 10 == tenth);
    assert(h % 10 == hundredth);
    assert(1000 * whole + 100 * tenth + 10 * hundredth + rest == 10 * h + rest);
}

/// A line of the settings is a name and a value, parted by its first equals sign, with
/// or without space round them.
pub proof fn law_a_setting_is_a_name_and_a_value(name: Seq<char>, value: Seq<char>)
    requires
        forall|i: int| 0 <= i < name.len() ==> (#[trigger] name[i]) != '=',
    ensures
        entry(name + seq!['='] + value) == Some((trimmed(name), trimmed(value))),
        entry(name) is None,
{
    let s = name + seq!['='] + value;
    assert forall|j: int| 0 <= j < name.len() implies s[j] != '=' by {
        assert(s[j] == name[j]);
    }
    lemma_spot_is(s, '=', name.len() as int);
    assert(s.take(name.len() as int) =~= name);
    assert(s.skip(name.len() as int + 1) =~= value);
    crate::text::lemma_no_spot(name, '=');
}

/// A tag is counted once for each book that has it.
pub proof fn law_tags_are_counted(tags: Seq<Seq<char>>, tag: Seq<char>, other: Seq<char>)
    requires
        other != tag,
    ensures
        times(Seq::empty(), tag) == 0,
        times(tags.push(tag), tag) == times(tags, tag) + 1,
        times(tags.push(other), tag) == times(tags, tag),
{
    assert(tags.push(tag).drop_last() =~= tags);
    assert(tags.push(other).drop_last() =~= tags);
}

/// Each tag that is offered is offered with its count, and by its hash.
pub proof fn law_tags_are_offered_with_their_count(
    tags: Seq<Seq<char>>,
    prefix: Seq<char>,
    i: int,
    n: nat,
)
    requires
        0 <= i < in_use(tags, prefix).len(),
        n != 1,
    ensures
        counted(tags, prefix).len() == in_use(tags, prefix).len(),
        counted(tags, prefix)[i].0 == in_use(tags, prefix)[i],
        counted(tags, prefix)[i].1 == times(tags, in_use(tags, prefix)[i]),
        completion((prefix, n)) == ("#"@ + prefix, decimal(n) + " book"@ + "s"@),
        completion((prefix, 1nat)) == ("#"@ + prefix, decimal(1) + " book"@ + ""@),
        plural_text(1) == ""@,
{
}

/// A character stands behind the bytes of all characters before it, and what would
/// stand behind the last stands at the end.
pub proof fn law_characters_stand_behind_their_bytes(a: Seq<char>, b: Seq<char>, n: int)
    ensures
        byte_at(a + b, a.len() as int) == bytes_len(a),
        n > a.len() ==> byte_at(a, n) == bytes_len(a),
{
    assert((a + b).take(a.len() as int) =~= a);
}

/// A percentage is the nearest, and the higher of two as near.
pub proof fn law_percentages_are_the_nearest(percent: int, rest: int)
    requires
        0 <= percent,
        0 <= rest < 10,
    ensures
        rest < 5 ==> rounded_percent(10 * percent + rest) == percent,
        rest >= 5 ==> rounded_percent(10 * percent + rest) == percent + 1,
{
}

/// The first page of a book is page one, and pages are counted on from there.
pub proof fn law_pages_are_counted_from_one(counts: Seq<usize>, page: int)
    requires
        0 <= page,
    ensures
        numbered(counts, 0, 0).0 == 1,
        page < sum_to(counts, counts.len() as int) ==> numbered(counts, 0, page).0 == page + 1,
        numbered(Seq::empty(), 0, page) == (1int, 1int),
{
}

/// An icon stands in the middle of its box, as large as the box's shorter side.
pub proof fn law_icons_stand_in_the_middle(r: Rect)
    requires
        r.width > 0,
        r.height > 0,
    ensures
        ({
            let a = crate::paint::placed(r, (0, 0));
            let b = crate::paint::placed(r, (1000, 1000));
            let left = a.0 - r.x;
            let right = r.x + r.width - b.0;
            let above = a.1 - r.y;
            let below = r.y + r.height - b.1;
            &&& b.0 - a.0 == b.1 - a.1
            &&& b.0 - a.0 == r.width || b.0 - a.0 == r.height
            &&& b.0 - a.0 <= r.width && b.0 - a.0 <= r.height
            &&& 0 <= right - left <= 1
            &&& 0 <= below - above <= 1
        }),
{
    let side = if r.width < r.height {
        r.width as int
    } else {
        r.height as int
    };
    assert(1000 * side / 1000 == side);
    assert(0 * side / 1000 == 0);
}

/// A length is rounded to the nearest pixel, and to the even one of two as near.
pub proof fn law_pixels_are_the_nearest(px: int)
    requires
        0 <= px,
    ensures
        -500 <= 1000 * rounded(px) - px <= 500,
        px % 1000 == 500 ==> rounded(px) % 2 == 0,
{
}

/// A turn takes a hundred and sixty milliseconds; half of them take it three quarters
/// of the way.
pub proof fn law_turns_slow_down(elapsed: int)
    ensures
        eased_at(0) == Some(0int),
        eased_at(80) == Some(750int),
        elapsed >= 160 ==> eased_at(elapsed) is None,
        0 <= elapsed < 160 ==> eased_at(elapsed) is Some,
{
}

/// A column behind the last page shows nothing; any other shows its page.
pub proof fn law_columns_show_their_pages(pages: Pages, page: int)
    requires
        0 <= page,
    ensures
        page < pages.tops@.len() ==> slice_of(pages, page).0 == pages.tops@[page],
        page >= pages.tops@.len() ==> slice_of(pages, page) == (0int, 0int),
{
}

/// The tags of a book are listed in order, each behind its hash.
pub proof fn law_tags_are_listed_behind_a_hash(tags: Seq<String>, tag: String)
    ensures
        tag_line(seq![tag]) == "#"@ + tag@,
        tags.len() > 0 ==> tag_line(tags.push(tag)) == tag_line(tags) + " #"@ + tag@,
        tag_line(Seq::empty()).len() == 0,
{
    assert(tags.push(tag).drop_last() =~= tags);
}

/// A row is indented by twenty-two pixels for each level, from fourteen on, three
/// levels deep.
pub proof fn law_levels_are_indented(depth: nat)
    ensures
        indent(0) == 0 && indent(1) == 1 && indent(2) == 2,
        depth >= 3 ==> indent(depth) == 3,
        indent_rule(0) == "html .row.d"@ + decimal(0) + " { padding-left: "@ + decimal(14) + "px; }\n"@,
        indent_rule(1) == "html .row.d"@ + decimal(1) + " { padding-left: "@ + decimal(36) + "px; }\n"@,
        indent_rule(2) == "html .row.d"@ + decimal(2) + " { padding-left: "@ + decimal(58) + "px; }\n"@,
        indent_rule(3) == "html .row.d"@ + decimal(3) + " { padding-left: "@ + decimal(80) + "px; }\n"@,
{
}

/// A picture of words that nothing says is of the first page.
pub proof fn law_pictures_of_nothing_are_of_the_first_page(dom: Dom, tops: Seq<i64>, words: Seq<char>)
    requires
        crate::text::number_to(words, 10, usize::MAX as nat) is None,
        located(dom.nodes@, trimmed(folded(words))) is None,
    ensures
        page_in(dom, tops, words) == 0,
{
}

/// A colour is read by its parts: two digits of red, two of green and two of blue.
pub proof fn law_colours_are_read_by_their_parts(s: Seq<char>, red: nat, green: nat, blue: nat)
    requires
        red < 256,
        green < 256,
        blue < 256,
        crate::text::number_to(s, 16, u32::MAX as nat) == Some(
            (red * 65536 + green * 256 + blue) as nat,
        ),
        s.len() > 0,
        s[0] != '#',
    ensures
        crate::screen::rgb(s) == (red as int, green as int, blue as int),
        crate::screen::rgb(seq!['#'] + s) == (red as int, green as int, blue as int),
{
    let v = red * 65536 + green * 256 + blue;
    assert(v / 65536 == red);
    assert(v / 256 == red * 256 + green);
    assert((red * 256 + green) % 256 == green);
    assert(v % 256 == blue);
    let marked = seq!['#'] + s;
    assert(marked.drop_first() =~= s);
    assert(marked.skip(1) =~= s);
    reveal_with_fuel(crate::markup::without_lead, 2);
}

/// The way back is an arrow to the left, the contents are three bars of one width, one
/// below the other, and a bookmark is notched at its foot.
pub proof fn law_icons_are_told_apart()
    ensures
        ({
            let back = Icon::Back.outlines();
            back.len() == 1 && back[0].len() == 3 && back[0][2].0 < back[0][0].0 && back[0][0].0
                == back[0][1].0 && back[0][0].1 < back[0][2].1 < back[0][1].1
        }),
        Icon::Contents.outlines().len() == 3,
        ({
            let mark = Icon::Bookmark.outlines();
            mark.len() == 1 && mark[0].len() == 5 && mark[0][3].1 < mark[0][2].1 && mark[0][2].1
                == mark[0][4].1 && mark[0][4].0 < mark[0][3].0 < mark[0][2].0
        }),
        Icon::Highlight.outlines().len() == 2,
{
}

/// In a box without an extent nothing is drawn, and nothing is shown of a page without
/// one.
pub proof fn law_nothing_is_drawn_in_no_room(which: Icon, r: Rect, extent: int, frame: Frame)
    requires
        frame.page_height >= 0,
    ensures
        r.width <= 0 || r.height <= 0 ==> crate::paint::drawn(which, r).len() == 0,
        r.width > 0 && r.height > 0 ==> crate::paint::drawn(which, r).len() == which.outlines().len(),
        extent <= 0 ==> crate::paint::shown(extent, frame) == 0,
        0 <= extent <= frame.page_height ==> crate::paint::shown(extent, frame) == extent,
        extent > frame.page_height ==> crate::paint::shown(extent, frame) == frame.page_height,
{
}

/// A cover is shown if the book has one and it is near enough to be seen; else its
/// place stays blank.
pub proof fn law_only_near_covers_are_loaded(b: BookRow, with_cover: bool)
    ensures
        !b.has_cover || !with_cover ==> cover_markup(b, with_cover) == r#"<img class="cover blank"/>"#@,
        b.has_cover && with_cover ==> cover_markup(b, with_cover) == r#"<img class="cover" src=""#@
            + "omaread-cover://cover/"@ + escaped(b.hash@) + r#""/>"#@,
{
}

} // verus!
