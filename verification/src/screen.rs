//! The geometry of the window: columns, margins, page turns, and which page or
//! card is where.
use crate::dom::{
    abs_y, find_by_attr, fits, found_by_attr, indexed_to, indexed_tops, node_top, Dom, Rect,
};
use crate::grid::SIDE_PAD;
use crate::markup::{skip_lead, without_lead};
use crate::paginate::{clamped, page_at, top_at, Pages};
use crate::style::{GUTTER_EM, MEASURE_EM, PAGE_MARGIN_EM};
use crate::text::{chars_of, decimal, number_to, owned, parse_number, push_count};
use vstd::prelude::*;

verus! {

/// How long a page takes to slide out of the way, in milliseconds. Long enough
/// to see which way the page went, short enough that holding the key still turns
/// pages quickly.
pub const SLIDE: u64 = 160;

/// Wake-up interval while a page is sliding: sixty frames a second.
pub const FRAME: u64 = 16;

/// How long the reading bars linger after the pointer stops moving.
pub const HUD_LINGER: u64 = 2200;

/// The window width that two columns need, in thousandths of an em: a measure
/// with its gutters, twice.
pub open spec fn two_column_em() -> int {
    2 * (MEASURE_EM + 2 * GUTTER_EM)
}

/// How many columns paint.
pub open spec fn columns_shown(requested: int, css_width: int, font_px: int, reading: bool) -> int {
    if requested >= 2 && css_width * 1000 >= two_column_em() * font_px && reading {
        2
    } else {
        1
    }
}

/// Whether two columns actually fit, and are wanted.
///
/// Below the minimum the measure would squeeze into something unreadable, so it
/// silently falls back to one. The library and the contents are single documents
/// laid out at window width, so they are always one column.
pub fn columns_for(requested: usize, css_width: i64, font_px: i64, reading: bool) -> (n: usize)
    ensures
        n == columns_shown(requested as int, css_width as int, font_px as int, reading),
{
    let em: i128 = 2 * ((MEASURE_EM as i128) + 2 * (GUTTER_EM as i128));
    proof {
        assert(-0x8000_0000_0000_0000 * 73_000 <= 73_000 * font_px <= 0x8000_0000_0000_0000 * 73_000)
            by (nonlinear_arith)
            requires
                -0x8000_0000_0000_0000 <= font_px <= 0x8000_0000_0000_0000,
        ;
        assert(em == 73_000);
        assert(em * font_px == 73_000 * font_px);
    }
    if requested >= 2 && (css_width as i128) * 1000 >= em * (font_px as i128) && reading {
        2
    } else {
        1
    }
}

/// A second column is only shown to somebody who reads, asked for it and has the
/// width; a wider window or a smaller letter never takes it away.
pub proof fn law_two_columns_need_the_width(
    requested: int,
    narrow: int,
    wide: int,
    small: int,
    large: int,
    reading: bool,
)
    requires
        narrow <= wide,
        small <= large,
    ensures
        columns_shown(requested, narrow, large, reading) <= columns_shown(
            requested,
            wide,
            small,
            reading,
        ),
        columns_shown(requested, wide, small, false) == 1,
        requested < 2 ==> columns_shown(requested, wide, small, reading) == 1,
{
    assert(two_column_em() == 73_000);
    assert(73_000 * small <= 73_000 * large) by (nonlinear_arith)
        requires
            small <= large,
    ;
}

/// Width of one column, in whole physical pixels.
pub fn column_width(width: u32, columns: usize) -> (w: u32)
    requires
        1 <= columns <= 2,
    ensures
        w == (if width as int / columns as int >= 1 {
            width as int / columns as int
        } else {
            1
        }),
{
    let w: u32 = if columns == 2 {
        width / 2
    } else {
        width
    };
    if w >= 1 {
        w
    } else {
        1
    }
}

/// The margin above and below a page, for a letter size.
pub open spec fn margin_of(font_px: int) -> int {
    PAGE_MARGIN_EM * font_px / 1000
}

pub fn page_margin(font_px: i64) -> (m: i64)
    requires
        0 <= font_px,
        fits(font_px),
    ensures
        m == margin_of(font_px as int),
{
    (PAGE_MARGIN_EM as i128 * font_px as i128 / 1000) as i64
}

/// What the margins of a window leave for the page: a pixel at least.
pub open spec fn page_room(css_height: int, margin: int) -> int {
    if css_height - 2 * margin > 1000 {
        css_height - 2 * margin
    } else {
        1000
    }
}

/// Usable height of one page: the window less its margins.
pub fn page_height(css_height: i64, margin: i64) -> (h: i64)
    requires
        fits(css_height) && fits(margin),
    ensures
        h == page_room(css_height as int, margin as int),
{
    let h: i64 = css_height - 2 * margin;
    if h > 1000 {
        h
    } else {
        1000
    }
}

/// The column under a point of the window, counted from the left.
pub open spec fn column_under(x: int, css_width: int, columns: int) -> int {
    if columns == 2 && x >= css_width / 2 {
        1
    } else {
        0
    }
}

/// A point of the window in the flow.
pub open spec fn in_flow(
    x: int,
    y: int,
    css_width: int,
    columns: int,
    page: int,
    tops: Seq<i64>,
    margin: int,
) -> (int, int) {
    let col = column_under(x, css_width, columns);
    let last = if tops.len() > 0 {
        tops.len() - 1
    } else {
        0
    };
    let shown = if page + col < last {
        page + col
    } else {
        last
    };
    (x - col * (css_width / columns), y - margin + top_at(tops, shown))
}

/// Pointer position in the flow.
///
/// In two-column mode the right half of the window is a different page of the
/// same flow, so the column under the pointer decides both the vertical offset
/// and how much to take off the x.
pub fn pointer_in_flow(
    x: i64,
    y: i64,
    css_width: i64,
    columns: usize,
    page: usize,
    pages: &Pages,
    margin: i64,
) -> (r: (i64, i64))
    requires
        fits(x) && fits(y) && fits(margin),
        0 <= css_width,
        fits(css_width),
        1 <= columns <= 2,
        forall|i: int| 0 <= i < pages.tops@.len() ==> fits(#[trigger] pages.tops@[i]),
    ensures
        (r.0 as int, r.1 as int) == in_flow(
            x as int,
            y as int,
            css_width as int,
            columns as int,
            page as int,
            pages.tops@,
            margin as int,
        ),
{
    let right = columns == 2 && x >= css_width / 2;
    let count: usize = pages.count();
    let last: usize = if count > 0 {
        count - 1
    } else {
        0
    };
    let shown: usize = if right {
        if page < last {
            page + 1
        } else {
            last
        }
    } else if page < last {
        page
    } else {
        last
    };
    let top: i64 = pages.top_of(shown);
    assert(fits(top));
    let left: i64 = if right {
        css_width / 2
    } else {
        0
    };
    (x - left, y - margin + top)
}

/// Where the outgoing and incoming pages sit, `t` thousandths of the way through
/// a turn.
///
/// Turning forward walks the old page off to the left and brings the new one in
/// from the right; turning back is the same motion mirrored.
pub open spec fn slid(forward: bool, t: int, width: int) -> (int, int) {
    let gone = t * width / 1000;
    if forward {
        (-gone, width - gone)
    } else {
        (gone, gone - width)
    }
}

pub fn slide_offsets(forward: bool, t: i64, width: i64) -> (r: (i64, i64))
    requires
        0 <= t <= 1000,
        0 <= width,
        fits(width),
    ensures
        (r.0 as int, r.1 as int) == slid(forward, t as int, width as int),
{
    proof {
        assert(0 <= t * width <= 1000 * width) by (nonlinear_arith)
            requires
                0 <= t <= 1000,
                0 <= width,
        ;
    }
    let gone: i64 = (t as i128 * width as i128 / 1000) as i64;
    if forward {
        (-gone, width - gone)
    } else {
        (gone, gone - width)
    }
}

/// While a page turns the two pages abut, the new one on the side it comes from;
/// at the end it stands where the old one stood.
pub proof fn law_turning_pages_abut(t: int, width: int)
    requires
        0 <= t <= 1000,
    ensures
        slid(true, t, width).1 - slid(true, t, width).0 == width,
        slid(false, t, width).0 - slid(false, t, width).1 == width,
        slid(true, t, width).0 == -slid(false, t, width).0,
        slid(true, t, width).1 == -slid(false, t, width).1,
        slid(true, 0, width) == (0int, width),
        slid(true, 1000, width) == (-width, 0int),
{
    assert(0 * width / 1000 == 0);
    assert(1000 * width / 1000 == width);
}

/// How far a page turn has come, in thousandths and eased out, some milliseconds
/// after it began; nothing once it is over.
pub open spec fn eased_at(elapsed: int) -> Option<int> {
    if elapsed < SLIDE {
        Some((2 * SLIDE - elapsed) * elapsed * 1000 / (SLIDE * SLIDE))
    } else {
        None
    }
}

pub fn eased(elapsed: u64) -> (r: Option<i64>)
    ensures
        match r {
            Some(t) => eased_at(elapsed as int) == Some(t as int),
            None => eased_at(elapsed as int) is None,
        },
{
    if elapsed < SLIDE {
        proof {
            assert((2 * SLIDE - elapsed) * elapsed <= 320 * 160) by (nonlinear_arith)
                requires
                    0 <= elapsed < 160,
                    SLIDE == 160,
            ;
            assert(SLIDE * SLIDE == 25_600);
        }
        let t: u64 = (2 * SLIDE - elapsed) * elapsed * 1000 / 25_600;
        Some(t as i64)
    } else {
        None
    }
}

/// A page turn only goes forward, and never past its end.
pub proof fn law_turns_ease_forward(sooner: int, later: int)
    requires
        0 <= sooner <= later < SLIDE,
    ensures
        0 <= eased_at(sooner)->0 <= eased_at(later)->0 <= 1000,
        eased_at(0) == Some(0int),
{
    assert(SLIDE == 160);
    let a = (320 - sooner) * sooner;
    let b = (320 - later) * later;
    assert(0 <= a <= b <= 25_600) by (nonlinear_arith)
        requires
            0 <= sooner <= later < 160,
            a == (320 - sooner) * sooner,
            b == (320 - later) * later,
    ;
    assert((2 * SLIDE - sooner) * sooner * 1000 == a * 1000);
    assert((2 * SLIDE - later) * later * 1000 == b * 1000);
    assert(SLIDE * SLIDE == 25_600);
    assert((2 * SLIDE - 0) * 0 * 1000 == 0);
}

/// The slice of the flow that a page shows: where it starts and how high it is.
pub open spec fn slice_of(pages: Pages, page: int) -> (int, int) {
    if page < pages.tops@.len() {
        (top_at(pages.tops@, page), pages.extent(page))
    } else {
        (0, 0)
    }
}

/// The slices that the columns show: one page each, clean paper past the end.
pub fn slices(pages: &Pages, page: usize, columns: usize) -> (r: Vec<(i64, i64)>)
    requires
        pages.page_height >= 0,
        page + columns <= usize::MAX,
    ensures
        r@.len() == columns,
        forall|c: int|
            0 <= c < columns ==> ((#[trigger] r@[c]).0 as int, r@[c].1 as int) == slice_of(
                *pages,
                page + c,
            ),
{
    let mut out: Vec<(i64, i64)> = Vec::new();
    let mut c: usize = 0;
    while c < columns
        invariant
            c <= columns,
            pages.page_height >= 0,
            page + columns <= usize::MAX,
            out@.len() == c,
            forall|k: int|
                0 <= k < c ==> ((#[trigger] out@[k]).0 as int, out@[k].1 as int) == slice_of(
                    *pages,
                    page + k,
                ),
        decreases columns - c,
    {
        let p: usize = page + c;
        if p < pages.count() {
            out.push((pages.top_of(p), pages.extent_of(p)));
        } else {
            out.push((0, 0));
        }
        c = c + 1;
    }
    out
}

/// The rows on a page, of the first `n` that a document lists: those that start
/// between a pixel above the page and its foot.
pub open spec fn on_page(tops: Seq<(int, int)>, top: int, bottom: int) -> Seq<int>
    decreases tops.len(),
{
    if tops.len() == 0 {
        Seq::empty()
    } else {
        let before = on_page(tops.drop_last(), top, bottom);
        if top - 1000 <= tops.last().1 < bottom {
            before.push(tops.last().0)
        } else {
            before
        }
    }
}

/// The first row and the one after the last.
pub open spec fn span_of(rows: Seq<int>) -> (int, int) {
    if rows.len() == 0 {
        (0, 0)
    } else {
        (rows[0], rows.last() + 1)
    }
}

/// Which cards sit on a page of a laid-out grid.
pub fn visible_cards(dom: &Dom, pages: &Pages, page: usize) -> (r: (usize, usize))
    requires
        dom.wf(),
        pages.page_height >= 0,
        forall|i: int|
            0 <= i < indexed_to(dom.nodes@, dom.nodes@.len() as int).len() ==> (
            #[trigger] indexed_to(dom.nodes@, dom.nodes@.len() as int)[i]).0 < usize::MAX,
    ensures
        (r.0 as int, r.1 as int) == span_of(
            on_page(
                indexed_to(dom.nodes@, dom.nodes@.len() as int),
                top_at(pages.tops@, page as int),
                top_at(pages.tops@, page as int) + pages.extent(page as int),
            ),
        ),
{
    let tops = indexed_tops(dom);
    let top: i128 = pages.top_of(page) as i128;
    let bottom: i128 = top + (pages.extent_of(page) as i128);
    let ghost all = indexed_to(dom.nodes@, dom.nodes@.len() as int);
    let mut first: Option<usize> = None;
    let mut last: usize = 0;
    let mut i: usize = 0;
    assert(all.take(0) =~= Seq::<(int, int)>::empty());
    while i < tops.len()
        invariant
            i <= tops.len(),
            i64::MIN <= top <= i64::MAX,
            tops@.len() == all.len(),
            forall|k: int|
                0 <= k < all.len() ==> ((#[trigger] tops@[k]).0 as int, tops@[k].1 as int) == all[k],
            forall|k: int| 0 <= k < all.len() ==> (#[trigger] all[k]).0 < usize::MAX,
            ({
                let seen = on_page(all.take(i as int), top as int, bottom as int);
                match first {
                    Some(a) => seen.len() > 0 && seen[0] == a && seen.last() == last && last
                        < usize::MAX,
                    None => seen.len() == 0,
                }
            }),
        decreases tops.len() - i,
    {
        let (row, y) = tops[i];
        proof {
            assert(all[i as int] == (row as int, y as int));
            assert(all.take(i + 1).drop_last() =~= all.take(i as int));
            assert(all.take(i + 1).last() == all[i as int]);
        }
        if (y as i128) >= top - 1000 && (y as i128) < bottom {
            if first.is_none() {
                first = Some(row);
            }
            last = row;
        }
        i = i + 1;
    }
    assert(all.take(all.len() as int) =~= all);
    match first {
        Some(a) => (a, last + 1),
        None => (0, 0),
    }
}

/// The page that the row of a number starts on.
pub open spec fn index_page(dom: Dom, tops: Seq<i64>, index: nat) -> Option<int> {
    match found_by_attr(dom.nodes@, 0, "data-index"@, decimal(index), 0) {
        Some(i) => Some(page_at(tops, abs_y(dom.nodes@, i))),
        None => None,
    }
}

/// The page a numbered row falls on. Both list views number their rows, so the
/// selection can be followed onto its page.
pub fn page_of_index(dom: &Dom, pages: &Pages, index: usize) -> (r: Option<usize>)
    requires
        dom.wf(),
    ensures
        match index_page(*dom, pages.tops@, index as nat) {
            Some(p) => r matches Some(q) && q == p,
            None => r is None,
        },
{
    let mut number = String::new();
    push_count(&mut number, index);
    proof {
        assert(Seq::<char>::empty() + decimal(index as nat) =~= decimal(index as nat));
    }
    match find_by_attr(dom, 0, "data-index", number.as_str()) {
        Some(i) => match node_top(dom, i) {
            Some(y) => Some(pages.page_containing(y)),
            None => None,
        },
        None => None,
    }
}

/// A colour written as a hash and six hexadecimal digits; black for any other
/// text.
pub open spec fn rgb(s: Seq<char>) -> (int, int, int) {
    let v = match number_to(without_lead(s, '#'), 16, u32::MAX as nat) {
        Some(n) => n as int,
        None => 0,
    };
    (v / 65536 % 256, v / 256 % 256, v % 256)
}

/// `#rrggbb` to a colour. The chrome palette is authored as CSS strings so the
/// stylesheet and the window ground cannot drift apart.
pub fn parse_hex(s: &str) -> (r: (u8, u8, u8))
    ensures
        (r.0 as int, r.1 as int, r.2 as int) == rgb(s@),
{
    let chars = chars_of(s);
    let v: u64 = match parse_number(skip_lead(&chars, '#'), 16, u32::MAX as u64) {
        Some(n) => n,
        None => 0,
    };
    ((v / 65536 % 256) as u8, (v / 256 % 256) as u8, (v % 256) as u8)
}

/// Where the settings panel hangs: under the cog, not off the right edge.
pub open spec fn anchor(gear: Rect, css_width: int, menu_width: int, margin: int) -> (int, int) {
    let pad = SIDE_PAD * 1000;
    let room = if css_width - menu_width - pad > 0 {
        css_width - menu_width - pad
    } else {
        0
    };
    (clamped(gear.x - 10_000, pad, room), gear.y + gear.height + margin + 10_000)
}

/// Where the settings panel hangs.
///
/// The cog is in the shelf's flow, and the shelf is a page, so its window
/// position is the flow position plus the page margin.
pub fn menu_anchor(gear: &Rect, css_width: i64, menu_width: i64, margin: i64) -> (r: (i64, i64))
    requires
        fits(gear.x) && fits(gear.y) && fits(gear.height),
        fits(css_width) && fits(menu_width) && fits(margin),
        css_width - menu_width >= 2 * (SIDE_PAD * 1000),
    ensures
        (r.0 as int, r.1 as int) == anchor(
            *gear,
            css_width as int,
            menu_width as int,
            margin as int,
        ),
{
    let pad: i64 = (SIDE_PAD as i64) * 1000;
    let room: i64 = css_width - menu_width - pad;
    let x: i64 = gear.x - 10_000;
    let left: i64 = if x < pad {
        pad
    } else if x > room {
        room
    } else {
        x
    };
    (left, gear.y + gear.height + margin + 10_000)
}

/// The points probed for a link, in order: the point itself, then a ring around
/// it. A note reference is a superscript digit inside a sentence, and the pointer
/// lands beside it as often as on it.
pub open spec fn probed(x: int, y: int) -> Seq<(int, int)> {
    seq![
        (x, y),
        (x - 7000, y),
        (x + 7000, y),
        (x, y - 7000),
        (x, y + 7000),
        (x - 7000, y - 7000),
        (x + 7000, y - 7000),
        (x - 7000, y + 7000),
        (x + 7000, y + 7000),
    ]
}

pub fn probes(x: i64, y: i64) -> (r: Vec<(i64, i64)>)
    requires
        fits(x) && fits(y),
    ensures
        r@.len() == 9,
        forall|i: int|
            0 <= i < 9 ==> ((#[trigger] r@[i]).0 as int, r@[i].1 as int) == probed(
                x as int,
                y as int,
            )[i],
{
    let mut out: Vec<(i64, i64)> = Vec::new();
    out.push((x, y));
    out.push((x - 7000, y));
    out.push((x + 7000, y));
    out.push((x, y - 7000));
    out.push((x, y + 7000));
    out.push((x - 7000, y - 7000));
    out.push((x + 7000, y - 7000));
    out.push((x - 7000, y + 7000));
    out.push((x + 7000, y + 7000));
    out
}

/// A length rounded to whole pixels, a half to the even one.
pub open spec fn rounded(px: int) -> int {
    let whole = px / 1000;
    let rest = px % 1000;
    if rest > 500 || (rest == 500 && whole % 2 == 1) {
        whole + 1
    } else {
        whole
    }
}

/// What page counts depend on: the letter size and the column width.
pub fn layout_key(font_px: i64, column_width: u32) -> (r: String)
    requires
        0 <= font_px,
        fits(font_px),
    ensures
        r@ == decimal(rounded(font_px as int) as nat) + "x"@ + decimal(column_width as nat),
{
    let whole: i64 = font_px / 1000;
    let rest: i64 = font_px % 1000;
    let px: i64 = if rest > 500 || (rest == 500 && whole % 2 == 1) {
        whole + 1
    } else {
        whole
    };
    let mut out = owned("");
    proof {
        reveal_strlit("");
        assert(""@ + decimal(px as nat) =~= decimal(px as nat));
    }
    crate::text::push_decimal(&mut out, px as u64);
    out.append("x");
    crate::text::push_decimal(&mut out, column_width as u64);
    out
}

} // verus!
