//! The shapes a frame is made of: page bands, highlights, outlines and icons.
//!
//! Everything here is in thousandths of a CSS pixel. Whoever draws a shape
//! scales it to the surface; where it goes is decided here.
use crate::dom::{fits, Rect};
use crate::paginate::clamped;
use vstd::prelude::*;

verus! {

/// Window geometry for one frame.
#[derive(Debug, Clone, Copy, PartialEq, Eq, Structural)]
pub struct Frame {
    pub width: i64,
    pub height: i64,
    /// Above and below the page.
    pub margin: i64,
    pub page_height: i64,
}

impl Frame {
    pub open spec fn wf(self) -> bool {
        &&& fits(self.width) && fits(self.height) && fits(self.margin) && fits(self.page_height)
        &&& self.page_height >= 0
    }
}

/// A rectangle by its corners.
#[derive(Debug, Clone, Copy, PartialEq, Eq, Structural)]
pub struct Area {
    pub x0: i64,
    pub y0: i64,
    pub x1: i64,
    pub y1: i64,
}

impl Area {
    pub open spec fn wf(self) -> bool {
        fits(self.x0) && fits(self.y0) && fits(self.x1) && fits(self.y1)
    }

    /// Is a point in the area? Its edges count.
    pub open spec fn has(self, x: int, y: int) -> bool {
        self.x0 <= x <= self.x1 && self.y0 <= y <= self.y1
    }

    pub fn contains(&self, x: i64, y: i64) -> (r: bool)
        ensures
            r == self.has(x as int, y as int),
    {
        x >= self.x0 && x <= self.x1 && y >= self.y0 && y <= self.y1
    }
}

/// The height of a page that shows, `extent` brought into the page.
pub open spec fn shown(extent: int, frame: Frame) -> int {
    clamped(extent, 0, frame.page_height as int)
}

/// The bands of one column that are masked back to the page ground: what is
/// above the page and what is below it. An empty band is left out.
pub open spec fn masks(extent: int, x: int, width: int, frame: Frame) -> Seq<(int, int, int, int)> {
    let foot = frame.margin + shown(extent, frame);
    (if frame.margin > 0 {
        seq![(x, 0int, x + width, frame.margin as int)]
    } else {
        Seq::empty()
    }) + (if foot < frame.height {
        seq![(x, foot, x + width, frame.height as int)]
    } else {
        Seq::empty()
    })
}

/// The corners of some areas.
pub open spec fn corners(areas: Seq<Area>) -> Seq<(int, int, int, int)> {
    Seq::new(
        areas.len(),
        |i: int|
            (areas[i].x0 as int, areas[i].y0 as int, areas[i].x1 as int, areas[i].y1 as int),
    )
}

/// One column shows the slice of the flow that starts at its page's top and is
/// `extent` high; these bands mask the flow above and below it.
///
/// The masks are per column because two columns are two different pages, and a
/// break lands where it lands: a single full-width band would clip the longer
/// column or leak the shorter one's next line.
pub fn column(extent: i64, x: i64, width: i64, frame: &Frame) -> (r: Vec<Area>)
    requires
        frame.wf(),
        fits(extent) && fits(x) && fits(width),
    ensures
        corners(r@) == masks(extent as int, x as int, width as int, *frame),
{
    let mut tall: i64 = extent;
    if tall < 0 {
        tall = 0;
    } else if tall > frame.page_height {
        tall = frame.page_height;
    }
    let mut out: Vec<Area> = Vec::new();
    if frame.margin > 0 {
        out.push(Area { x0: x, y0: 0, x1: x + width, y1: frame.margin });
    }
    let foot: i64 = frame.margin + tall;
    if foot < frame.height {
        out.push(Area { x0: x, y0: foot, x1: x + width, y1: frame.height });
    }
    proof {
        assert(corners(out@) =~= masks(extent as int, x as int, width as int, *frame));
    }
    out
}

/// One page over the whole window, masked like a column.
///
/// `extent` is the page's real height, not the nominal one: a break snaps up to
/// a line boundary, so the two differ by up to a line, and masking from the
/// nominal height leaves the next page's first line showing.
pub fn page(extent: i64, frame: &Frame) -> (r: Vec<Area>)
    requires
        frame.wf(),
        fits(extent),
    ensures
        corners(r@) == masks(extent as int, 0, frame.width as int, *frame),
{
    column(extent, 0, frame.width, frame)
}

/// The whole window, to be blanked to the page ground.
pub fn clear(frame: &Frame) -> (r: Area)
    ensures
        r == (Area { x0: 0, y0: 0, x1: frame.width, y1: frame.height }),
{
    Area { x0: 0, y0: 0, x1: frame.width, y1: frame.height }
}

/// The box of a rectangle to stroke or fill; nothing for one without a face.
pub open spec fn boxed(r: Rect) -> Option<(int, int, int, int)> {
    if r.width <= 0 || r.height <= 0 {
        None
    } else {
        Some((r.x as int, r.y as int, r.x + r.width, r.y + r.height))
    }
}

pub open spec fn rect_fits(r: Rect) -> bool {
    fits(r.x) && fits(r.y) && fits(r.width) && fits(r.height)
}

/// The outline of the selected card. The selection is painted rather than marked
/// up, so that an arrow key costs a frame and not a rebuilt document.
pub fn outline(rect: &Rect) -> (r: Option<Area>)
    requires
        rect_fits(*rect),
    ensures
        match r {
            Some(a) => boxed(*rect) == Some((a.x0 as int, a.y0 as int, a.x1 as int, a.y1 as int)),
            None => boxed(*rect) is None,
        },
{
    if rect.width <= 0 || rect.height <= 0 {
        None
    } else {
        Some(
            Area { x0: rect.x, y0: rect.y, x1: rect.x + rect.width, y1: rect.y + rect.height },
        )
    }
}

/// The wash under the pointer, over the same box as an outline.
pub fn wash(rect: &Rect) -> (r: Option<Area>)
    requires
        rect_fits(*rect),
    ensures
        match r {
            Some(a) => boxed(*rect) == Some((a.x0 as int, a.y0 as int, a.x1 as int, a.y1 as int)),
            None => boxed(*rect) is None,
        },
{
    outline(rect)
}

/// Where a flow rectangle is painted on a page: moved the way the page is, and
/// clipped to what the page shows. Nothing where no part of it shows.
pub open spec fn on_page(a: Area, top: int, extent: int, dx: int, frame: Frame) -> Option<
    (int, int, int, int),
> {
    let lo = frame.margin as int;
    let hi = frame.margin + (if extent < frame.page_height {
        extent
    } else {
        frame.page_height as int
    });
    let y0 = a.y0 - top + frame.margin;
    let y1 = a.y1 - top + frame.margin;
    let c0 = if y0 > lo {
        y0
    } else {
        lo
    };
    let c1 = if y1 < hi {
        y1
    } else {
        hi
    };
    if c1 <= c0 || a.x1 <= a.x0 {
        None
    } else {
        Some((a.x0 + dx, c0, a.x1 + dx, c1))
    }
}

/// Flow rectangles on a page, the ones that do not show left out.
pub open spec fn shown_bands(
    rects: Seq<Area>,
    top: int,
    extent: int,
    dx: int,
    frame: Frame,
) -> Seq<(int, int, int, int)>
    decreases rects.len(),
{
    if rects.len() == 0 {
        Seq::empty()
    } else {
        let before = shown_bands(rects.drop_last(), top, extent, dx, frame);
        match on_page(rects.last(), top, extent, dx, frame) {
            Some(b) => before.push(b),
            None => before,
        }
    }
}

/// What of some flow rectangles is painted over a page: a live selection, or
/// stored highlights. They are clipped to the page, or a highlight belonging to
/// the next page would bleed into this one's margin.
pub fn bands(rects: &[Area], top: i64, extent: i64, dx: i64, frame: &Frame) -> (r: Vec<Area>)
    requires
        frame.wf(),
        fits(top) && fits(extent) && fits(dx),
        forall|i: int| 0 <= i < rects@.len() ==> (#[trigger] rects@[i]).wf(),
    ensures
        corners(r@) == shown_bands(rects@, top as int, extent as int, dx as int, *frame),
{
    let mut out: Vec<Area> = Vec::new();
    let lo: i64 = frame.margin;
    let mut hi: i64 = frame.margin + frame.page_height;
    if extent < frame.page_height {
        hi = frame.margin + extent;
    }
    assert(rects@.take(0) =~= Seq::<Area>::empty());
    assert(corners(out@) =~= Seq::empty());
    let mut i: usize = 0;
    while i < rects.len()
        invariant
            i <= rects.len(),
            frame.wf(),
            fits(top) && fits(extent) && fits(dx),
            forall|j: int| 0 <= j < rects@.len() ==> (#[trigger] rects@[j]).wf(),
            lo == frame.margin,
            hi == frame.margin + (if extent < frame.page_height {
                extent as int
            } else {
                frame.page_height as int
            }),
            corners(out@) == shown_bands(
                rects@.take(i as int),
                top as int,
                extent as int,
                dx as int,
                *frame,
            ),
        decreases rects.len() - i,
    {
        let a = rects[i];
        assert(a.wf());
        let y0: i64 = a.y0 - top + frame.margin;
        let y1: i64 = a.y1 - top + frame.margin;
        let c0: i64 = if y0 > lo {
            y0
        } else {
            lo
        };
        let c1: i64 = if y1 < hi {
            y1
        } else {
            hi
        };
        let ghost was = out@;
        if c1 > c0 && a.x1 > a.x0 {
            out.push(Area { x0: a.x0 + dx, y0: c0, x1: a.x1 + dx, y1: c1 });
            proof {
                assert(corners(out@) =~= corners(was).push(
                    (a.x0 + dx, c0 as int, a.x1 + dx, c1 as int),
                ));
            }
        }
        proof {
            assert(rects@.take(i + 1).drop_last() =~= rects@.take(i as int));
            assert(rects@.take(i + 1).last() == a);
        }
        i = i + 1;
    }
    assert(rects@.take(rects@.len() as int) =~= rects@);
    out
}

/// What is painted over a page stays on it: between the margin and the foot of
/// what the page shows.
pub proof fn law_bands_stay_on_their_page(a: Area, top: int, extent: int, dx: int, frame: Frame)
    ensures
        on_page(a, top, extent, dx, frame) matches Some(b) ==> {
            &&& frame.margin <= b.1 < b.3
            &&& b.3 <= frame.margin + extent
            &&& b.3 <= frame.margin + frame.page_height
        },
{
}

/// A column's masks and the page between them cover the column from the head of
/// the window to its foot, and the masks leave the page alone.
pub proof fn law_masks_leave_exactly_the_page(extent: int, x: int, width: int, frame: Frame, y: int)
    requires
        0 <= frame.margin,
        0 <= frame.page_height,
        0 <= y < frame.height,
    ensures
        (exists|i: int|
            0 <= i < masks(extent, x, width, frame).len() && (#[trigger] masks(
                extent,
                x,
                width,
                frame,
            )[i]).1 <= y < masks(extent, x, width, frame)[i].3) <==> !(frame.margin <= y
            < frame.margin + shown(extent, frame)),
{
    let m = masks(extent, x, width, frame);
    let foot = frame.margin + shown(extent, frame);
    if y < frame.margin {
        assert(m[0].1 <= y < m[0].3);
    } else if y >= foot {
        let k = m.len() - 1;
        assert(m[k].1 <= y < m[k].3);
    }
}

/// Which glyph a control wants. The bundled faces carry no symbol glyphs, and a
/// missing glyph is visible tofu, so the icons are drawn.
#[derive(Debug, Clone, Copy, PartialEq, Eq, Structural)]
pub enum Icon {
    /// A pennant: bookmark.
    Bookmark,
    /// Three rules: contents.
    Contents,
    /// A marker stroke: highlight.
    Highlight,
    /// A left-pointing triangle: back to the library.
    Back,
}

/// A closed outline, corner by corner.
pub open spec fn bar(x0: int, y0: int, x1: int, y1: int) -> Seq<(int, int)> {
    seq![(x0, y0), (x1, y0), (x1, y1), (x0, y1)]
}

impl Icon {
    /// The outlines of an icon in a box of a thousand by a thousand.
    pub open spec fn outlines(self) -> Seq<Seq<(int, int)>> {
        match self {
            Icon::Bookmark => seq![
                seq![(220int, 80int), (780, 80), (780, 920), (500, 680), (220, 920)],
            ],
            Icon::Contents => seq![
                bar(140, 200, 860, 330),
                bar(140, 470, 860, 600),
                bar(140, 740, 860, 870),
            ],
            Icon::Highlight => seq![
                seq![(100int, 620int), (620, 100), (820, 300), (300, 820)],
                bar(100, 860, 900, 990),
            ],
            Icon::Back => seq![seq![(680int, 120int), (680, 880), (220, 500)]],
        }
    }

    /// The control that wants the icon.
    pub open spec fn word(self) -> Seq<char> {
        match self {
            Icon::Bookmark => "bookmark"@,
            Icon::Contents => "contents"@,
            Icon::Highlight => "highlight"@,
            Icon::Back => "back"@,
        }
    }

    pub fn name(self) -> (r: &'static str)
        ensures
            r@ == self.word(),
    {
        match self {
            Icon::Bookmark => "bookmark",
            Icon::Contents => "contents",
            Icon::Highlight => "highlight",
            Icon::Back => "back",
        }
    }
}

/// A point of the thousand-box in the largest square centred in `r`.
pub open spec fn placed(r: Rect, p: (int, int)) -> (int, int) {
    let side = if r.width < r.height {
        r.width as int
    } else {
        r.height as int
    };
    (
        r.x + (r.width - side) / 2 + p.0 * side / 1000,
        r.y + (r.height - side) / 2 + p.1 * side / 1000,
    )
}

pub open spec fn placed_outline(r: Rect, ps: Seq<(int, int)>) -> Seq<(int, int)> {
    Seq::new(ps.len(), |i: int| placed(r, ps[i]))
}

/// The outlines of an icon drawn in `r`; none for a rectangle without a face.
pub open spec fn drawn(which: Icon, r: Rect) -> Seq<Seq<(int, int)>> {
    if r.width <= 0 || r.height <= 0 {
        Seq::empty()
    } else {
        Seq::new(which.outlines().len(), |i: int| placed_outline(r, which.outlines()[i]))
    }
}

/// The points of an outline.
pub open spec fn points(v: Seq<(i64, i64)>) -> Seq<(int, int)> {
    Seq::new(v.len(), |i: int| (v[i].0 as int, v[i].1 as int))
}

pub open spec fn outline_points(v: Seq<Vec<(i64, i64)>>) -> Seq<Seq<(int, int)>> {
    Seq::new(v.len(), |i: int| points(v[i]@))
}

fn place(r: &Rect, px: i64, py: i64) -> (at: (i64, i64))
    requires
        rect_fits(*r),
        0 < r.width && 0 < r.height,
        0 <= px <= 1000 && 0 <= py <= 1000,
    ensures
        (at.0 as int, at.1 as int) == placed(*r, (px as int, py as int)),
{
    let side: i64 = if r.width < r.height {
        r.width
    } else {
        r.height
    };
    proof {
        assert(0 <= px * side <= 1000 * side) by (nonlinear_arith)
            requires
                0 <= px <= 1000,
                0 <= side,
        ;
        assert(0 <= py * side <= 1000 * side) by (nonlinear_arith)
            requires
                0 <= py <= 1000,
                0 <= side,
        ;
    }
    let right: i64 = (px as i128 * side as i128 / 1000) as i64;
    let down: i64 = (py as i128 * side as i128 / 1000) as i64;
    (r.x + (r.width - side) / 2 + right, r.y + (r.height - side) / 2 + down)
}

fn bar_in(r: &Rect, x0: i64, y0: i64, x1: i64, y1: i64) -> (out: Vec<(i64, i64)>)
    requires
        rect_fits(*r),
        0 < r.width && 0 < r.height,
        0 <= x0 <= 1000 && 0 <= y0 <= 1000 && 0 <= x1 <= 1000 && 0 <= y1 <= 1000,
    ensures
        points(out@) == placed_outline(*r, bar(x0 as int, y0 as int, x1 as int, y1 as int)),
{
    let mut out: Vec<(i64, i64)> = Vec::new();
    out.push(place(r, x0, y0));
    out.push(place(r, x1, y0));
    out.push(place(r, x1, y1));
    out.push(place(r, x0, y1));
    assert(points(out@) =~= placed_outline(*r, bar(x0 as int, y0 as int, x1 as int, y1 as int)));
    out
}

/// Draw an icon inside a rectangle. Shapes are described in a unit box and
/// scaled, so they stay sharp at any window scale.
pub fn icon(which: Icon, rect: &Rect) -> (r: Vec<Vec<(i64, i64)>>)
    requires
        rect_fits(*rect),
    ensures
        outline_points(r@) == drawn(which, *rect),
{
    let mut out: Vec<Vec<(i64, i64)>> = Vec::new();
    if rect.width <= 0 || rect.height <= 0 {
        assert(outline_points(out@) =~= Seq::empty());
        return out;
    }
    match which {
        Icon::Bookmark => {
            let mut shape: Vec<(i64, i64)> = Vec::new();
            shape.push(place(rect, 220, 80));
            shape.push(place(rect, 780, 80));
            shape.push(place(rect, 780, 920));
            shape.push(place(rect, 500, 680));
            shape.push(place(rect, 220, 920));
            assert(points(shape@) =~= placed_outline(*rect, which.outlines()[0]));
            out.push(shape);
        },
        Icon::Contents => {
            out.push(bar_in(rect, 140, 200, 860, 330));
            out.push(bar_in(rect, 140, 470, 860, 600));
            out.push(bar_in(rect, 140, 740, 860, 870));
        },
        Icon::Highlight => {
            let mut shape: Vec<(i64, i64)> = Vec::new();
            shape.push(place(rect, 100, 620));
            shape.push(place(rect, 620, 100));
            shape.push(place(rect, 820, 300));
            shape.push(place(rect, 300, 820));
            assert(points(shape@) =~= placed_outline(*rect, which.outlines()[0]));
            out.push(shape);
            out.push(bar_in(rect, 100, 860, 900, 990));
        },
        Icon::Back => {
            let mut shape: Vec<(i64, i64)> = Vec::new();
            shape.push(place(rect, 680, 120));
            shape.push(place(rect, 680, 880));
            shape.push(place(rect, 220, 500));
            assert(points(shape@) =~= placed_outline(*rect, which.outlines()[0]));
            out.push(shape);
        },
    }
    assert(outline_points(out@) =~= drawn(which, *rect));
    out
}

/// An icon stays inside the rectangle it is drawn in.
pub proof fn law_icons_stay_in_their_box(which: Icon, r: Rect, i: int, k: int)
    requires
        0 < r.width && 0 < r.height,
        0 <= i < drawn(which, r).len(),
        0 <= k < drawn(which, r)[i].len(),
    ensures
        r.x <= drawn(which, r)[i][k].0 <= r.x + r.width,
        r.y <= drawn(which, r)[i][k].1 <= r.y + r.height,
{
    let p = which.outlines()[i][k];
    assert(0 <= p.0 <= 1000 && 0 <= p.1 <= 1000);
    let side = if r.width < r.height {
        r.width as int
    } else {
        r.height as int
    };
    assert(0 <= p.0 * side <= 1000 * side) by (nonlinear_arith)
        requires
            0 <= p.0 <= 1000,
            0 <= side,
    ;
    assert(0 <= p.1 * side <= 1000 * side) by (nonlinear_arith)
        requires
            0 <= p.1 <= 1000,
            0 <= side,
    ;
}

} // verus!
