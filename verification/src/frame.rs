//! What a frame is composed of, and in which order it is painted.
use crate::dom::fits;
use crate::paginate::Pages;
use crate::screen::{slice_of, slid, slide_offsets};
use vstd::prelude::*;

verus! {

/// A page turn as a frame shows it: the page being left, which way it went, and
/// how far it has come, in thousandths.
#[derive(Debug, Clone, Copy, PartialEq, Eq, Structural)]
pub struct Turn {
    pub from: usize,
    pub forward: bool,
    pub t: i64,
}

/// What a frame has to show.
#[derive(Debug, Clone, Copy, PartialEq, Eq, Structural)]
pub struct Plan {
    pub page: usize,
    /// One or two.
    pub columns: usize,
    /// Width of the window.
    pub width: i64,
    pub turn: Option<Turn>,
    /// A card under the pointer.
    pub hovered: bool,
    /// A selected card.
    pub selected: bool,
    /// A note on show.
    pub popup: bool,
    /// The shelf, with its cog.
    pub library: bool,
    /// The settings panel.
    pub menu: bool,
    /// The bars.
    pub hud: bool,
}

/// One thing painted, over everything before it.
#[derive(Debug, Clone, Copy, PartialEq, Eq, Structural)]
pub enum Layer {
    /// The page ground over the whole window.
    Clear,
    /// The slice of the flow from `top`, `extent` high, in a column at `x`;
    /// `first` starts the frame.
    Column { top: i64, extent: i64, x: i64, first: bool },
    /// Stored highlights on such a slice.
    Highlights { top: i64, extent: i64, x: i64 },
    /// The live selection on such a slice.
    Selection { top: i64, extent: i64, x: i64 },
    /// A wash over the hovered card.
    Hover { top: i64, extent: i64 },
    /// An outline around the selected card.
    Outline { top: i64 },
    Note,
    Gear { top: i64 },
    Menu,
    Hud,
}

/// Some layers, with one more if it is there.
pub open spec fn with(s: Seq<Layer>, there: bool, l: Layer) -> Seq<Layer> {
    if there {
        s.push(l)
    } else {
        s
    }
}

impl Plan {
    pub open spec fn wf(self) -> bool {
        &&& 1 <= self.columns <= 2
        &&& 0 <= self.width && fits(self.width)
        &&& self.page < usize::MAX
        &&& self.turn matches Some(turn) ==> 0 <= turn.t <= 1000 && turn.from < usize::MAX
    }

    /// The width of one column.
    pub open spec fn column_width(self) -> int {
        if self.columns == 2 {
            self.width as int / 2
        } else {
            self.width as int
        }
    }

    /// The columns of a page and those after it, sliding, `dx` from their place.
    pub open spec fn sliding(self, pages: Pages, page: int, dx: int, n: int) -> Seq<Layer>
        decreases n,
    {
        if n <= 0 {
            Seq::empty()
        } else {
            let slice = slice_of(pages, page + n - 1);
            self.sliding(pages, page, dx, n - 1).push(
                Layer::Column {
                    top: slice.0 as i64,
                    extent: slice.1 as i64,
                    x: (dx + (n - 1) * self.column_width()) as i64,
                    first: false,
                },
            )
        }
    }

    /// The columns of the page and those after it in their places. Past the end
    /// of the chapter there is clean paper, with nothing over it.
    pub open spec fn standing(self, pages: Pages, n: int) -> Seq<Layer>
        decreases n,
    {
        if n <= 0 {
            Seq::empty()
        } else {
            let slice = slice_of(pages, self.page + n - 1);
            let x = ((n - 1) * self.column_width()) as i64;
            let column = self.standing(pages, n - 1).push(
                Layer::Column { top: slice.0 as i64, extent: slice.1 as i64, x, first: n == 1 },
            );
            if self.page + n - 1 < pages.tops@.len() {
                column.push(
                    Layer::Highlights { top: slice.0 as i64, extent: slice.1 as i64, x },
                ).push(Layer::Selection { top: slice.0 as i64, extent: slice.1 as i64, x })
            } else {
                column
            }
        }
    }

    /// What is under it, and over that the hovered card under the selected one, a
    /// note, the cog, the settings panel and the bars.
    pub open spec fn over(self, pages: Pages, under: Seq<Layer>) -> Seq<Layer> {
        let slice = slice_of(pages, self.page as int);
        let top = slice.0 as i64;
        let cards = with(
            with(under, self.hovered, Layer::Hover { top, extent: slice.1 as i64 }),
            self.selected,
            Layer::Outline { top },
        );
        let shelf = with(with(cards, self.popup, Layer::Note), self.library, Layer::Gear { top });
        with(with(shelf, self.menu, Layer::Menu), self.hud, Layer::Hud)
    }

    /// The layers of a frame. While a page turns, the old page and the new one
    /// slide over a cleared window.
    pub open spec fn layers(self, pages: Pages) -> Seq<Layer> {
        let under = match self.turn {
            Some(turn) => {
                let (out_x, in_x) = slid(turn.forward, turn.t as int, self.width as int);
                seq![Layer::Clear] + self.sliding(
                    pages,
                    turn.from as int,
                    out_x,
                    self.columns as int,
                ) + self.sliding(pages, self.page as int, in_x, self.columns as int)
            },
            None => self.standing(pages, self.columns as int),
        };
        self.over(pages, under)
    }
}

fn slice_at(pages: &Pages, page: usize) -> (r: (i64, i64))
    requires
        pages.page_height >= 0,
    ensures
        (r.0 as int, r.1 as int) == slice_of(*pages, page as int),
{
    if page < pages.count() {
        (pages.top_of(page), pages.extent_of(page))
    } else {
        (0, 0)
    }
}

fn slide(out: &mut Vec<Layer>, plan: &Plan, pages: &Pages, page: usize, dx: i64)
    requires
        plan.wf(),
        pages.page_height >= 0,
        page < usize::MAX,
        -plan.width <= dx <= plan.width,
    ensures
        final(out)@ == old(out)@ + plan.sliding(*pages, page as int, dx as int, plan.columns as int),
{
    let wide: i64 = if plan.columns == 2 {
        plan.width / 2
    } else {
        plan.width
    };
    let ghost was = out@;
    let mut c: usize = 0;
    assert(was + Seq::<Layer>::empty() =~= was);
    while c < plan.columns
        invariant
            c <= plan.columns,
            plan.wf(),
            pages.page_height >= 0,
            page < usize::MAX,
            -plan.width <= dx <= plan.width,
            wide == plan.column_width(),
            out@ == was + plan.sliding(*pages, page as int, dx as int, c as int),
        decreases plan.columns - c,
    {
        let (top, extent) = slice_at(pages, page + c);
        let x: i64 = if c == 0 {
            dx
        } else {
            dx + wide
        };
        proof {
            assert(c * wide == (if c == 0 {
                0
            } else {
                wide as int
            })) by (nonlinear_arith)
                requires
                    c == 0 || c == 1,
            ;
        }
        out.push(Layer::Column { top, extent, x, first: false });
        assert(out@ =~= was + plan.sliding(*pages, page as int, dx as int, c + 1));
        c = c + 1;
    }
}

fn stand(plan: &Plan, pages: &Pages) -> (out: Vec<Layer>)
    requires
        plan.wf(),
        pages.page_height >= 0,
    ensures
        out@ == plan.standing(*pages, plan.columns as int),
{
    let wide: i64 = if plan.columns == 2 {
        plan.width / 2
    } else {
        plan.width
    };
    let mut out: Vec<Layer> = Vec::new();
    let mut c: usize = 0;
    while c < plan.columns
        invariant
            c <= plan.columns,
            plan.wf(),
            pages.page_height >= 0,
            wide == plan.column_width(),
            out@ == plan.standing(*pages, c as int),
        decreases plan.columns - c,
    {
        let (top, extent) = slice_at(pages, plan.page + c);
        let x: i64 = if c == 0 {
            0
        } else {
            wide
        };
        proof {
            assert(c * wide == (if c == 0 {
                0
            } else {
                wide as int
            })) by (nonlinear_arith)
                requires
                    c == 0 || c == 1,
            ;
        }
        out.push(Layer::Column { top, extent, x, first: c == 0 });
        if plan.page + c < pages.count() {
            out.push(Layer::Highlights { top, extent, x });
            out.push(Layer::Selection { top, extent, x });
        }
        c = c + 1;
    }
    out
}

/// The layers of a frame, in the order they are painted.
///
/// Two columns are two pages of one flow side by side: the same document painted
/// twice at two offsets. A turn within one chapter is two slices of one document
/// in the same way.
pub fn compose(plan: &Plan, pages: &Pages) -> (r: Vec<Layer>)
    requires
        plan.wf(),
        pages.page_height >= 0,
    ensures
        r@ == plan.layers(*pages),
{
    let mut out: Vec<Layer> = Vec::new();
    match plan.turn {
        Some(turn) => {
            let (out_x, in_x) = slide_offsets(turn.forward, turn.t, plan.width);
            proof {
                assert(0 <= turn.t * plan.width / 1000 <= plan.width) by (nonlinear_arith)
                    requires
                        0 <= turn.t <= 1000,
                        0 <= plan.width,
                ;
            }
            out.push(Layer::Clear);
            assert(out@ =~= seq![Layer::Clear]);
            slide(&mut out, plan, pages, turn.from, out_x);
            slide(&mut out, plan, pages, plan.page, in_x);
        },
        None => {
            out = stand(plan, pages);
        },
    }
    let (top, extent) = slice_at(pages, plan.page);
    if plan.hovered {
        out.push(Layer::Hover { top, extent });
    }
    if plan.selected {
        out.push(Layer::Outline { top });
    }
    if plan.popup {
        out.push(Layer::Note);
    }
    if plan.library {
        out.push(Layer::Gear { top });
    }
    if plan.menu {
        out.push(Layer::Menu);
    }
    if plan.hud {
        out.push(Layer::Hud);
    }
    out
}

proof fn lemma_over_keeps(plan: Plan, pages: Pages, under: Seq<Layer>)
    requires
        under.len() > 0,
    ensures
        plan.over(pages, under).len() > 0,
        plan.over(pages, under)[0] == under[0],
{
}

proof fn lemma_standing_starts(plan: Plan, pages: Pages, n: int)
    requires
        n >= 1,
    ensures
        plan.standing(pages, n).len() > 0,
        plan.standing(pages, n)[0] matches Layer::Column { first, x, .. } && first && x == 0,
    decreases n,
{
    if n > 1 {
        lemma_standing_starts(plan, pages, n - 1);
    } else {
        assert(plan.standing(pages, 0) =~= Seq::empty());
        assert(0 * plan.column_width() == 0);
    }
}

/// Every frame starts by covering what the frame before it left: with a cleared
/// window or with its first column.
pub proof fn law_frames_start_clean(plan: Plan, pages: Pages)
    requires
        plan.wf(),
    ensures
        plan.layers(pages).len() > 0,
        match plan.layers(pages)[0] {
            Layer::Clear => plan.turn is Some,
            Layer::Column { first, x, .. } => plan.turn is None && first && x == 0,
            _ => false,
        },
{
    match plan.turn {
        Some(turn) => {
            let (out_x, in_x) = slid(turn.forward, turn.t as int, plan.width as int);
            let a = plan.sliding(pages, turn.from as int, out_x, plan.columns as int);
            let b = plan.sliding(pages, plan.page as int, in_x, plan.columns as int);
            lemma_over_keeps(plan, pages, seq![Layer::Clear] + a + b);
        },
        None => {
            lemma_standing_starts(plan, pages, plan.columns as int);
            lemma_over_keeps(plan, pages, plan.standing(pages, plan.columns as int));
        },
    }
}

} // verus!
