//! The line-snapped paginator.
//!
//! A chapter is laid out once, continuously, at the measure width; a page is a
//! view over that flow, a range of vertical offsets. A break may fall anywhere
//! that does not cut through an atom: a line of prose, a table row band, a code
//! line, an image.
//!
//! Offsets and heights are in thousandths of a CSS pixel.
use crate::order::{lemma_sorted, sort, sorted, Ranked};
use vstd::prelude::*;

verus! {

/// What a break must never cut through.
#[derive(Debug, Clone, Copy, PartialEq, Eq, Structural)]
pub enum AtomKind {
    /// A line box from an inline formatting context.
    Line,
    /// A table row band, derived from cell geometry.
    Row,
    /// An unbreakable block: an image, a rule, a replaced element.
    Block,
}

/// A stretch of the flow that belongs on one page.
#[derive(Debug, Clone, Copy, PartialEq, Eq, Structural)]
pub struct Atom {
    pub top: i64,
    pub bottom: i64,
    /// Atoms sharing a group are lines of one paragraph, or rows of one table.
    /// Widow and orphan control operates within a group.
    pub group: usize,
    pub kind: AtomKind,
    /// A break may not fall between this atom and the next one of another group.
    /// Set on headings so they are never stranded at the foot of a page.
    pub keep_with_next: bool,
}

/// Tolerance for treating a break as being at an atom's edge rather than
/// inside it: one pixel. Consecutive row bands may overlap by a rounding pixel,
/// and the break between them must stay legal.
pub const EDGE_EPS: i64 = 1000;

/// Minimum lines of a paragraph left at the foot of a page.
pub const ORPHANS: usize = 2;

/// Minimum lines of a paragraph carried to the head of a page.
pub const WIDOWS: usize = 2;

/// Does a break at `y` fall inside `a`, further than the tolerance from both edges?
pub open spec fn cuts(a: Atom, y: int) -> bool {
    a.top + EDGE_EPS < y < a.bottom - EDGE_EPS
}

impl Atom {
    /// Would a page break at `y` split this atom?
    pub fn splits(&self, y: i64) -> (r: bool)
        ensures
            r == cuts(*self, y as int),
    {
        (y as i128) > (self.top as i128) + (EDGE_EPS as i128)
            && (y as i128) < (self.bottom as i128) - (EDGE_EPS as i128)
    }
}

impl Ranked for Atom {
    open spec fn rank(self) -> (int, int) {
        (self.top as int, self.bottom as int)
    }

    fn precedes(&self, other: &Self) -> (r: bool) {
        self.top < other.top || (self.top == other.top && self.bottom < other.bottom)
    }
}

/// Page boundaries as offsets into the flow. Always starts with 0.
#[derive(Debug, Clone, PartialEq)]
pub struct Pages {
    pub tops: Vec<i64>,
    pub page_height: i64,
    pub content_height: i64,
}

/// Where page `page` starts; the start of the flow for a page that is not there.
pub open spec fn top_at(tops: Seq<i64>, page: int) -> int {
    if 0 <= page < tops.len() {
        tops[page] as int
    } else {
        0
    }
}

/// `x` brought into `lo..=hi`.
pub open spec fn clamped(x: int, lo: int, hi: int) -> int {
    if x < lo {
        lo
    } else if x > hi {
        hi
    } else {
        x
    }
}

/// The page that holds the offset `y`: the one before the first page that
/// starts below it.
pub open spec fn page_at(tops: Seq<i64>, y: int) -> int
    decreases tops.len(),
{
    if tops.len() <= 1 {
        0
    } else if tops[1] > y || tops[0] > y {
        0
    } else {
        1 + page_at(tops.drop_first(), y)
    }
}

impl Pages {
    pub open spec fn extent(&self, page: int) -> int {
        let next = if 0 <= page && page + 1 < self.tops@.len() {
            self.tops@[page + 1] as int
        } else {
            self.content_height as int
        };
        clamped(next - top_at(self.tops@, page), 0, self.page_height as int)
    }

    pub fn count(&self) -> (n: usize)
        ensures
            n == self.tops@.len(),
    {
        self.tops.len()
    }

    pub fn top_of(&self, page: usize) -> (y: i64)
        ensures
            y == top_at(self.tops@, page as int),
    {
        if page < self.tops.len() {
            self.tops[page]
        } else {
            0
        }
    }

    /// How much flow this page actually shows: the distance to the next page's
    /// top, or to the end of the content on the last page.
    ///
    /// This is almost never the full `page_height`. A break snaps up to a line
    /// boundary, so a page typically ends short of its nominal height. Anything
    /// painted past this point belongs to the next page.
    pub fn extent_of(&self, page: usize) -> (h: i64)
        requires
            self.page_height >= 0,
        ensures
            h == self.extent(page as int),
    {
        let top = self.top_of(page);
        let next = if page < self.tops.len() && page + 1 < self.tops.len() {
            self.tops[page + 1]
        } else {
            self.content_height
        };
        let shown: i128 = (next as i128) - (top as i128);
        if shown < 0 {
            0
        } else if shown > self.page_height as i128 {
            self.page_height
        } else {
            shown as i64
        }
    }

    /// Which page a flow offset falls on. Keeps the reader's place across a
    /// re-flow, and resolves a position to a page.
    pub fn page_containing(&self, y: i64) -> (page: usize)
        ensures
            page == page_at(self.tops@, y as int),
    {
        let n: usize = self.tops.len();
        if n == 0 || self.tops[0] > y {
            return 0;
        }
        let mut i: usize = 0;
        proof {
            assert(self.tops@.skip(0) =~= self.tops@);
        }
        while i + 1 < n && self.tops[i + 1] <= y
            invariant
                n == self.tops@.len(),
                i < n,
                self.tops@[i as int] <= y,
                page_at(self.tops@, y as int) == i + page_at(self.tops@.skip(i as int), y as int),
            decreases n - i,
        {
            proof {
                assert(self.tops@.skip(i as int).drop_first() =~= self.tops@.skip(i + 1));
            }
            i = i + 1;
        }
        i
    }
}

/// Some atom reaches from above `y` to below it.
pub open spec fn covered(atoms: Seq<Atom>, y: int) -> bool {
    exists|i: int| 0 <= i < atoms.len() && (#[trigger] atoms[i]).top < y < atoms[i].bottom - EDGE_EPS
}

/// The first atom that a break at `y` would cut.
pub open spec fn first_cut(atoms: Seq<Atom>, y: int) -> Option<Atom>
    decreases atoms.len(),
{
    if atoms.len() == 0 {
        None
    } else {
        match first_cut(atoms.drop_last(), y) {
            Some(a) => Some(a),
            None => if cuts(atoms.last(), y) {
                Some(atoms.last())
            } else {
                None
            },
        }
    }
}

/// A break at `y` cuts no atom.
pub open spec fn legal(atoms: Seq<Atom>, y: int) -> bool {
    forall|i: int| 0 <= i < atoms.len() ==> !cuts(#[trigger] atoms[i], y)
}

/// The atom above `y` that reaches lowest; of several, the last.
pub open spec fn lowest_above(atoms: Seq<Atom>, y: int) -> Option<Atom>
    decreases atoms.len(),
{
    if atoms.len() == 0 {
        None
    } else {
        let best = lowest_above(atoms.drop_last(), y);
        let a = atoms.last();
        if a.bottom <= y && (best matches Some(b) ==> b.bottom <= a.bottom) {
            Some(a)
        } else {
            best
        }
    }
}

/// The atom below `y` that starts highest; of several, the first.
pub open spec fn highest_below(atoms: Seq<Atom>, y: int) -> Option<Atom>
    decreases atoms.len(),
{
    if atoms.len() == 0 {
        None
    } else {
        let best = highest_below(atoms.drop_last(), y);
        let a = atoms.last();
        if a.top >= y && (best matches Some(b) ==> a.top < b.top) {
            Some(a)
        } else {
            best
        }
    }
}

/// The atoms of one group, in flow order.
pub open spec fn of_group(atoms: Seq<Atom>, group: usize) -> Seq<Atom>
    decreases atoms.len(),
{
    if atoms.len() == 0 {
        seq![]
    } else if atoms.last().group == group {
        of_group(atoms.drop_last(), group).push(atoms.last())
    } else {
        of_group(atoms.drop_last(), group)
    }
}

/// The smallest top among `atoms`, if there are any.
pub open spec fn min_top(atoms: Seq<Atom>) -> Option<int>
    decreases atoms.len(),
{
    if atoms.len() == 0 {
        None
    } else {
        match min_top(atoms.drop_last()) {
            Some(t) if t <= atoms.last().top => Some(t),
            _ => Some(atoms.last().top as int),
        }
    }
}

/// How many atoms end at or above `y`.
pub open spec fn count_above(atoms: Seq<Atom>, y: int) -> nat
    decreases atoms.len(),
{
    if atoms.len() == 0 {
        0
    } else {
        count_above(atoms.drop_last(), y) + if atoms.last().bottom <= y {
            1nat
        } else {
            0nat
        }
    }
}

/// A group that begins below the head of the page: it can move down whole.
pub open spec fn movable(atoms: Seq<Atom>, group: usize, top: int) -> bool {
    min_top(of_group(atoms, group)) matches Some(t) && t > top
}

/// Where the widow and orphan rule puts a break that falls between two atoms of
/// `group`.
pub open spec fn within_group(atoms: Seq<Atom>, group: usize, top: int, y: int) -> int {
    let lines = of_group(atoms, group);
    let above = count_above(lines, y);
    if (lines.len() < ORPHANS + WIDOWS || above < ORPHANS) && movable(atoms, group, top) {
        min_top(lines)->0
    } else if lines.len() >= WIDOWS && lines.len() - above < WIDOWS
        && lines[lines.len() - WIDOWS].top > top {
        lines[lines.len() - WIDOWS].top as int
    } else {
        y
    }
}

/// One pass of the break rules: where a break wanted at `y` goes, on a page
/// that starts at `top`.
pub open spec fn ruled(atoms: Seq<Atom>, top: int, y: int, strict: bool) -> int {
    match first_cut(atoms, y) {
        Some(a) => a.top as int,
        None => if !strict {
            y
        } else {
            match (lowest_above(atoms, y), highest_below(atoms, y)) {
                (Some(before), Some(after)) => {
                    if before.group == after.group {
                        within_group(atoms, before.group, top, y)
                    } else if before.keep_with_next && movable(atoms, before.group, top) {
                        min_top(of_group(atoms, before.group))->0
                    } else {
                        y
                    }
                },
                _ => y,
            }
        },
    }
}

/// How many atoms start above `y`.
pub open spec fn starting_above(atoms: Seq<Atom>, y: int) -> nat
    decreases atoms.len(),
{
    if atoms.len() == 0 {
        0
    } else {
        starting_above(atoms.drop_last(), y) + if atoms.last().top < y {
            1nat
        } else {
            0nat
        }
    }
}

/// The break rules applied until they leave the break where it is: the break at
/// or above `y`, or `top` where there is none on the page.
pub open spec fn settled(atoms: Seq<Atom>, top: int, y: int, strict: bool) -> int
    decreases starting_above(atoms, y),
{
    let next = ruled(atoms, top, y, strict);
    if next >= y {
        if y <= top {
            top
        } else {
            y
        }
    } else if next <= top {
        top
    } else {
        proof {
            lemma_ruled(atoms, top, y, strict);
        }
        settled(atoms, top, next, strict)
    }
}

/// Where the page after the one at `top` starts: by every rule; failing that, by
/// the one that no atom is cut; failing that, after a full page.
pub open spec fn next_top(atoms: Seq<Atom>, top: int, page_height: int) -> int {
    let ideal = top + page_height;
    let strict = settled(atoms, top, ideal, true);
    let loose = settled(atoms, top, ideal, false);
    if strict > top {
        strict
    } else if loose > top {
        loose
    } else {
        ideal
    }
}

/// The tops of all pages from the one at `top` on.
pub open spec fn tops_from(atoms: Seq<Atom>, top: int, content: int, page_height: int) -> Seq<int>
    decreases content - top,
{
    if page_height <= 0 || top + page_height >= content {
        seq![top]
    } else {
        proof {
            lemma_next_top(atoms, top, page_height);
        }
        seq![top] + tops_from(atoms, next_top(atoms, top, page_height), content, page_height)
    }
}

/// The pages of a flow.
pub open spec fn page_tops(atoms: Seq<Atom>, content: int, page_height: int) -> Seq<int> {
    tops_from(sorted(atoms), 0, content, page_height)
}

pub proof fn lemma_first_cut(atoms: Seq<Atom>, y: int)
    ensures
        match first_cut(atoms, y) {
            Some(a) => atoms.contains(a) && cuts(a, y) && !legal(atoms, y),
            None => legal(atoms, y),
        },
    decreases atoms.len(),
{
    if atoms.len() > 0 {
        lemma_first_cut(atoms.drop_last(), y);
        let front = atoms.drop_last();
        match first_cut(front, y) {
            Some(a) => {
                let i = choose|i: int| 0 <= i < front.len() && front[i] == a;
                assert(atoms[i] == a);
            },
            None => {
                assert(forall|i: int| 0 <= i < front.len() ==> front[i] == #[trigger] atoms[i]);
                if cuts(atoms.last(), y) {
                    assert(atoms[atoms.len() - 1] == atoms.last());
                } else {
                    assert forall|i: int| 0 <= i < atoms.len() implies !cuts(#[trigger] atoms[i], y) by {
                        if i < front.len() {
                            assert(!cuts(front[i], y));
                        }
                    }
                }
            },
        }
    }
}

pub proof fn lemma_of_group(atoms: Seq<Atom>, group: usize)
    ensures
        of_group(atoms, group).len() <= atoms.len(),
        forall|a: Atom| #[trigger] of_group(atoms, group).contains(a) ==> atoms.contains(a),
    decreases atoms.len(),
{
    if atoms.len() > 0 {
        let front = atoms.drop_last();
        lemma_of_group(front, group);
        assert forall|a: Atom| #[trigger] of_group(atoms, group).contains(a) implies atoms.contains(a) by {
            let g = of_group(atoms, group);
            let i = choose|i: int| 0 <= i < g.len() && g[i] == a;
            let gf = of_group(front, group);
            if i < gf.len() {
                assert(gf[i] == a);
                assert(gf.contains(a));
                let k = choose|k: int| 0 <= k < front.len() && front[k] == a;
                assert(atoms[k] == a);
            } else {
                assert(atoms[atoms.len() - 1] == a);
            }
        }
    }
}

pub proof fn lemma_min_top(atoms: Seq<Atom>)
    ensures
        atoms.len() == 0 <==> min_top(atoms) is None,
        min_top(atoms) matches Some(t) ==> exists|i: int|
            0 <= i < atoms.len() && (#[trigger] atoms[i]).top == t,
        min_top(atoms) matches Some(t) ==> forall|i: int|
            0 <= i < atoms.len() ==> t <= (#[trigger] atoms[i]).top,
    decreases atoms.len(),
{
    if atoms.len() > 0 {
        let front = atoms.drop_last();
        lemma_min_top(front);
        let t = min_top(atoms)->0;
        match min_top(front) {
            Some(u) => {
                let i = choose|i: int| 0 <= i < front.len() && (#[trigger] front[i]).top == u;
                assert(atoms[i].top == u);
                assert forall|i: int| 0 <= i < atoms.len() implies t <= (#[trigger] atoms[i]).top by {
                    if i < front.len() {
                        assert(front[i] == atoms[i]);
                    }
                }
                assert(atoms[atoms.len() - 1] == atoms.last());
            },
            None => {
                assert(atoms[0] == atoms.last());
            },
        }
    }
}

pub proof fn lemma_starting_above(atoms: Seq<Atom>, lo: int, hi: int)
    requires
        lo <= hi,
    ensures
        starting_above(atoms, lo) <= starting_above(atoms, hi) <= atoms.len(),
        (exists|i: int| 0 <= i < atoms.len() && lo <= (#[trigger] atoms[i]).top < hi)
            ==> starting_above(atoms, lo) < starting_above(atoms, hi),
    decreases atoms.len(),
{
    if atoms.len() > 0 {
        let front = atoms.drop_last();
        lemma_starting_above(front, lo, hi);
        if exists|i: int| 0 <= i < atoms.len() && lo <= (#[trigger] atoms[i]).top < hi {
            let i = choose|i: int| 0 <= i < atoms.len() && lo <= (#[trigger] atoms[i]).top < hi;
            if i < front.len() {
                assert(front[i] == atoms[i]);
            }
        }
    }
}

/// A pass of the rules that moves a break up moves it to the top of an atom.
pub proof fn lemma_ruled(atoms: Seq<Atom>, top: int, y: int, strict: bool)
    ensures
        ruled(atoms, top, y, strict) < y ==> {
            &&& exists|i: int|
                0 <= i < atoms.len() && (#[trigger] atoms[i]).top == ruled(atoms, top, y, strict)
            &&& starting_above(atoms, ruled(atoms, top, y, strict)) < starting_above(atoms, y)
        },
{
    let next = ruled(atoms, top, y, strict);
    lemma_first_cut(atoms, y);
    if next < y {
        if first_cut(atoms, y) is Some {
            let a = first_cut(atoms, y)->0;
            let i = choose|i: int| 0 <= i < atoms.len() && atoms[i] == a;
            assert(atoms[i].top == next);
        } else {
            let before = lowest_above(atoms, y)->0;
            let lines = of_group(atoms, before.group);
            lemma_of_group(atoms, before.group);
            lemma_min_top(lines);
            let k = choose|k: int| 0 <= k < lines.len() && (#[trigger] lines[k]).top == next;
            assert(exists|k: int| 0 <= k < lines.len() && (#[trigger] lines[k]).top == next);
            assert(lines.contains(lines[k]));
            let i = choose|i: int| 0 <= i < atoms.len() && atoms[i] == lines[k];
            assert(atoms[i].top == next);
        }
        lemma_starting_above(atoms, next, y);
    }
}

/// A settled break lies on the page, cuts nothing below its head, and is the
/// wanted one or the top of an atom.
pub proof fn lemma_settled(atoms: Seq<Atom>, top: int, y: int, strict: bool)
    ensures
        settled(atoms, top, y, strict) >= top,
        settled(atoms, top, y, strict) > top ==> {
            let cut = settled(atoms, top, y, strict);
            &&& cut <= y
            &&& legal(atoms, cut)
            &&& cut < y ==> exists|i: int| 0 <= i < atoms.len() && (#[trigger] atoms[i]).top == cut
        },
    decreases starting_above(atoms, y),
{
    let next = ruled(atoms, top, y, strict);
    lemma_first_cut(atoms, y);
    if next >= y {
    } else if next <= top {
    } else {
        lemma_ruled(atoms, top, y, strict);
        lemma_settled(atoms, top, next, strict);
    }
}

/// Without the typographic rules, a settled break is the largest there is: every
/// position behind it, up to the one that was wanted, is inside an atom.
pub proof fn law_a_loose_break_is_the_largest(atoms: Seq<Atom>, top: int, y: int, z: int)
    requires
        settled(atoms, top, y, false) < z <= y,
    ensures
        covered(atoms, z),
    decreases starting_above(atoms, y),
{
    let next = ruled(atoms, top, y, false);
    lemma_first_cut(atoms, y);
    lemma_settled(atoms, top, y, false);
    assert(next < y);
    let a = first_cut(atoms, y)->0;
    let i = choose|i: int| 0 <= i < atoms.len() && atoms[i] == a;
    if a.top < z {
        assert(atoms[i].top < z < atoms[i].bottom - EDGE_EPS);
    } else {
        lemma_ruled(atoms, top, y, false);
        law_a_loose_break_is_the_largest(atoms, top, next, z);
    }
}

/// The next page starts below this one and no further than a page on.
pub proof fn lemma_next_top(atoms: Seq<Atom>, top: int, page_height: int)
    requires
        page_height > 0,
    ensures
        top < next_top(atoms, top, page_height) <= top + page_height,
        legal(atoms, next_top(atoms, top, page_height)) || (forall|z: int|
            top < z <= top + page_height ==> #[trigger] covered(atoms, z)),
        next_top(atoms, top, page_height) < top + page_height ==> exists|i: int|
            0 <= i < atoms.len() && (#[trigger] atoms[i]).top == next_top(atoms, top, page_height),
{
    let ideal = top + page_height;
    lemma_settled(atoms, top, ideal, true);
    lemma_settled(atoms, top, ideal, false);
    let strict = settled(atoms, top, ideal, true);
    let loose = settled(atoms, top, ideal, false);
    if strict <= top && loose <= top {
        assert forall|z: int| top < z <= ideal implies #[trigger] covered(atoms, z) by {
            law_a_loose_break_is_the_largest(atoms, top, ideal, z);
        }
    }
}

/// How the tops of the pages from `top` on follow from each other.
pub proof fn lemma_tops(atoms: Seq<Atom>, top: int, content: int, page_height: int)
    ensures
        ({
            let tops = tops_from(atoms, top, content, page_height);
            &&& tops.len() > 0
            &&& tops[0] == top
            &&& forall|i: int|
                0 <= i < tops.len() - 1 ==> #[trigger] tops[i] + page_height < content && tops[i + 1]
                    == next_top(atoms, tops[i], page_height)
            &&& page_height <= 0 || tops.last() + page_height >= content
            &&& page_height <= 0 ==> tops.len() == 1
        }),
    decreases content - top,
{
    if page_height > 0 && top + page_height < content {
        lemma_next_top(atoms, top, page_height);
        let next = next_top(atoms, top, page_height);
        lemma_tops(atoms, next, content, page_height);
        let tops = tops_from(atoms, top, content, page_height);
        let rest = tops_from(atoms, next, content, page_height);
        assert forall|i: int| 0 <= i < tops.len() - 1 implies #[trigger] tops[i] + page_height < content
            && tops[i + 1] == next_top(atoms, tops[i], page_height) by {
            if i > 0 {
                assert(tops[i] == rest[i - 1]);
                assert(tops[i + 1] == rest[i]);
            } else {
                assert(tops[1] == rest[0]);
            }
        }
    }
}

fn first_split(atoms: &Vec<Atom>, y: i64) -> (r: Option<Atom>)
    ensures
        r == first_cut(atoms@, y as int),
{
    let mut i: usize = 0;
    let mut found: Option<Atom> = None;
    assert(atoms@.take(0) =~= Seq::empty());
    while i < atoms.len()
        invariant
            i <= atoms.len(),
            found == first_cut(atoms@.take(i as int), y as int),
        decreases atoms.len() - i,
    {
        assert(atoms@.take(i + 1).drop_last() =~= atoms@.take(i as int));
        if found.is_none() && atoms[i].splits(y) {
            found = Some(atoms[i]);
        }
        i = i + 1;
    }
    assert(atoms@.take(i as int) =~= atoms@);
    found
}

fn neighbours(atoms: &Vec<Atom>, y: i64) -> (r: (Option<Atom>, Option<Atom>))
    ensures
        r.0 == lowest_above(atoms@, y as int),
        r.1 == highest_below(atoms@, y as int),
{
    let mut i: usize = 0;
    let mut before: Option<Atom> = None;
    let mut after: Option<Atom> = None;
    assert(atoms@.take(0) =~= Seq::empty());
    while i < atoms.len()
        invariant
            i <= atoms.len(),
            before == lowest_above(atoms@.take(i as int), y as int),
            after == highest_below(atoms@.take(i as int), y as int),
        decreases atoms.len() - i,
    {
        assert(atoms@.take(i + 1).drop_last() =~= atoms@.take(i as int));
        let a = atoms[i];
        if a.bottom <= y {
            before = match before {
                Some(b) => if b.bottom <= a.bottom {
                    Some(a)
                } else {
                    Some(b)
                },
                None => Some(a),
            };
        }
        if a.top >= y {
            after = match after {
                Some(b) => if a.top < b.top {
                    Some(a)
                } else {
                    Some(b)
                },
                None => Some(a),
            };
        }
        i = i + 1;
    }
    assert(atoms@.take(i as int) =~= atoms@);
    (before, after)
}

/// The atoms of one group, in flow order.
fn members(atoms: &Vec<Atom>, group: usize) -> (r: Vec<Atom>)
    ensures
        r@ == of_group(atoms@, group),
{
    let mut i: usize = 0;
    let mut out: Vec<Atom> = Vec::new();
    assert(atoms@.take(0) =~= Seq::empty());
    while i < atoms.len()
        invariant
            i <= atoms.len(),
            out@ == of_group(atoms@.take(i as int), group),
        decreases atoms.len() - i,
    {
        assert(atoms@.take(i + 1).drop_last() =~= atoms@.take(i as int));
        if atoms[i].group == group {
            out.push(atoms[i]);
        }
        i = i + 1;
    }
    assert(atoms@.take(i as int) =~= atoms@);
    out
}

/// The smallest top among `lines`.
fn group_top(lines: &Vec<Atom>) -> (r: Option<i64>)
    ensures
        r is Some == min_top(lines@) is Some,
        r matches Some(t) ==> min_top(lines@) == Some(t as int),
{
    let mut i: usize = 0;
    let mut best: Option<i64> = None;
    assert(lines@.take(0) =~= Seq::empty());
    while i < lines.len()
        invariant
            i <= lines.len(),
            best is Some == min_top(lines@.take(i as int)) is Some,
            best matches Some(t) ==> min_top(lines@.take(i as int)) == Some(t as int),
        decreases lines.len() - i,
    {
        assert(lines@.take(i + 1).drop_last() =~= lines@.take(i as int));
        let t: i64 = lines[i].top;
        best = match best {
            Some(b) => if b <= t {
                Some(b)
            } else {
                Some(t)
            },
            None => Some(t),
        };
        i = i + 1;
    }
    assert(lines@.take(i as int) =~= lines@);
    best
}

fn ended_by(lines: &Vec<Atom>, y: i64) -> (n: usize)
    ensures
        n == count_above(lines@, y as int),
        n <= lines.len(),
{
    let mut i: usize = 0;
    let mut n: usize = 0;
    assert(lines@.take(0) =~= Seq::empty());
    while i < lines.len()
        invariant
            i <= lines.len(),
            n <= i,
            n == count_above(lines@.take(i as int), y as int),
        decreases lines.len() - i,
    {
        assert(lines@.take(i + 1).drop_last() =~= lines@.take(i as int));
        if lines[i].bottom <= y {
            n = n + 1;
        }
        i = i + 1;
    }
    assert(lines@.take(i as int) =~= lines@);
    n
}

/// One pass of the break rules. Returns a position at or above `y`, or `y` where
/// that is legal.
fn apply_rules(atoms: &Vec<Atom>, top: i64, y: i64, strict: bool) -> (r: i64)
    ensures
        r == ruled(atoms@, top as int, y as int, strict),
{
    // A break never cuts through an atom. This one is not negotiable.
    if let Some(a) = first_split(atoms, y) {
        return a.top;
    }
    if !strict {
        return y;
    }
    let (before, after) = neighbours(atoms, y);
    match (before, after) {
        (Some(b), Some(a)) => {
            let lines = members(atoms, b.group);
            // A group that began on an earlier page cannot be moved down.
            let start = group_top(&lines);
            let moved: Option<i64> = match start {
                Some(t) => if t > top {
                    Some(t)
                } else {
                    None
                },
                None => None,
            };
            if b.group != a.group {
                // A heading is never stranded at the foot of a page.
                return match moved {
                    Some(t) => if b.keep_with_next {
                        t
                    } else {
                        y
                    },
                    None => y,
                };
            }
            // Widows and orphans, within a paragraph that spans the break.
            let total: usize = lines.len();
            let above: usize = ended_by(&lines, y);
            if total < ORPHANS + WIDOWS || above < ORPHANS {
                if let Some(t) = moved {
                    return t;
                }
            }
            if total >= WIDOWS && total - above < WIDOWS {
                // Carry enough of the paragraph over, but never from above
                // this page's top.
                let kept = lines[total - WIDOWS];
                if kept.top > top {
                    return kept.top;
                }
            }
            y
        },
        _ => y,
    }
}

/// Largest legal break position that is no larger than `ideal`, or `top` if none
/// exists.
///
/// `strict` applies the typographic rules (keep-with-next, widows, orphans) on
/// top of the hard invariant that a break may not cut through an atom.
fn snap(atoms: &Vec<Atom>, top: i64, ideal: i64, strict: bool) -> (r: i64)
    ensures
        r == settled(atoms@, top as int, ideal as int, strict),
{
    let mut y: i64 = ideal;
    loop
        invariant
            settled(atoms@, top as int, ideal as int, strict) == settled(
                atoms@,
                top as int,
                y as int,
                strict,
            ),
        decreases starting_above(atoms@, y as int),
    {
        let next = apply_rules(atoms, top, y, strict);
        if next >= y {
            return if y <= top {
                top
            } else {
                y
            };
        }
        if next <= top {
            return top;
        }
        proof {
            lemma_ruled(atoms@, top as int, y as int, strict);
        }
        // Every rule moves the break up, to the top of an atom.
        y = next;
    }
}

/// The offsets in `tops` as integers.
pub open spec fn offsets(tops: Seq<i64>) -> Seq<int> {
    tops.map_values(|t: i64| t as int)
}

/// Split a laid-out flow into pages.
///
/// `atoms` need not be sorted. `page_height` is the usable height of one page.
pub fn paginate(atoms: &Vec<Atom>, content_height: i64, page_height: i64) -> (pages: Pages)
    ensures
        pages.page_height == page_height,
        pages.content_height == content_height,
        offsets(pages.tops@) == page_tops(atoms@, content_height as int, page_height as int),
{
    let placed = sort(atoms);
    let mut tops: Vec<i64> = Vec::new();
    let mut top: i64 = 0;
    let ghost all = page_tops(atoms@, content_height as int, page_height as int);
    proof {
        assert(all =~= offsets(tops@) + all);
    }
    loop
        invariant
            placed@ == sorted(atoms@),
            all == page_tops(atoms@, content_height as int, page_height as int),
            all == offsets(tops@) + tops_from(
                placed@,
                top as int,
                content_height as int,
                page_height as int,
            ),
        decreases content_height - top,
    {
        let ghost shown = offsets(tops@);
        let ideal: i128 = (top as i128) + (page_height as i128);
        if page_height <= 0 || ideal >= content_height as i128 {
            tops.push(top);
            proof {
                assert(offsets(tops@) =~= shown + seq![top as int]);
            }
            return Pages { tops, page_height, content_height };
        }
        let ideal: i64 = ideal as i64;
        proof {
            lemma_next_top(placed@, top as int, page_height as int);
        }
        // Every rule; then only the invariant that no atom is split; then a
        // single atom taller than a page is cut rather than wedging the reader.
        let mut cut = snap(&placed, top, ideal, true);
        if cut <= top {
            cut = snap(&placed, top, ideal, false);
        }
        if cut <= top {
            cut = ideal;
        }
        tops.push(top);
        proof {
            assert(offsets(tops@) =~= shown + seq![top as int]);
            assert(all =~= offsets(tops@) + tops_from(
                placed@,
                cut as int,
                content_height as int,
                page_height as int,
            ));
        }
        top = cut;
    }
}

/// A flow starts on its first page, at offset 0; without a page height it is
/// one page.
pub proof fn law_pages_start_at_the_head_of_the_flow(atoms: Seq<Atom>, content: int, page_height: int)
    ensures
        page_tops(atoms, content, page_height).len() >= 1,
        page_tops(atoms, content, page_height)[0] == 0,
        page_height <= 0 || page_height >= content ==> page_tops(atoms, content, page_height).len() == 1,
{
    lemma_tops(sorted(atoms), 0, content, page_height);
}

/// Pages advance: each starts below the one before it, no further than a page
/// height on, and above the end of the flow.
pub proof fn law_pages_advance(atoms: Seq<Atom>, content: int, page_height: int, page: int)
    requires
        0 <= page < page_tops(atoms, content, page_height).len() - 1,
    ensures
        ({
            let tops = page_tops(atoms, content, page_height);
            &&& tops[page] < tops[page + 1] <= tops[page] + page_height
            &&& tops[page + 1] < content
        }),
{
    lemma_tops(sorted(atoms), 0, content, page_height);
    let tops = page_tops(atoms, content, page_height);
    assert(tops[page] + page_height < content);
    lemma_next_top(sorted(atoms), tops[page], page_height);
}

/// Pages cover the flow: the last one reaches its end.
pub proof fn law_pages_cover_the_flow(atoms: Seq<Atom>, content: int, page_height: int)
    requires
        page_height > 0,
    ensures
        page_tops(atoms, content, page_height).last() + page_height >= content,
{
    lemma_tops(sorted(atoms), 0, content, page_height);
}

/// No page starts inside an atom, except where atoms cover the page before it
/// from head to foot, so that no break on it cuts nothing.
pub proof fn law_no_page_break_cuts_an_atom(atoms: Seq<Atom>, content: int, page_height: int, page: int)
    requires
        0 <= page < page_tops(atoms, content, page_height).len() - 1,
    ensures
        ({
            let tops = page_tops(atoms, content, page_height);
            legal(atoms, tops[page + 1]) || (forall|z: int|
                tops[page] < z <= tops[page] + page_height ==> #[trigger] covered(atoms, z))
        }),
{
    let placed = sorted(atoms);
    lemma_tops(placed, 0, content, page_height);
    lemma_sorted(atoms);
    let tops = page_tops(atoms, content, page_height);
    assert(tops[page] + page_height < content);
    lemma_next_top(placed, tops[page], page_height);
    let y = tops[page + 1];
    if legal(placed, y) {
        assert forall|i: int| 0 <= i < atoms.len() implies !cuts(#[trigger] atoms[i], y) by {
            assert(atoms.contains(atoms[i]));
            assert(placed.contains(atoms[i]));
            let k = choose|k: int| 0 <= k < placed.len() && placed[k] == atoms[i];
            assert(!cuts(placed[k], y));
        }
    } else {
        assert forall|z: int| tops[page] < z <= tops[page] + page_height implies #[trigger] covered(atoms, z) by {
            assert(covered(placed, z));
            let k = choose|k: int| 0 <= k < placed.len() && (#[trigger] placed[k]).top < z < placed[k].bottom - EDGE_EPS;
            assert(placed.contains(placed[k]));
            assert(atoms.contains(placed[k]));
            let i = choose|i: int| 0 <= i < atoms.len() && atoms[i] == placed[k];
            assert(atoms[i].top < z < atoms[i].bottom - EDGE_EPS);
        }
    }
}

/// The atom just above a break and the one just below it.
pub open spec fn around(atoms: Seq<Atom>, y: int) -> Option<(Atom, Atom)> {
    match (lowest_above(atoms, y), highest_below(atoms, y)) {
        (Some(a), Some(b)) => Some((a, b)),
        _ => None,
    }
}

proof fn lemma_lowest_above(atoms: Seq<Atom>, y: int)
    ensures
        lowest_above(atoms, y) matches Some(a) ==> atoms.contains(a) && a.bottom <= y,
    decreases atoms.len(),
{
    if atoms.len() > 0 {
        let front = atoms.drop_last();
        lemma_lowest_above(front, y);
        assert(atoms[atoms.len() - 1] == atoms.last());
        if let Some(a) = lowest_above(front, y) {
            let i = choose|i: int| 0 <= i < front.len() && front[i] == a;
            assert(atoms[i] == a);
        }
    }
}

proof fn lemma_settled_rules(atoms: Seq<Atom>, top: int, y: int)
    requires
        settled(atoms, top, y, true) > top,
    ensures
        ruled(atoms, top, settled(atoms, top, y, true), true) >= settled(atoms, top, y, true),
    decreases starting_above(atoms, y),
{
    let next = ruled(atoms, top, y, true);
    if next < y && next > top {
        lemma_ruled(atoms, top, y, true);
        lemma_settled_rules(atoms, top, next);
    }
}

proof fn lemma_group_holds(atoms: Seq<Atom>, a: Atom)
    requires
        atoms.contains(a),
    ensures
        of_group(atoms, a.group).contains(a),
    decreases atoms.len(),
{
    let i = choose|i: int| 0 <= i < atoms.len() && atoms[i] == a;
    let front = atoms.drop_last();
    let g = of_group(atoms, a.group);
    if i < front.len() {
        assert(front[i] == a);
        lemma_group_holds(front, a);
        let gf = of_group(front, a.group);
        let k = choose|k: int| 0 <= k < gf.len() && gf[k] == a;
        assert(g[k] == a);
    } else {
        assert(g[g.len() - 1] == a);
    }
}

proof fn lemma_in_group(atoms: Seq<Atom>, group: usize, k: int)
    requires
        0 <= k < of_group(atoms, group).len(),
    ensures
        atoms.contains(of_group(atoms, group)[k]),
        of_group(atoms, group)[k].group == group,
    decreases atoms.len(),
{
    let front = atoms.drop_last();
    let g = of_group(front, group);
    if k < g.len() {
        lemma_in_group(front, group, k);
        let i = choose|i: int| 0 <= i < front.len() && front[i] == g[k];
        assert(atoms[i] == g[k]);
    } else {
        assert(atoms[atoms.len() - 1] == atoms.last());
    }
}

/// A group can move down whole where every atom of it starts below the head of the
/// page.
proof fn lemma_group_moves(atoms: Seq<Atom>, a: Atom, top: int)
    requires
        atoms.contains(a),
    ensures
        movable(atoms, a.group, top) <==> forall|k: int|
            0 <= k < atoms.len() && (#[trigger] atoms[k]).group == a.group ==> atoms[k].top > top,
{
    let lines = of_group(atoms, a.group);
    lemma_group_holds(atoms, a);
    lemma_min_top(lines);
    let t = min_top(lines)->0;
    if t > top {
        assert forall|k: int| 0 <= k < atoms.len() && (#[trigger] atoms[k]).group == a.group implies atoms[k].top
            > top by {
            assert(atoms.contains(atoms[k]));
            lemma_group_holds(atoms, atoms[k]);
            let m = choose|m: int| 0 <= m < lines.len() && lines[m] == atoms[k];
            assert(t <= lines[m].top);
        }
    } else {
        let m = choose|m: int| 0 <= m < lines.len() && lines[m].top == t;
        lemma_in_group(atoms, a.group, m);
        let k = choose|k: int| 0 <= k < atoms.len() && atoms[k] == lines[m];
        assert(atoms[k].group == a.group && atoms[k].top <= top);
    }
}

/// A heading is never stranded at the foot of a page: where a break that keeps
/// the rules exists on a page, the break after the page has no heading right
/// above it, unless that heading's block began at or above the head of the page.
pub proof fn law_headings_stay_with_their_text(
    atoms: Seq<Atom>,
    content: int,
    page_height: int,
    page: int,
)
    requires
        0 <= page < page_tops(atoms, content, page_height).len() - 1,
        forall|i: int| 0 <= i < atoms.len() ==> (#[trigger] atoms[i]).top < atoms[i].bottom,
    ensures
        ({
            let placed = sorted(atoms);
            let tops = page_tops(atoms, content, page_height);
            settled(placed, tops[page], tops[page] + page_height, true) > tops[page] ==> (around(
                placed,
                tops[page + 1],
            ) matches Some((above, below)) ==> above.keep_with_next && above.group != below.group
                ==> exists|k: int|
                0 <= k < placed.len() && (#[trigger] placed[k]).group == above.group && placed[k].top
                    <= tops[page])
        }),
{
    let placed = sorted(atoms);
    let tops = page_tops(atoms, content, page_height);
    lemma_tops(placed, 0, content, page_height);
    lemma_sorted(atoms);
    let top = tops[page];
    assert(top + page_height < content);
    let y = tops[page + 1];
    if settled(placed, top, top + page_height, true) > top {
        lemma_settled_rules(placed, top, top + page_height);
        if let Some((above, below)) = around(placed, y) {
            lemma_lowest_above(placed, y);
            lemma_group_moves(placed, above, top);
            if above.keep_with_next && above.group != below.group && movable(placed, above.group, top) {
                lemma_settled(placed, top, top + page_height, true);
                lemma_first_cut(placed, y);
                lemma_lowest_above(placed, y);
                assert(atoms.contains(above));
                let i = choose|i: int| 0 <= i < atoms.len() && atoms[i] == above;
                assert(atoms[i].top < atoms[i].bottom);
                lemma_group_holds(placed, above);
                let lines = of_group(placed, above.group);
                lemma_min_top(lines);
                let k = choose|k: int| 0 <= k < lines.len() && lines[k] == above;
                assert(min_top(lines)->0 <= lines[k].top);
            }
        }
    }
}

/// Widows and orphans: where a break that keeps the rules exists on a page, a
/// break inside a paragraph that began on that page leaves at least two of its
/// lines above and carries at least two over, unless the lines that would have to
/// move start at or above the head of the page; so no paragraph of fewer than four
/// lines is broken.
pub proof fn law_widows_and_orphans(atoms: Seq<Atom>, content: int, page_height: int, page: int)
    requires
        0 <= page < page_tops(atoms, content, page_height).len() - 1,
        forall|i: int| 0 <= i < atoms.len() ==> (#[trigger] atoms[i]).top < atoms[i].bottom,
    ensures
        ({
            let placed = sorted(atoms);
            let tops = page_tops(atoms, content, page_height);
            settled(placed, tops[page], tops[page] + page_height, true) > tops[page] ==> (around(
                placed,
                tops[page + 1],
            ) matches Some((above, below)) ==> above.group == below.group ==> {
                let lines = of_group(placed, above.group);
                let kept = count_above(lines, tops[page + 1]);
                &&& (forall|k: int|
                    0 <= k < placed.len() && (#[trigger] placed[k]).group == above.group ==> placed[k].top
                        > tops[page]) ==> lines.len() >= 4 && kept >= 2
                &&& lines.len() < 2 || lines.len() - kept >= 2 || lines[lines.len() - 2].top <= tops[page]
                    || lines[lines.len() - 2].top >= tops[page + 1]
            })
        }),
{
    let placed = sorted(atoms);
    let tops = page_tops(atoms, content, page_height);
    lemma_tops(placed, 0, content, page_height);
    lemma_sorted(atoms);
    let top = tops[page];
    assert(top + page_height < content);
    let y = tops[page + 1];
    if settled(placed, top, top + page_height, true) > top {
        lemma_settled_rules(placed, top, top + page_height);
        if let Some((above, below)) = around(placed, y) {
            if above.group == below.group {
                lemma_settled(placed, top, top + page_height, true);
                lemma_first_cut(placed, y);
                lemma_lowest_above(placed, y);
                assert(atoms.contains(above));
                let i = choose|i: int| 0 <= i < atoms.len() && atoms[i] == above;
                assert(atoms[i].top < atoms[i].bottom);
                lemma_group_holds(placed, above);
                let lines = of_group(placed, above.group);
                lemma_min_top(lines);
                let k = choose|k: int| 0 <= k < lines.len() && lines[k] == above;
                assert(min_top(lines)->0 <= lines[k].top);
                lemma_group_moves(placed, above, top);
            }
        }
    }
}

proof fn lemma_count_bound(atoms: Seq<Atom>, top: int, content: int, page_height: int)
    requires
        page_height > 0,
    ensures
        (tops_from(atoms, top, content, page_height).len() - 1 - (atoms.len() - starting_above(
            atoms,
            top + 1,
        ))) * page_height <= if content > top {
            content - top
        } else {
            0
        },
    decreases content - top,
{
    lemma_starting_above(atoms, top + 1, top + 1);
    let n = tops_from(atoms, top, content, page_height).len();
    let left = atoms.len() - starting_above(atoms, top + 1);
    if top + page_height < content {
        lemma_next_top(atoms, top, page_height);
        let next = next_top(atoms, top, page_height);
        lemma_count_bound(atoms, next, content, page_height);
        lemma_starting_above(atoms, top + 1, next + 1);
        let rest = tops_from(atoms, next, content, page_height).len();
        let rest_left = atoms.len() - starting_above(atoms, next + 1);
        assert(n == rest + 1);
        if next < top + page_height {
            let i = choose|i: int| 0 <= i < atoms.len() && (#[trigger] atoms[i]).top == next;
            assert(top + 1 <= atoms[i].top < next + 1);
            assert(rest_left < left);
            assert((n - 1 - left) * page_height <= (rest - 1 - rest_left) * page_height)
                by (nonlinear_arith)
                requires
                    n == rest + 1,
                    rest_left < left,
                    page_height > 0,
            ;
        } else {
            assert((n - 1 - left) * page_height <= (rest - 1 - rest_left) * page_height + page_height)
                by (nonlinear_arith)
                requires
                    n == rest + 1,
                    rest_left <= left,
                    page_height > 0,
            ;
        }
    } else {
        assert(n == 1);
        assert((n - 1 - left) * page_height <= 0) by (nonlinear_arith)
            requires
                n == 1,
                left >= 0,
                page_height > 0,
        ;
    }
}

/// A flow never has more pages than its height asks for and one for each atom:
/// every break is a full page on or at the top of an atom.
pub proof fn law_page_count_is_bounded(atoms: Seq<Atom>, content: int, page_height: int)
    requires
        page_height > 0,
        content >= 0,
    ensures
        page_tops(atoms, content, page_height).len() <= content / page_height + atoms.len() + 1,
{
    let placed = sorted(atoms);
    lemma_sorted(atoms);
    lemma_count_bound(placed, 0, content, page_height);
    lemma_starting_above(placed, 1, 1);
    let left = placed.len() - starting_above(placed, 1);
    let n = page_tops(atoms, content, page_height).len();
    assert(n - 1 - left <= content / page_height) by (nonlinear_arith)
        requires
            (n - 1 - left) * page_height <= content,
            page_height > 0,
            content >= 0,
    ;
}

/// The page that holds an offset is the one whose stretch of the flow it lies
/// in; so a page's own top leads back to the page.
pub proof fn law_page_containing_maps_offsets_back(tops: Seq<i64>, page: int, y: int)
    requires
        0 <= page < tops.len(),
        forall|i: int, j: int| 0 <= i < j < tops.len() ==> tops[i] < tops[j],
        tops[page] <= y,
        page + 1 < tops.len() ==> y < tops[page + 1],
    ensures
        page_at(tops, y) == page,
    decreases tops.len(),
{
    if page > 0 {
        assert(tops[0] < tops[page]);
        assert(tops[1] <= tops[page]);
        let rest = tops.drop_first();
        assert(rest[page - 1] == tops[page]);
        law_page_containing_maps_offsets_back(rest, page - 1, y);
    }
}

/// What a page shows never reaches past the page height, the next page's top or
/// the end of the content.
pub proof fn law_a_page_shows_only_itself(pages: Pages, page: int)
    requires
        0 <= page < pages.tops@.len(),
        pages.page_height >= 0,
    ensures
        0 <= pages.extent(page) <= pages.page_height,
        page + 1 < pages.tops@.len() && pages.tops@[page] <= pages.tops@[page + 1] ==> pages.tops@[page]
            + pages.extent(page) <= pages.tops@[page + 1],
        page + 1 == pages.tops@.len() && pages.tops@[page] <= pages.content_height ==> pages.tops@[page]
            + pages.extent(page) <= pages.content_height,
{
}

/// A page shows the flow up to where the next one starts, and the last page up to the
/// end of the flow, as far as a page is high.
pub proof fn law_pages_show_the_flow_up_to_the_next(pages: Pages, page: int)
    requires
        0 <= page < pages.tops@.len(),
        pages.tops@[page] <= pages.content_height,
        page + 1 < pages.tops@.len() ==> pages.tops@[page] <= pages.tops@[page + 1] <= pages.tops@[page]
            + pages.page_height,
        pages.page_height >= 0,
    ensures
        page + 1 < pages.tops@.len() ==> pages.tops@[page] + pages.extent(page) == pages.tops@[page + 1],
        page + 1 == pages.tops@.len() && pages.content_height <= pages.tops@[page] + pages.page_height
            ==> pages.tops@[page] + pages.extent(page) == pages.content_height,
        page + 1 == pages.tops@.len() && pages.content_height > pages.tops@[page] + pages.page_height
            ==> pages.extent(page) == pages.page_height,
        top_at(pages.tops@, page) == pages.tops@[page],
{
}

/// A break within a pixel of an edge cuts nothing; one further inside cuts.
pub proof fn law_a_pixel_at_an_edge_is_no_cut(a: Atom, y: int)
    ensures
        cuts(a, y) <==> y - a.top > 1000 && a.bottom - y > 1000,
{
}

} // verus!
