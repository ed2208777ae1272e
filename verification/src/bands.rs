//! Row bands: what a table contributes to pagination.
//!
//! A table row carries no box of its own, so rows are bands derived from the
//! boxes of their cells. Inside a table the row is what a break must not cut.
use crate::order::{lemma_sorted, sort, sorted, Ranked};
use crate::paginate::{cuts, Atom, AtomKind};
use vstd::prelude::*;

verus! {

/// The box of a table cell: its table, its offset and its height.
#[derive(Debug, Clone, Copy, PartialEq, Eq, Structural)]
pub struct Cell {
    pub table: usize,
    pub top: i64,
    pub height: i64,
}

impl Ranked for Cell {
    open spec fn rank(self) -> (int, int) {
        (self.table as int, self.top as int)
    }

    fn precedes(&self, other: &Self) -> (r: bool) {
        self.table < other.table || (self.table == other.table && self.top < other.top)
    }
}

/// An atom ordered by its top alone.
#[derive(Debug, Clone, Copy, PartialEq, Eq, Structural)]
pub struct Band {
    pub atom: Atom,
}

impl Ranked for Band {
    open spec fn rank(self) -> (int, int) {
        (self.atom.top as int, 0)
    }

    fn precedes(&self, other: &Self) -> (r: bool) {
        self.atom.top < other.atom.top
    }
}

/// Does `c` stand in the same row as a cell of `table` at `top`: less than a
/// pixel away?
pub open spec fn in_row(c: Cell, table: usize, top: int) -> bool {
    c.table == table && -1000 < c.top - top < 1000
}

/// How many of the first cells stand in the row of a cell of `table` at `top`.
pub open spec fn row_len(cells: Seq<Cell>, table: usize, top: int) -> nat
    decreases cells.len(),
{
    if cells.len() > 0 && in_row(cells[0], table, top) {
        1 + row_len(cells.drop_first(), table, top)
    } else {
        0
    }
}

/// The greatest height of some cells, and at least `least`.
pub open spec fn tallest(cells: Seq<Cell>, least: int) -> int
    decreases cells.len(),
{
    if cells.len() == 0 {
        least
    } else {
        let rest = tallest(cells.drop_last(), least);
        if rest < cells.last().height {
            cells.last().height as int
        } else {
            rest
        }
    }
}

pub proof fn lemma_row_len(cells: Seq<Cell>, table: usize, top: int)
    ensures
        row_len(cells, table, top) <= cells.len(),
    decreases cells.len(),
{
    if cells.len() > 0 && in_row(cells[0], table, top) {
        lemma_row_len(cells.drop_first(), table, top);
    }
}

/// The rows of sorted cells: each starts at its first cell's top and is as high
/// as its highest cell; a row without height is none.
pub open spec fn rows(cells: Seq<Cell>) -> Seq<Atom>
    decreases cells.len(),
{
    if cells.len() == 0 {
        seq![]
    } else {
        let first = cells[0];
        let rest = cells.drop_first();
        let n = row_len(rest, first.table, first.top as int);
        let height = tallest(rest.take(n as int), first.height as int);
        proof {
            lemma_row_len(rest, first.table, first.top as int);
        }
        let below = rows(rest.skip(n as int));
        if height > 0 {
            seq![
                Atom {
                    top: first.top,
                    bottom: (first.top + height) as i64,
                    group: first.table,
                    kind: AtomKind::Row,
                    keep_with_next: false,
                },
            ] + below
        } else {
            below
        }
    }
}

/// The cells are small enough for their rows to have a bottom.
pub open spec fn cells_fit(cells: Seq<Cell>) -> bool {
    forall|i: int, j: int|
        0 <= i < cells.len() && 0 <= j < cells.len() ==> i64::MIN <= (#[trigger] cells[i]).top + (#[trigger] cells[j]).height
            <= i64::MAX
}

proof fn lemma_tallest(cells: Seq<Cell>, least: int)
    ensures
        tallest(cells, least) == least || exists|i: int|
            0 <= i < cells.len() && (#[trigger] cells[i]).height == tallest(cells, least),
    decreases cells.len(),
{
    if cells.len() > 0 {
        let front = cells.drop_last();
        lemma_tallest(front, least);
        if tallest(front, least) < cells.last().height {
            assert(cells[cells.len() - 1].height == tallest(cells, least));
        } else if tallest(front, least) != least {
            let i = choose|i: int| 0 <= i < front.len() && (#[trigger] front[i]).height == tallest(front, least);
            assert(cells[i].height == tallest(cells, least));
        }
    }
}

/// Band the cells: same table, same top within a pixel, is one row.
pub fn band_cells(cells: &Vec<Cell>) -> (r: Vec<Atom>)
    requires
        cells_fit(cells@),
    ensures
        r@ == rows(sorted(cells@)),
{
    let placed = sort(cells);
    let mut out: Vec<Atom> = Vec::new();
    let mut i: usize = 0;
    proof {
        lemma_sorted(cells@);
        assert forall|a: int, b: int| 0 <= a < placed@.len() && 0 <= b < placed@.len() implies i64::MIN
            <= (#[trigger] placed@[a]).top + (#[trigger] placed@[b]).height <= i64::MAX by {
            assert(sorted(cells@).contains(placed@[a]));
            assert(sorted(cells@).contains(placed@[b]));
            let x = choose|x: int| 0 <= x < cells@.len() && cells@[x] == placed@[a];
            let y = choose|y: int| 0 <= y < cells@.len() && cells@[y] == placed@[b];
            assert(i64::MIN <= cells@[x].top + cells@[y].height <= i64::MAX);
        }
        assert(placed@.skip(0) =~= placed@);
        assert(out@ + rows(placed@) =~= rows(placed@));
    }
    while i < placed.len()
        invariant
            i <= placed.len(),
            cells_fit(placed@),
            placed@ == sorted(cells@),
            rows(placed@) == out@ + rows(placed@.skip(i as int)),
        decreases placed.len() - i,
    {
        let first = placed[i];
        let mut height: i64 = first.height;
        let mut j: usize = i + 1;
        let ghost rest = placed@.skip(i as int).drop_first();
        let ghost n = row_len(rest, first.table, first.top as int);
        proof {
            assert(rest =~= placed@.skip(i + 1));
            assert(rest.take(0) =~= seq![]);
            assert(rest.skip(0) =~= rest);
            lemma_row_len(rest, first.table, first.top as int);
        }
        while j < placed.len() && placed[j].table == first.table && (placed[j].top as i128) - (
        first.top as i128) < 1000 && (first.top as i128) - (placed[j].top as i128) < 1000
            invariant
                i < j <= placed.len(),
                rest =~= placed@.skip(i + 1),
                j - i - 1 <= n,
                n == j - i - 1 + row_len(rest.skip(j - i - 1), first.table, first.top as int),
                height == tallest(rest.take(j - i - 1), first.height as int),
            decreases placed.len() - j,
        {
            proof {
                let k = j - i - 1;
                assert(rest.skip(k)[0] == placed@[j as int]);
                assert(rest.skip(k).drop_first() =~= rest.skip(k + 1));
                assert(rest.take(k + 1).drop_last() =~= rest.take(k));
                assert(rest.take(k + 1).last() == placed@[j as int]);
            }
            if height < placed[j].height {
                height = placed[j].height;
            }
            j = j + 1;
        }
        proof {
            let k = j - i - 1;
            if j < placed.len() {
                assert(rest.skip(k)[0] == placed@[j as int]);
            }
            assert(k == n);
            assert(rest.skip(k) =~= placed@.skip(j as int));
            lemma_tallest(rest.take(k), first.height as int);
            assert(exists|m: int| 0 <= m < placed@.len() && (#[trigger] placed@[m]).height == height) by {
                if height == first.height {
                    assert(placed@[i as int].height == height);
                } else {
                    let m = choose|m: int| 0 <= m < k && (#[trigger] rest.take(k)[m]).height == height;
                    assert(placed@[i + 1 + m].height == height);
                }
            }
            let m = choose|m: int| 0 <= m < placed@.len() && (#[trigger] placed@[m]).height == height;
            assert(i64::MIN <= placed@[i as int].top + placed@[m].height <= i64::MAX);
        }
        let ghost before = out@;
        if height > 0 {
            out.push(
                Atom {
                    top: first.top,
                    bottom: first.top + height,
                    group: first.table,
                    kind: AtomKind::Row,
                    keep_with_next: false,
                },
            );
        }
        proof {
            assert(placed@.skip(i as int)[0] == first);
            assert(rows(placed@) =~= out@ + rows(placed@.skip(j as int)));
        }
        i = j;
    }
    assert(out@ + rows(placed@.skip(i as int)) =~= out@);
    out
}

/// By how much two atoms overlap.
pub open spec fn overlap(a: Atom, b: Atom) -> int {
    let bottom = if a.bottom < b.bottom {
        a.bottom
    } else {
        b.bottom
    };
    let top = if a.top > b.top {
        a.top
    } else {
        b.top
    };
    bottom - top
}

fn shared(a: &Atom, b: &Atom) -> (n: i128)
    ensures
        n == overlap(*a, *b),
{
    let bottom: i64 = if a.bottom < b.bottom {
        a.bottom
    } else {
        b.bottom
    };
    let top: i64 = if a.top > b.top {
        a.top
    } else {
        b.top
    };
    (bottom as i128) - (top as i128)
}

/// The band that `a` overlaps most; of several, the last.
pub open spec fn best_band(bands: Seq<Atom>, a: Atom) -> Option<int>
    decreases bands.len(),
{
    if bands.len() == 0 {
        None
    } else {
        let best = best_band(bands.drop_last(), a);
        let here = overlap(bands.last(), a);
        if here > 0 && (best matches Some(k) ==> overlap(bands[k], a) <= here) {
            Some(bands.len() - 1)
        } else {
            best
        }
    }
}

/// `b` grown to cover `a`.
pub open spec fn grown(b: Atom, a: Atom) -> Atom {
    Atom {
        top: if a.top < b.top {
            a.top
        } else {
            b.top
        },
        bottom: if a.bottom > b.bottom {
            a.bottom
        } else {
            b.bottom
        },
        ..b
    }
}

/// `bands` after `a` was folded into the one it overlaps most.
pub open spec fn folded(bands: Seq<Atom>, a: Atom) -> Seq<Atom> {
    match best_band(bands, a) {
        Some(k) => bands.update(k, grown(bands[k], a)),
        None => bands,
    }
}

/// `bands` after all of `inner` were folded in, one after the other.
pub open spec fn absorbed(bands: Seq<Atom>, inner: Seq<Atom>) -> Seq<Atom>
    decreases inner.len(),
{
    if inner.len() == 0 {
        bands
    } else {
        folded(absorbed(bands, inner.drop_last()), inner.last())
    }
}

/// Those of `inner` that overlap no band when their turn comes.
pub open spec fn left_over(bands: Seq<Atom>, inner: Seq<Atom>) -> Seq<Atom>
    decreases inner.len(),
{
    if inner.len() == 0 {
        seq![]
    } else {
        let before = left_over(bands, inner.drop_last());
        if best_band(absorbed(bands, inner.drop_last()), inner.last()) is None {
            before.push(inner.last())
        } else {
            before
        }
    }
}

pub proof fn lemma_best_band(bands: Seq<Atom>, a: Atom)
    ensures
        best_band(bands, a) matches Some(k) ==> 0 <= k < bands.len() && overlap(bands[k], a) > 0,
        best_band(bands, a) is None ==> forall|k: int|
            0 <= k < bands.len() ==> overlap(#[trigger] bands[k], a) <= 0,
        best_band(bands, a) matches Some(k) ==> forall|j: int|
            0 <= j < bands.len() ==> overlap(#[trigger] bands[j], a) <= overlap(bands[k], a),
    decreases bands.len(),
{
    if bands.len() > 0 {
        let front = bands.drop_last();
        lemma_best_band(front, a);
        assert forall|j: int| 0 <= j < front.len() implies front[j] == #[trigger] bands[j] by {}
    }
}

fn most_shared(bands: &Vec<Atom>, a: &Atom) -> (r: Option<usize>)
    ensures
        match r {
            Some(k) => best_band(bands@, *a) == Some(k as int) && k < bands@.len(),
            None => best_band(bands@, *a) is None,
        },
{
    let mut best: Option<usize> = None;
    let mut i: usize = 0;
    assert(bands@.take(0) =~= seq![]);
    while i < bands.len()
        invariant
            i <= bands.len(),
            match best {
                Some(k) => best_band(bands@.take(i as int), *a) == Some(k as int) && k < i,
                None => best_band(bands@.take(i as int), *a) is None,
            },
        decreases bands.len() - i,
    {
        proof {
            assert(bands@.take(i + 1).drop_last() =~= bands@.take(i as int));
        }
        let here = shared(&bands[i], a);
        let better = match best {
            Some(k) => shared(&bands[k], a) <= here,
            None => true,
        };
        if here > 0 && better {
            best = Some(i);
        }
        i = i + 1;
    }
    assert(bands@.take(i as int) =~= bands@);
    best
}

/// Fold each in-table atom into the row band it overlaps most, growing the band
/// to cover it. Returns the atoms that belong to no band at all, a caption say,
/// which stay atoms in their own right.
///
/// A cell box can be shorter than the line inside it. A line left sticking out
/// of its band is a break that can neither be taken nor snapped past.
pub fn absorb_into_bands(bands: &mut Vec<Atom>, inner: &Vec<Atom>) -> (orphans: Vec<Atom>)
    ensures
        final(bands)@ == absorbed(old(bands)@, inner@),
        orphans@ == left_over(old(bands)@, inner@),
{
    let ghost start = bands@;
    let mut orphans: Vec<Atom> = Vec::new();
    let mut i: usize = 0;
    assert(inner@.take(0) =~= seq![]);
    assert(orphans@ =~= seq![]);
    while i < inner.len()
        invariant
            i <= inner.len(),
            bands@ == absorbed(start, inner@.take(i as int)),
            orphans@ == left_over(start, inner@.take(i as int)),
        decreases inner.len() - i,
    {
        proof {
            assert(inner@.take(i + 1).drop_last() =~= inner@.take(i as int));
        }
        let a = inner[i];
        match most_shared(bands, &a) {
            Some(k) => {
                let b = bands[k];
                let wide = Atom {
                    top: if a.top < b.top {
                        a.top
                    } else {
                        b.top
                    },
                    bottom: if a.bottom > b.bottom {
                        a.bottom
                    } else {
                        b.bottom
                    },
                    group: b.group,
                    kind: b.kind,
                    keep_with_next: b.keep_with_next,
                };
                assert(wide == grown(b, a));
                bands.set(k, wide);
            },
            None => {
                orphans.push(a);
            },
        }
        i = i + 1;
    }
    assert(inner@.take(i as int) =~= inner@);
    orphans
}

/// Bands by their tops.
pub open spec fn by_top(bands: Seq<Atom>) -> Seq<Atom> {
    sorted(bands.map_values(|a: Atom| (Band { atom: a }))).map_values(|b: Band| b.atom)
}

/// `bands`, already ordered by top, pulled apart: each starts no higher than
/// `floor` and than every bottom before it, and is kept only if something of it
/// is left.
pub open spec fn apart(bands: Seq<Atom>, floor: Option<i64>) -> Seq<Atom>
    decreases bands.len(),
{
    if bands.len() == 0 {
        seq![]
    } else {
        let b = bands[0];
        let top = match floor {
            Some(f) => if f > b.top {
                f
            } else {
                b.top
            },
            None => b.top,
        };
        let next = match floor {
            Some(f) => if f > b.bottom {
                f
            } else {
                b.bottom
            },
            None => b.bottom,
        };
        let rest = apart(bands.drop_first(), Some(next));
        if b.bottom > top {
            seq![Atom { top, ..b }] + rest
        } else {
            rest
        }
    }
}

/// Pull overlapping row bands apart so that every row boundary is a legal break
/// again.
///
/// The later band yields, not the earlier one: text of the earlier row hangs
/// into the next row's box, so the break belongs below that text. A band the
/// previous one now covers entirely is dropped.
pub fn separate_bands(bands: &mut Vec<Atom>)
    ensures
        final(bands)@ == apart(by_top(old(bands)@), None),
{
    let ghost start = bands@;
    let ghost wrap = |a: Atom| (Band { atom: a });
    let ghost unwrap = |b: Band| b.atom;
    let mut wrapped: Vec<Band> = Vec::new();
    let mut i: usize = 0;
    while i < bands.len()
        invariant
            i <= bands.len(),
            bands@ == start,
            wrap == (|a: Atom| (Band { atom: a })),
            wrapped@ =~= start.take(i as int).map_values(wrap),
        decreases bands.len() - i,
    {
        wrapped.push(Band { atom: bands[i] });
        i = i + 1;
    }
    proof {
        assert(start.take(i as int) =~= start);
    }
    let placed = sort(&wrapped);
    let ghost all = placed@.map_values(unwrap);
    assert(all == by_top(start));
    let mut out: Vec<Atom> = Vec::new();
    let mut floor: Option<i64> = None;
    let mut k: usize = 0;
    proof {
        assert(all.skip(0) =~= all);
        assert(out@ + apart(all, None) =~= apart(all, None));
    }
    while k < placed.len()
        invariant
            k <= placed.len(),
            unwrap == (|b: Band| b.atom),
            all == placed@.map_values(unwrap),
            apart(all, None) == out@ + apart(all.skip(k as int), floor),
        decreases placed.len() - k,
    {
        let b = placed[k].atom;
        proof {
            assert(all.skip(k as int)[0] == b);
            assert(all.skip(k as int).drop_first() =~= all.skip(k + 1));
        }
        let top: i64 = match floor {
            Some(f) => if f > b.top {
                f
            } else {
                b.top
            },
            None => b.top,
        };
        let next: i64 = match floor {
            Some(f) => if f > b.bottom {
                f
            } else {
                b.bottom
            },
            None => b.bottom,
        };
        if b.bottom > top {
            let cut = Atom {
                top,
                bottom: b.bottom,
                group: b.group,
                kind: b.kind,
                keep_with_next: b.keep_with_next,
            };
            out.push(cut);
        }
        floor = Some(next);
        proof {
            assert(apart(all, None) =~= out@ + apart(all.skip(k + 1), floor));
        }
        k = k + 1;
    }
    proof {
        assert(out@ + apart(all.skip(k as int), floor) =~= out@);
    }
    *bands = out;
}

/// One atom covers another.
pub open spec fn covers(b: Atom, a: Atom) -> bool {
    b.top <= a.top && a.bottom <= b.bottom
}

pub proof fn lemma_absorbed(bands: Seq<Atom>, inner: Seq<Atom>)
    ensures
        absorbed(bands, inner).len() == bands.len(),
        forall|k: int| 0 <= k < bands.len() ==> covers(#[trigger] absorbed(bands, inner)[k], bands[k]),
    decreases inner.len(),
{
    if inner.len() > 0 {
        lemma_absorbed(bands, inner.drop_last());
        lemma_best_band(absorbed(bands, inner.drop_last()), inner.last());
    }
}

/// Nothing inside a table is lost: every atom ends up covered by a row band or
/// stays an atom of its own, and every band still covers what it covered.
pub proof fn law_absorbing_loses_nothing(bands: Seq<Atom>, inner: Seq<Atom>, i: int)
    requires
        0 <= i < inner.len(),
    ensures
        left_over(bands, inner).contains(inner[i]) || exists|k: int|
            0 <= k < bands.len() && covers(#[trigger] absorbed(bands, inner)[k], inner[i]),
        absorbed(bands, inner).len() == bands.len(),
        forall|k: int| 0 <= k < bands.len() ==> covers(#[trigger] absorbed(bands, inner)[k], bands[k]),
    decreases inner.len(),
{
    lemma_absorbed(bands, inner);
    let front = inner.drop_last();
    let before = absorbed(bands, front);
    lemma_absorbed(bands, front);
    lemma_best_band(before, inner.last());
    let after = absorbed(bands, inner);
    let lost = left_over(bands, inner);
    if i == inner.len() - 1 {
        match best_band(before, inner.last()) {
            Some(k) => {
                assert(covers(after[k], inner[i]));
            },
            None => {
                assert(lost[lost.len() - 1] == inner[i]);
            },
        }
    } else {
        law_absorbing_loses_nothing(bands, front, i);
        assert(front[i] == inner[i]);
        if left_over(bands, front).contains(inner[i]) {
            let m = choose|m: int| 0 <= m < left_over(bands, front).len() && left_over(bands, front)[m] == inner[i];
            assert(lost[m] == inner[i]);
        } else {
            let k = choose|k: int| 0 <= k < bands.len() && covers(#[trigger] before[k], inner[i]);
            assert(covers(after[k], inner[i]));
        }
    }
}

proof fn lemma_apart(bands: Seq<Atom>, floor: Option<i64>)
    ensures
        forall|i: int| 0 <= i < apart(bands, floor).len() ==> (#[trigger] apart(bands, floor)[i]).top
            < apart(bands, floor)[i].bottom && (floor matches Some(f) ==> f <= apart(bands, floor)[i].top),
        forall|i: int, j: int|
            0 <= i < j < apart(bands, floor).len() ==> (#[trigger] apart(bands, floor)[i]).bottom <= (
            #[trigger] apart(bands, floor)[j]).top,
    decreases bands.len(),
{
    if bands.len() > 0 {
        let b = bands[0];
        let next = match floor {
            Some(f) => if f > b.bottom {
                f
            } else {
                b.bottom
            },
            None => b.bottom,
        };
        let rest = apart(bands.drop_first(), Some(next));
        lemma_apart(bands.drop_first(), Some(next));
        let out = apart(bands, floor);
        assert forall|i: int| 0 <= i < out.len() implies (#[trigger] out[i]).top < out[i].bottom && (floor matches Some(f)
            ==> f <= out[i].top) by {
            if out.len() > rest.len() {
                if i > 0 {
                    assert(out[i] == rest[i - 1]);
                }
            } else {
                assert(out[i] == rest[i]);
            }
        }
        assert forall|i: int, j: int| 0 <= i < j < out.len() implies (#[trigger] out[i]).bottom <= (#[trigger] out[j]).top by {
            if out.len() > rest.len() {
                assert(out[j] == rest[j - 1]);
                if i > 0 {
                    assert(out[i] == rest[i - 1]);
                }
            } else {
                assert(out[i] == rest[i] && out[j] == rest[j]);
            }
        }
    }
}

/// Separated bands do not overlap and each has a height, so a break at a row's
/// top or bottom cuts no row.
pub proof fn law_row_boundaries_are_breakable(bands: Seq<Atom>)
    ensures
        ({
            let out = apart(by_top(bands), None);
            &&& forall|i: int| 0 <= i < out.len() ==> (#[trigger] out[i]).top < out[i].bottom
            &&& forall|i: int, j: int|
                0 <= i < j < out.len() ==> (#[trigger] out[i]).bottom <= (#[trigger] out[j]).top
            &&& forall|i: int, j: int|
                0 <= i < out.len() && 0 <= j < out.len() ==> !cuts(#[trigger] out[i], (#[trigger] out[j]).top as int)
                    && !cuts(out[i], out[j].bottom as int)
        }),
{
    lemma_apart(by_top(bands), None);
    let out = apart(by_top(bands), None);
    assert forall|i: int, j: int| 0 <= i < out.len() && 0 <= j < out.len() implies !cuts(#[trigger] out[i], (#[trigger] out[j]).top as int)
        && !cuts(out[i], out[j].bottom as int) by {
        if i < j {
            assert(out[i].bottom <= out[j].top);
        } else if j < i {
            assert(out[j].bottom <= out[i].top);
        }
    }
}

/// Does some band lie over `y`?
pub open spec fn banded(bands: Seq<Atom>, y: int) -> bool {
    exists|i: int| 0 <= i < bands.len() && (#[trigger] bands[i]).top <= y < bands[i].bottom
}

proof fn lemma_apart_covers(bands: Seq<Atom>, floor: Option<i64>, y: int)
    requires
        forall|i: int, j: int| 0 <= i < j < bands.len() ==> (#[trigger] bands[i]).top <= (#[trigger] bands[j]).top,
    ensures
        banded(apart(bands, floor), y) <==> banded(bands, y) && (floor matches Some(f) ==> f <= y),
    decreases bands.len(),
{
    if bands.len() > 0 {
        let b = bands[0];
        let rest = bands.drop_first();
        let top = match floor {
            Some(f) => if f > b.top {
                f
            } else {
                b.top
            },
            None => b.top,
        };
        let next = match floor {
            Some(f) => if f > b.bottom {
                f
            } else {
                b.bottom
            },
            None => b.bottom,
        };
        let below = apart(rest, Some(next));
        let out = apart(bands, floor);
        assert forall|i: int, j: int| 0 <= i < j < rest.len() implies (#[trigger] rest[i]).top <= (
        #[trigger] rest[j]).top by {
            assert(bands[i + 1].top <= bands[j + 1].top);
        }
        lemma_apart_covers(rest, Some(next), y);
        if banded(out, y) {
            let i = choose|i: int| 0 <= i < out.len() && (#[trigger] out[i]).top <= y < out[i].bottom;
            if out.len() > below.len() {
                if i == 0 {
                    assert(bands[0].top <= y < bands[0].bottom);
                } else {
                    assert(below[i - 1] == out[i]);
                }
            } else {
                assert(below[i] == out[i]);
            }
            if banded(below, y) {
                let k = choose|k: int| 0 <= k < rest.len() && (#[trigger] rest[k]).top <= y < rest[k].bottom;
                assert(bands[k + 1].top <= y < bands[k + 1].bottom);
            }
        }
        if banded(bands, y) && (floor matches Some(f) ==> f <= y) {
            let i = choose|i: int| 0 <= i < bands.len() && (#[trigger] bands[i]).top <= y < bands[i].bottom;
            if b.top <= y < b.bottom {
                assert(out[0].top <= y < out[0].bottom);
            } else {
                assert(i > 0);
                assert(bands[0].top <= bands[i].top);
                assert(rest[i - 1] == bands[i]);
                assert(banded(rest, y));
                let k = choose|k: int| 0 <= k < below.len() && (#[trigger] below[k]).top <= y < below[k].bottom;
                if out.len() > below.len() {
                    assert(out[k + 1] == below[k]);
                } else {
                    assert(out[k] == below[k]);
                }
            }
        }
    }
}

proof fn lemma_by_top(bands: Seq<Atom>)
    ensures
        forall|i: int, j: int|
            0 <= i < j < by_top(bands).len() ==> (#[trigger] by_top(bands)[i]).top <= (#[trigger] by_top(bands)[j]).top,
        by_top(bands).len() == bands.len(),
        forall|a: Atom| #[trigger] by_top(bands).contains(a) <==> bands.contains(a),
{
    let wrap = |a: Atom| (Band { atom: a });
    let unwrap = |b: Band| b.atom;
    let wrapped = bands.map_values(wrap);
    let placed = sorted(wrapped);
    let all = by_top(bands);
    lemma_sorted(wrapped);
    assert(all == placed.map_values(unwrap));
    assert forall|i: int, j: int| 0 <= i < j < all.len() implies (#[trigger] all[i]).top <= (#[trigger] all[j]).top by {
        assert(all[i] == placed[i].atom && all[j] == placed[j].atom);
        assert(!crate::order::rank_lt(placed[j].rank(), placed[i].rank()));
    }
    assert forall|a: Atom| #[trigger] all.contains(a) <==> bands.contains(a) by {
        if all.contains(a) {
            let i = choose|i: int| 0 <= i < all.len() && all[i] == a;
            assert(placed.contains(placed[i]));
            let k = choose|k: int| 0 <= k < wrapped.len() && wrapped[k] == placed[i];
            assert(bands[k] == a);
        }
        if bands.contains(a) {
            let k = choose|k: int| 0 <= k < bands.len() && bands[k] == a;
            assert(wrapped[k] == wrap(a));
            assert(wrapped.contains(wrap(a)));
            assert(placed.contains(wrap(a)));
            let i = choose|i: int| 0 <= i < placed.len() && placed[i] == wrap(a);
            assert(all[i] == a);
        }
    }
}

/// Separating bands loses no stretch of the flow and adds none: together they lie
/// over what they lay over before.
pub proof fn law_separating_keeps_what_is_covered(bands: Seq<Atom>, y: int)
    ensures
        banded(apart(by_top(bands), None), y) <==> banded(bands, y),
{
    let all = by_top(bands);
    lemma_by_top(bands);
    lemma_apart_covers(all, None, y);
    if banded(all, y) {
        let i = choose|i: int| 0 <= i < all.len() && (#[trigger] all[i]).top <= y < all[i].bottom;
        assert(all.contains(all[i]));
        let k = choose|k: int| 0 <= k < bands.len() && bands[k] == all[i];
        assert(bands[k].top <= y < bands[k].bottom);
    }
    if banded(bands, y) {
        let k = choose|k: int| 0 <= k < bands.len() && (#[trigger] bands[k]).top <= y < bands[k].bottom;
        assert(bands.contains(bands[k]));
        assert(all.contains(bands[k]));
        let i = choose|i: int| 0 <= i < all.len() && all[i] == bands[k];
        assert(all[i].top <= y < all[i].bottom);
    }
}

/// A row reaches over a cell: it starts less than a pixel above the cell, and is at
/// least as high.
pub open spec fn over_cell(r: Atom, c: Cell) -> bool {
    &&& r.kind == AtomKind::Row && r.group == c.table
    &&& r.top <= c.top < r.top + 1000
    &&& r.bottom - r.top >= c.height
}

proof fn lemma_row_members(cells: Seq<Cell>, table: usize, top: int, j: int)
    requires
        0 <= j < cells.len(),
        forall|i: int| 0 <= i <= j ==> in_row(#[trigger] cells[i], table, top),
    ensures
        j < row_len(cells, table, top),
    decreases j,
{
    assert(in_row(cells[0], table, top));
    if j > 0 {
        let rest = cells.drop_first();
        assert forall|i: int| 0 <= i <= j - 1 implies in_row(#[trigger] rest[i], table, top) by {
            assert(in_row(cells[i + 1], table, top));
        }
        lemma_row_members(rest, table, top, j - 1);
    }
}

proof fn lemma_row_is_a_row(cells: Seq<Cell>, table: usize, top: int, j: int)
    requires
        0 <= j < row_len(cells, table, top),
    ensures
        j < cells.len(),
        in_row(cells[j], table, top),
    decreases j,
{
    lemma_row_len(cells, table, top);
    if j > 0 {
        lemma_row_is_a_row(cells.drop_first(), table, top, j - 1);
    }
}

proof fn lemma_tallest_of_all(cells: Seq<Cell>, least: int)
    ensures
        tallest(cells, least) >= least,
        forall|i: int| 0 <= i < cells.len() ==> tallest(cells, least) >= (#[trigger] cells[i]).height,
    decreases cells.len(),
{
    if cells.len() > 0 {
        let front = cells.drop_last();
        lemma_tallest_of_all(front, least);
        assert forall|i: int| 0 <= i < cells.len() implies tallest(cells, least) >= (#[trigger] cells[i]).height by {
            if i < front.len() {
                assert(front[i] == cells[i]);
            }
        }
    }
}

/// Cells in order: those of the first one's row stand first.
proof fn lemma_first_row(cells: Seq<Cell>, j: int)
    requires
        crate::order::in_order(cells),
        0 < j < cells.len(),
    ensures
        in_row(cells[j], cells[0].table, cells[0].top as int) <==> j - 1 < row_len(
            cells.drop_first(),
            cells[0].table,
            cells[0].top as int,
        ),
{
    let first = cells[0];
    let rest = cells.drop_first();
    if in_row(cells[j], first.table, first.top as int) {
        assert forall|i: int| 0 <= i <= j - 1 implies in_row(#[trigger] rest[i], first.table, first.top as int) by {
            assert(rest[i] == cells[i + 1]);
            assert(!crate::order::rank_lt(cells[i + 1].rank(), cells[0].rank()));
            if i + 1 < j {
                assert(!crate::order::rank_lt(cells[j].rank(), cells[i + 1].rank()));
            }
        }
        lemma_row_members(rest, first.table, first.top as int, j - 1);
    }
    if j - 1 < row_len(rest, first.table, first.top as int) {
        lemma_row_is_a_row(rest, first.table, first.top as int, j - 1);
    }
}

proof fn lemma_rows_reach(cells: Seq<Cell>, i: int, j: int)
    requires
        crate::order::in_order(cells),
        cells_fit(cells),
        0 <= i < cells.len(),
        0 <= j < cells.len(),
        cells[i].table == cells[j].table,
        cells[i].top == cells[j].top,
        cells[i].height > 0,
    ensures
        exists|k: int|
            0 <= k < rows(cells).len() && over_cell(#[trigger] rows(cells)[k], cells[i]) && over_cell(
                rows(cells)[k],
                cells[j],
            ),
    decreases cells.len(),
{
    let first = cells[0];
    let rest = cells.drop_first();
    let n = row_len(rest, first.table, first.top as int) as int;
    lemma_row_len(rest, first.table, first.top as int);
    let row = rest.take(n);
    let height = tallest(row, first.height as int);
    let others = rest.skip(n);
    lemma_tallest_of_all(row, first.height as int);
    lemma_tallest(row, first.height as int);
    if i > 0 {
        lemma_first_row(cells, i);
        assert(!crate::order::rank_lt(cells[i].rank(), cells[0].rank()));
    }
    if j > 0 {
        lemma_first_row(cells, j);
    }
    if in_row(cells[i], first.table, first.top as int) {
        if i > 0 {
            assert(row[i - 1] == cells[i]);
        }
        if j > 0 {
            assert(row[j - 1] == cells[j]);
        }
        assert(i64::MIN <= first.top + height <= i64::MAX) by {
            if height != first.height {
                let t = choose|t: int| 0 <= t < row.len() && (#[trigger] row[t]).height == height;
                assert(cells[t + 1] == row[t]);
                assert(cells[0].top + cells[t + 1].height <= i64::MAX);
            } else {
                assert(cells[0].top + cells[0].height <= i64::MAX);
            }
        }
        let r = rows(cells)[0];
        assert(over_cell(r, cells[i]) && over_cell(r, cells[j]));
    } else {
        assert(others[i - 1 - n] == cells[i] && others[j - 1 - n] == cells[j]);
        assert forall|a: int, b: int| #![trigger others[a], others[b]]
            0 <= a < b < others.len() implies !crate::order::rank_lt(others[b].rank(), others[a].rank()) by {
            assert(others[a] == cells[a + 1 + n] && others[b] == cells[b + 1 + n]);
        }
        assert(cells_fit(others)) by {
            assert forall|a: int, b: int| 0 <= a < others.len() && 0 <= b < others.len() implies i64::MIN <= (#[trigger] others[a]).top
                + (#[trigger] others[b]).height <= i64::MAX by {
                assert(others[a] == cells[a + 1 + n] && others[b] == cells[b + 1 + n]);
                assert(cells[a + 1 + n].top + cells[b + 1 + n].height <= i64::MAX);
            }
        }
        lemma_rows_reach(others, i - 1 - n, j - 1 - n);
        let below = rows(others);
        let k = choose|k: int|
            0 <= k < below.len() && over_cell(#[trigger] below[k], cells[i]) && over_cell(below[k], cells[j]);
        if height > 0 {
            assert(rows(cells)[k + 1] == below[k]);
        } else {
            assert(rows(cells)[k] == below[k]);
        }
    }
}

/// A table row is one stretch of the flow: a single band reaches over every two
/// cells of a table that start level, however high each of them is.
pub proof fn law_cells_that_start_level_are_one_row(cells: Seq<Cell>, i: int, j: int)
    requires
        cells_fit(cells),
        0 <= i < cells.len(),
        0 <= j < cells.len(),
        cells[i].table == cells[j].table,
        cells[i].top == cells[j].top,
        cells[i].height > 0,
    ensures
        exists|k: int|
            0 <= k < rows(sorted(cells)).len() && over_cell(#[trigger] rows(sorted(cells))[k], cells[i])
                && over_cell(rows(sorted(cells))[k], cells[j]),
{
    let all = sorted(cells);
    lemma_sorted(cells);
    assert(cells.contains(cells[i]) && cells.contains(cells[j]));
    assert(all.contains(cells[i]) && all.contains(cells[j]));
    let a = choose|a: int| 0 <= a < all.len() && all[a] == cells[i];
    let b = choose|b: int| 0 <= b < all.len() && all[b] == cells[j];
    assert(cells_fit(all)) by {
        assert forall|x: int, y: int| 0 <= x < all.len() && 0 <= y < all.len() implies i64::MIN <= (#[trigger] all[x]).top
            + (#[trigger] all[y]).height <= i64::MAX by {
            assert(all.contains(all[x]) && all.contains(all[y]));
            assert(cells.contains(all[x]) && cells.contains(all[y]));
            let p = choose|p: int| 0 <= p < cells.len() && cells[p] == all[x];
            let q = choose|q: int| 0 <= q < cells.len() && cells[q] == all[y];
            assert(cells[p].top + cells[q].height <= i64::MAX);
        }
    }
    lemma_rows_reach(all, a, b);
}

/// A row starts at one of its cells and is as high as one of them: the bands of a
/// table are no longer than its rows.
pub proof fn law_rows_are_made_of_cells(cells: Seq<Cell>, k: int)
    requires
        cells_fit(cells),
        0 <= k < rows(cells).len(),
    ensures
        ({
            let r = rows(cells)[k];
            &&& exists|i: int|
                0 <= i < cells.len() && (#[trigger] cells[i]).table == r.group && cells[i].top == r.top
            &&& r.kind == AtomKind::Row && !r.keep_with_next
            &&& exists|i: int|
                0 <= i < cells.len() && (#[trigger] cells[i]).table == r.group && -1000 < cells[i].top
                    - r.top < 1000 && r.bottom - r.top == cells[i].height
        }),
    decreases cells.len(),
{
    let first = cells[0];
    let rest = cells.drop_first();
    let n = row_len(rest, first.table, first.top as int) as int;
    lemma_row_len(rest, first.table, first.top as int);
    let row = rest.take(n);
    let height = tallest(row, first.height as int);
    let others = rest.skip(n);
    lemma_tallest(row, first.height as int);
    if height > 0 && k == 0 {
        let r = rows(cells)[0];
        assert(cells[0].table == r.group && cells[0].top == r.top);
        if height != first.height {
            let t = choose|t: int| 0 <= t < row.len() && (#[trigger] row[t]).height == height;
            lemma_row_is_a_row(rest, first.table, first.top as int, t);
            assert(cells[t + 1] == row[t]);
            assert(cells[0].top + cells[t + 1].height <= i64::MAX);
            assert(cells[t + 1].height == r.bottom - r.top);
        } else {
            assert(cells[0].top + cells[0].height <= i64::MAX);
            assert(cells[0].height == r.bottom - r.top);
        }
    } else {
        let m = if height > 0 {
            k - 1
        } else {
            k
        };
        let r = rows(cells)[k];
        assert(r == rows(others)[m]);
        assert(cells_fit(others)) by {
            assert forall|a: int, b: int| 0 <= a < others.len() && 0 <= b < others.len() implies i64::MIN <= (#[trigger] others[a]).top
                + (#[trigger] others[b]).height <= i64::MAX by {
                assert(others[a] == cells[a + 1 + n] && others[b] == cells[b + 1 + n]);
                assert(cells[a + 1 + n].top + cells[b + 1 + n].height <= i64::MAX);
            }
        }
        law_rows_are_made_of_cells(others, m);
        let i = choose|i: int|
            0 <= i < others.len() && (#[trigger] others[i]).table == r.group && others[i].top == r.top;
        assert(cells[i + 1 + n] == others[i]);
        let j = choose|j: int|
            0 <= j < others.len() && (#[trigger] others[j]).table == r.group && -1000 < others[j].top - r.top
                < 1000 && r.bottom - r.top == others[j].height;
        assert(cells[j + 1 + n] == others[j]);
    }
}

/// What two boxes have in common is as high as from the lower top to the higher foot,
/// and an atom joins the band with which it has the most in common, the last of
/// several; one that has nothing in common with any joins none.
pub proof fn law_an_atom_joins_the_band_it_shares_most_with(bands: Seq<Atom>, a: Atom)
    ensures
        match best_band(bands, a) {
            Some(k) => {
                let shared = |b: Atom|
                    (if a.bottom < b.bottom {
                        a.bottom as int
                    } else {
                        b.bottom as int
                    }) - (if a.top > b.top {
                        a.top as int
                    } else {
                        b.top as int
                    });
                &&& 0 <= k < bands.len()
                &&& shared(bands[k]) > 0
                &&& forall|j: int|
                    0 <= j < bands.len() ==> shared(#[trigger] bands[j]) <= shared(bands[k])
                &&& forall|j: int|
                    k < j < bands.len() ==> shared(#[trigger] bands[j]) < shared(bands[k])
            },
            None => forall|j: int|
                0 <= j < bands.len() ==> (#[trigger] bands[j]).bottom <= a.top || bands[j].top
                    >= a.bottom || bands[j].top >= bands[j].bottom || a.top >= a.bottom,
        },
    decreases bands.len(),
{
    if bands.len() > 0 {
        let front = bands.drop_last();
        law_an_atom_joins_the_band_it_shares_most_with(front, a);
        assert forall|j: int| 0 <= j < bands.len() implies j < front.len() && front[j]
            == #[trigger] bands[j] || bands[j] == bands.last() by {}
    }
}

/// A band that an atom joins reaches from the higher of their tops to the lower of
/// their feet, and stays what it was otherwise.
pub proof fn law_a_band_grows_round_what_joins_it(bands: Seq<Atom>, a: Atom, k: int, j: int)
    requires
        best_band(bands, a) == Some(k),
        0 <= k < bands.len(),
        0 <= j < bands.len(),
    ensures
        ({
            let b = folded(bands, a)[k];
            &&& b.top <= a.top && b.top <= bands[k].top && (b.top == a.top || b.top == bands[k].top)
            &&& b.bottom >= a.bottom && b.bottom >= bands[k].bottom && (b.bottom == a.bottom
                || b.bottom == bands[k].bottom)
            &&& b.group == bands[k].group && b.kind == bands[k].kind && b.keep_with_next
                == bands[k].keep_with_next
            &&& j != k ==> folded(bands, a)[j] == bands[j]
        }),
{
}

} // verus!
