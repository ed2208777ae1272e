//! What a conformance run holds a paginated chapter to, and what it counts.
use crate::book::TocEntry;
use crate::dom::{find_by_attr, found_by_attr, Dom};
use crate::paginate::{cuts, law_pages_advance, legal, offsets, page_tops, Atom, Pages};
use crate::text::{decimal, owned, push_count};
use vstd::prelude::*;

verus! {

/// A page width that a real window would plausibly have, in pixels.
pub const W: u32 = 760;

/// A page height that a real window would plausibly have, in pixels.
pub const H: u32 = 1000;

/// The atoms that a break at `y` would cut, of the first `n`, by their places.
pub open spec fn cut_places(atoms: Seq<Atom>, y: int, n: int) -> Seq<usize>
    decreases n,
{
    if n <= 0 {
        Seq::empty()
    } else if n <= atoms.len() && cuts(atoms[n - 1], y) {
        cut_places(atoms, y, n - 1).push((n - 1) as usize)
    } else {
        cut_places(atoms, y, n - 1)
    }
}

/// Every atom that a break at `y` would cut, by its place in `atoms`: the same
/// predicate the paginator uses, so the check and the invariant agree.
pub fn cut_atoms(atoms: &Vec<Atom>, y: i64) -> (r: Vec<usize>)
    ensures
        r@ == cut_places(atoms@, y as int, atoms@.len() as int),
{
    let mut out: Vec<usize> = Vec::new();
    let mut i: usize = 0;
    while i < atoms.len()
        invariant
            i <= atoms.len(),
            out@ == cut_places(atoms@, y as int, i as int),
        decreases atoms.len() - i,
    {
        if atoms[i].splits(y) {
            out.push(i);
        }
        i = i + 1;
    }
    out
}

/// What a page break does to the flow.
#[derive(Debug, Clone, Copy, PartialEq, Eq, Structural)]
pub enum Break {
    /// It cuts nothing.
    Clean,
    /// It cuts an atom.
    Cut,
    /// It cuts an atom taller than a page, which no break can help.
    Big,
}

/// A break at `y` cuts an atom taller than a page.
pub open spec fn cuts_big(atoms: Seq<Atom>, y: int, page_height: int) -> bool {
    exists|i: int|
        0 <= i < atoms.len() && cuts(#[trigger] atoms[i], y) && atoms[i].bottom - atoms[i].top
            > page_height
}

pub open spec fn break_at(atoms: Seq<Atom>, y: int, page_height: int) -> Break {
    if cuts_big(atoms, y, page_height) {
        Break::Big
    } else if legal(atoms, y) {
        Break::Clean
    } else {
        Break::Cut
    }
}

/// What a break at `y` does to the flow.
pub fn judge(atoms: &Vec<Atom>, y: i64, page_height: i64) -> (r: Break)
    ensures
        r == break_at(atoms@, y as int, page_height as int),
{
    let mut clean = true;
    let mut i: usize = 0;
    while i < atoms.len()
        invariant
            i <= atoms.len(),
            clean == (forall|k: int| 0 <= k < i ==> !cuts(#[trigger] atoms@[k], y as int)),
            forall|k: int|
                0 <= k < i && cuts(#[trigger] atoms@[k], y as int) ==> atoms@[k].bottom - atoms@[k].top
                    <= page_height,
        decreases atoms.len() - i,
    {
        let a = atoms[i];
        if a.splits(y) {
            assert(cuts(atoms@[i as int], y as int));
            if (a.bottom as i128) - (a.top as i128) > page_height as i128 {
                return Break::Big;
            }
            clean = false;
        }
        i = i + 1;
    }
    if clean {
        Break::Clean
    } else {
        Break::Cut
    }
}

/// How many of the first `n` pages start with a break of a kind.
pub open spec fn breaks(atoms: Seq<Atom>, pages: Pages, kind: Break, n: int) -> nat
    decreases n,
{
    if n <= 0 {
        0
    } else {
        breaks(atoms, pages, kind, n - 1) + if break_at(
            atoms,
            pages.tops@[n - 1] as int,
            pages.page_height as int,
        ) == kind {
            1nat
        } else {
            0nat
        }
    }
}

/// How many pages start inside an atom: one that a break could have spared, and
/// one that none could.
pub fn cutting(atoms: &Vec<Atom>, pages: &Pages) -> (r: (usize, usize))
    ensures
        r.0 == breaks(atoms@, *pages, Break::Cut, pages.tops@.len() as int),
        r.1 == breaks(atoms@, *pages, Break::Big, pages.tops@.len() as int),
        r.0 + r.1 <= pages.tops@.len(),
{
    let mut cut: usize = 0;
    let mut big: usize = 0;
    let mut n: usize = 0;
    while n < pages.tops.len()
        invariant
            n <= pages.tops.len(),
            cut == breaks(atoms@, *pages, Break::Cut, n as int),
            big == breaks(atoms@, *pages, Break::Big, n as int),
            cut + big <= n,
        decreases pages.tops.len() - n,
    {
        match judge(atoms, pages.tops[n], pages.page_height) {
            Break::Cut => {
                cut = cut + 1;
            },
            Break::Big => {
                big = big + 1;
            },
            Break::Clean => {},
        }
        n = n + 1;
    }
    (cut, big)
}

/// A contents entry of a chapter whose fragment the chapter does not hold.
pub open spec fn dangles(dom: Dom, e: TocEntry, index: usize) -> bool {
    e.spine == index && (e.fragment matches Some(f) && found_by_attr(dom.nodes@, 0, "id"@, f@, 0) is None)
}

/// How many of the first `n` entries dangle.
pub open spec fn dangling_to(dom: Dom, toc: Seq<TocEntry>, index: usize, n: int) -> nat
    decreases n,
{
    if n <= 0 {
        0
    } else {
        dangling_to(dom, toc, index, n - 1) + if dangles(dom, toc[n - 1], index) {
            1nat
        } else {
            0nat
        }
    }
}

/// How many contents entries of a chapter name a fragment that it does not hold.
pub fn dangling(dom: &Dom, toc: &[TocEntry], index: usize) -> (r: usize)
    requires
        dom.wf(),
    ensures
        r == dangling_to(*dom, toc@, index, toc@.len() as int),
        r <= toc@.len(),
{
    let mut r: usize = 0;
    let mut n: usize = 0;
    while n < toc.len()
        invariant
            n <= toc.len(),
            dom.wf(),
            r == dangling_to(*dom, toc@, index, n as int),
            r <= n,
        decreases toc.len() - n,
    {
        if toc[n].spine == index {
            if let Some(f) = &toc[n].fragment {
                if find_by_attr(dom, 0, "id", f.as_str()).is_none() {
                    r = r + 1;
                }
            }
        }
        n = n + 1;
    }
    r
}

/// Some page does not start below the one before it.
pub open spec fn stalls(tops: Seq<i64>) -> bool {
    exists|i: int| 0 <= i && i + 1 < tops.len() && (#[trigger] tops[i + 1]) <= tops[i]
}

/// Do pages fail to advance?
pub fn stalled(pages: &Pages) -> (r: bool)
    ensures
        r == stalls(pages.tops@),
{
    if pages.tops.len() == 0 {
        return false;
    }
    let mut n: usize = 1;
    while n < pages.tops.len()
        invariant
            1 <= n <= pages.tops.len(),
            forall|i: int| 0 <= i && i + 1 < n ==> (#[trigger] pages.tops@[i + 1]) > pages.tops@[i],
        decreases pages.tops.len() - n,
    {
        if pages.tops[n] <= pages.tops[n - 1] {
            proof {
                let i: int = n - 1;
                assert(pages.tops@[i + 1] <= pages.tops@[i]);
            }
            return true;
        }
        n = n + 1;
    }
    false
}

/// The paginator never stalls.
pub proof fn law_paginated_flows_do_not_stall(
    atoms: Seq<Atom>,
    content: int,
    page_height: int,
    tops: Seq<i64>,
)
    requires
        offsets(tops) == page_tops(atoms, content, page_height),
    ensures
        !stalls(tops),
{
    assert forall|i: int| 0 <= i && i + 1 < tops.len() implies (#[trigger] tops[i + 1]) > tops[i] by {
        law_pages_advance(atoms, content, page_height, i);
        assert(offsets(tops)[i] == tops[i]);
        assert(offsets(tops)[i + 1] == tops[i + 1]);
    }
}

/// A document that shows nothing.
pub open spec fn blank(dom: Dom) -> bool {
    dom.chars_to(dom.nodes@.len() as int) == 0 && dom.flow_height(dom.nodes@.len() as int) < 1000
}

/// Nothing to read and nothing to see: less than a pixel of flow without text.
pub fn is_empty(dom: &Dom) -> (r: bool)
    requires
        dom.wf(),
        dom.chars_to(dom.nodes@.len() as int) <= usize::MAX,
    ensures
        r == blank(*dom),
{
    dom.text_len() == 0 && dom.content_height() < 1000
}

/// What a run has seen.
#[derive(Debug, Clone, Copy, PartialEq, Eq, Structural)]
pub struct Tally {
    pub books: usize,
    pub chapters: usize,
    pub pages: usize,
    pub empty: usize,
    pub panicked: usize,
    pub cutting: usize,
    pub stalled: usize,
    /// Breaks through an atom taller than a page.
    pub big: usize,
    /// Contents entries.
    pub entries: usize,
    /// Books whose contents are their spine.
    pub fallbacks: usize,
    /// Contents entries whose fragment is not in their chapter.
    pub dangling: usize,
    /// Books that do not open.
    pub failed: usize,
}

impl Default for Tally {
    fn default() -> (r: Self)
        ensures
            r == (Tally {
                books: 0,
                chapters: 0,
                pages: 0,
                empty: 0,
                panicked: 0,
                cutting: 0,
                stalled: 0,
                big: 0,
                entries: 0,
                fallbacks: 0,
                dangling: 0,
                failed: 0,
            }),
    {
        Tally {
            books: 0,
            chapters: 0,
            pages: 0,
            empty: 0,
            panicked: 0,
            cutting: 0,
            stalled: 0,
            big: 0,
            entries: 0,
            fallbacks: 0,
            dangling: 0,
            failed: 0,
        }
    }
}

impl Tally {
    /// There is room to count one chapter more, of some pages and contents.
    pub open spec fn roomy(self, pages: int, entries: int) -> bool {
        &&& self.chapters < usize::MAX && self.empty < usize::MAX && self.stalled < usize::MAX
        &&& self.pages + pages <= usize::MAX
        &&& self.cutting + pages <= usize::MAX
        &&& self.big + pages <= usize::MAX
        &&& self.dangling + entries <= usize::MAX
    }

    /// The tally with one chapter more.
    pub open spec fn with_chapter(
        self,
        pages: Pages,
        atoms: Seq<Atom>,
        empty: bool,
        dangling: usize,
    ) -> Tally {
        let n = pages.tops@.len() as int;
        Tally {
            chapters: (self.chapters + 1) as usize,
            pages: (self.pages + n) as usize,
            empty: (self.empty + if empty {
                1int
            } else {
                0
            }) as usize,
            cutting: (self.cutting + breaks(atoms, pages, Break::Cut, n)) as usize,
            big: (self.big + breaks(atoms, pages, Break::Big, n)) as usize,
            stalled: (self.stalled + if stalls(pages.tops@) {
                1int
            } else {
                0
            }) as usize,
            dangling: (self.dangling + dangling) as usize,
            ..self
        }
    }

    /// Counts a chapter that was laid out. A chapter that stalls counts once.
    pub fn count_chapter(&mut self, atoms: &Vec<Atom>, pages: &Pages, empty: bool, dangling: usize)
        requires
            old(self).roomy(pages.tops@.len() as int, dangling as int),
        ensures
            *final(self) == old(self).with_chapter(*pages, atoms@, empty, dangling),
    {
        let (cut, big) = cutting(atoms, pages);
        self.chapters = self.chapters + 1;
        self.pages = self.pages + pages.count();
        self.cutting = self.cutting + cut;
        self.big = self.big + big;
        self.dangling = self.dangling + dangling;
        if empty {
            self.empty = self.empty + 1;
        }
        if stalled(pages) {
            self.stalled = self.stalled + 1;
        }
    }

    /// What the run says at its end.
    pub open spec fn text(self) -> Seq<char> {
        "checked "@ + decimal(self.books as nat) + " books, "@ + decimal(self.chapters as nat)
            + " chapters, "@ + decimal(self.pages as nat) + " pages | empty "@ + decimal(
            self.empty as nat,
        ) + " | engine panics "@ + decimal(self.panicked as nat) + " | breaks cutting an atom "@
            + decimal(self.cutting as nat) + " | stalls "@ + decimal(self.stalled as nat)
            + " | taller than a page "@ + decimal(self.big as nat) + " | contents entries "@ + decimal(
            self.entries as nat,
        ) + " | from the spine "@ + decimal(self.fallbacks as nat) + " | dangling "@ + decimal(
            self.dangling as nat,
        )
    }

    pub fn summary(&self) -> (r: String)
        ensures
            r@ == self.text(),
    {
        let mut out = owned("checked ");
        push_count(&mut out, self.books);
        out.append(" books, ");
        push_count(&mut out, self.chapters);
        out.append(" chapters, ");
        push_count(&mut out, self.pages);
        out.append(" pages | empty ");
        push_count(&mut out, self.empty);
        out.append(" | engine panics ");
        push_count(&mut out, self.panicked);
        out.append(" | breaks cutting an atom ");
        push_count(&mut out, self.cutting);
        out.append(" | stalls ");
        push_count(&mut out, self.stalled);
        out.append(" | taller than a page ");
        push_count(&mut out, self.big);
        out.append(" | contents entries ");
        push_count(&mut out, self.entries);
        out.append(" | from the spine ");
        push_count(&mut out, self.fallbacks);
        out.append(" | dangling ");
        push_count(&mut out, self.dangling);
        out
    }

    /// The exit code of a run.
    pub open spec fn code(self) -> int {
        if self.panicked > 0 || self.empty > 0 || self.cutting > 0 || self.stalled > 0 || self.failed
            > 0 {
            1
        } else {
            0
        }
    }

    /// The run passes when no chapter panics the engine, none is empty, no break
    /// cuts an atom that it could have spared, no chapter stalls and every book
    /// opens.
    pub fn exit_code(&self) -> (r: i32)
        ensures
            r == self.code(),
    {
        if self.panicked > 0 || self.empty > 0 || self.cutting > 0 || self.stalled > 0
            || self.failed > 0 {
            1
        } else {
            0
        }
    }
}

} // verus!
