//! A chapter: preparing its markup, and reading a laid-out document.
use crate::bands::{
    absorb_into_bands, absorbed, apart, band_cells, by_top, left_over, rows, separate_bands, Cell,
};
use crate::dom::{abs_y, fits, has_tag, lemma_abs, placed, within, Dom, LineBox, Node};
use crate::grid::{escape, escaped};
use crate::hyphen::{
    drop_soft, law_marking_only_adds_soft_hyphens, mark_html, marked, marked_html, without_soft,
    Hyphenator_, Lang, SOFT,
};
use crate::markup::{declared, skip_lead, without_lead, DOCTYPE};
use crate::net::ORIGIN;
use crate::order::sorted;
use crate::paginate::{offsets, page_tops, paginate, Atom, AtomKind, Pages};
use crate::search::{fold_chars, folded, prose, text_of_html};
use crate::style::{strip_publisher_css, without_css};
use crate::text::{
    chars_of, extend, find, find_word, holds, lower_all, lowered, owned, push_all, same_chars, trim,
    trimmed, views, words, words_of,
};
use vstd::prelude::*;
use vstd::slice::slice_subrange;

pub use crate::dom::{
    ancestor_attr, char_at, char_span, element_rect, find_by_attr, highlight_bytes, indexed_tops,
    node_origin, node_rect, node_top, tag_of, text_element, text_of,
};

verus! {

/// The table a node stands in: itself, or the nearest above it.
pub open spec fn table_of(nodes: Seq<Node>, i: int) -> Option<int>
    decreases i,
{
    if i < 0 || i >= nodes.len() {
        None
    } else if nodes[i].tag() == Some("table"@) {
        Some(i)
    } else {
        match nodes[i].parent {
            Some(p) => if p < i {
                table_of(nodes, p as int)
            } else {
                None
            },
            None => None,
        }
    }
}

/// A box that a break must not cut through and whose contents do not count: a
/// library card, whose clipped title lays out past the card.
pub open spec fn boxed(n: Node) -> bool {
    n.attr("data-atom"@) is Some && n.height > 0
}

/// Does a node stand inside such a box?
pub open spec fn hidden(nodes: Seq<Node>, i: int) -> bool
    decreases i,
{
    0 <= i < nodes.len() && match nodes[i].parent {
        Some(p) => p < i && (boxed(nodes[p as int]) || hidden(nodes, p as int)),
        None => false,
    }
}

/// An element that is painted whole: an image, a drawing, a rule, a film.
pub open spec fn replaced(n: Node) -> bool {
    n.height > 0 && (n.tag() == Some("img"@) || n.tag() == Some("svg"@) || n.tag() == Some("hr"@)
        || n.tag() == Some("video"@))
}

pub open spec fn heading(n: Node) -> bool {
    n.tag() == Some("h1"@) || n.tag() == Some("h2"@) || n.tag() == Some("h3"@) || n.tag() == Some(
        "h4"@,
    ) || n.tag() == Some("h5"@) || n.tag() == Some("h6"@)
}

pub open spec fn table_cell(n: Node) -> bool {
    n.tag() == Some("td"@) || n.tag() == Some("th"@)
}

/// The whole box of a node as an atom.
pub open spec fn box_atom(nodes: Seq<Node>, i: int) -> Atom {
    Atom {
        top: abs_y(nodes, i) as i64,
        bottom: (abs_y(nodes, i) + nodes[i].height) as i64,
        group: i as usize,
        kind: AtomKind::Block,
        keep_with_next: false,
    }
}

/// The lines of an element as atoms, those without height left out.
pub open spec fn line_atoms(lines: Seq<LineBox>, top: int, group: usize, keep: bool) -> Seq<Atom>
    decreases lines.len(),
{
    if lines.len() == 0 {
        seq![]
    } else {
        let before = line_atoms(lines.drop_last(), top, group, keep);
        let l = lines.last();
        if l.bottom > l.top {
            before.push(
                Atom {
                    top: (top + l.top) as i64,
                    bottom: (top + l.bottom) as i64,
                    group,
                    kind: AtomKind::Line,
                    keep_with_next: keep,
                },
            )
        } else {
            before
        }
    }
}

/// What a node itself contributes: its box if it is painted whole, then its box
/// if it is marked as one, else its lines.
pub open spec fn own_atoms(nodes: Seq<Node>, i: int) -> Seq<Atom> {
    let whole = if replaced(nodes[i]) {
        seq![box_atom(nodes, i)]
    } else {
        seq![]
    };
    if boxed(nodes[i]) {
        whole.push(box_atom(nodes, i))
    } else {
        whole + line_atoms(
            nodes[i].lines(),
            abs_y(nodes, i) + nodes[i].inset_y,
            i as usize,
            heading(nodes[i]),
        )
    }
}

/// What the first `n` nodes contribute outside tables.
pub open spec fn flow_atoms(nodes: Seq<Node>, n: int) -> Seq<Atom>
    decreases n,
{
    if n <= 0 {
        seq![]
    } else {
        let before = flow_atoms(nodes, n - 1);
        if hidden(nodes, n - 1) || table_of(nodes, n - 1) is Some {
            before
        } else {
            before + own_atoms(nodes, n - 1)
        }
    }
}

/// What the first `n` nodes contribute inside tables.
pub open spec fn inner_atoms(nodes: Seq<Node>, n: int) -> Seq<Atom>
    decreases n,
{
    if n <= 0 {
        seq![]
    } else {
        let before = inner_atoms(nodes, n - 1);
        if hidden(nodes, n - 1) || table_of(nodes, n - 1) is None {
            before
        } else {
            before + own_atoms(nodes, n - 1)
        }
    }
}

/// The table cells among the first `n` nodes.
pub open spec fn cells_to(nodes: Seq<Node>, n: int) -> Seq<Cell>
    decreases n,
{
    if n <= 0 {
        seq![]
    } else {
        let before = cells_to(nodes, n - 1);
        match table_of(nodes, n - 1) {
            Some(t) => if !hidden(nodes, n - 1) && table_cell(nodes[n - 1]) {
                before.push(
                    Cell {
                        table: t as usize,
                        top: abs_y(nodes, n - 1) as i64,
                        height: nodes[n - 1].height,
                    },
                )
            } else {
                before
            },
            None => before,
        }
    }
}

/// Everything in a document that a page break must not cut through: what stands
/// outside tables, what of tables belongs to no row, and the row bands.
pub open spec fn atoms_of(nodes: Seq<Node>) -> Seq<Atom> {
    let n = nodes.len() as int;
    let bands = rows(sorted(cells_to(nodes, n)));
    let inner = inner_atoms(nodes, n);
    flow_atoms(nodes, n) + left_over(bands, inner) + apart(by_top(absorbed(bands, inner)), None)
}

fn is_replaced(n: &Node) -> (r: bool)
    ensures
        r == replaced(*n),
{
    n.height > 0 && (has_tag(n, "img") || has_tag(n, "svg") || has_tag(n, "hr") || has_tag(
        n,
        "video",
    ))
}

fn is_heading(n: &Node) -> (r: bool)
    ensures
        r == heading(*n),
{
    has_tag(n, "h1") || has_tag(n, "h2") || has_tag(n, "h3") || has_tag(n, "h4") || has_tag(n, "h5")
        || has_tag(n, "h6")
}

fn is_boxed(n: &Node) -> (r: bool)
    ensures
        r == boxed(*n),
{
    n.height > 0 && crate::dom::attr_of(n, "data-atom").is_some()
}

fn atoms_of_node(dom: &Dom, i: usize, top: i64) -> (r: Vec<Atom>)
    requires
        dom.wf(),
        i < dom.nodes@.len(),
        top == abs_y(dom.nodes@, i as int),
    ensures
        r@ == own_atoms(dom.nodes@, i as int),
{
    let node = &dom.nodes[i];
    let mut out: Vec<Atom> = Vec::new();
    proof {
        lemma_abs(*dom, i as int);
        assert(dom.nodes@[i as int].wf());
    }
    let whole = Atom {
        top,
        bottom: top + node.height,
        group: i,
        kind: AtomKind::Block,
        keep_with_next: false,
    };
    assert(whole == box_atom(dom.nodes@, i as int));
    if is_replaced(node) {
        out.push(whole);
    }
    let ghost head = out@;
    proof {
        if replaced(*node) {
            assert(head =~= seq![whole]);
        } else {
            assert(head =~= seq![]);
        }
    }
    if is_boxed(node) {
        out.push(whole);
        return out;
    }
    let keep = is_heading(node);
    let start: i64 = top + node.inset_y;
    proof {
        assert(line_atoms(seq![], start as int, i, keep) =~= seq![]);
        assert(head + seq![] =~= head);
    }
    match &node.element {
        Some(el) => match &el.inline {
            Some(inline) => {
                let mut k: usize = 0;
                assert(inline.lines@.take(0) =~= seq![]);
                while k < inline.lines.len()
                    invariant
                        k <= inline.lines.len(),
                        inline.lines@ == node.lines(),
                        node.wf(),
                        -0x1400_0000_0000_0000 <= start <= 0x1400_0000_0000_0000,
                        out@ == head + line_atoms(
                            inline.lines@.take(k as int),
                            start as int,
                            i,
                            keep,
                        ),
                    decreases inline.lines.len() - k,
                {
                    let l = inline.lines[k];
                    let ghost before = out@;
                    proof {
                        assert(inline.lines@.take(k + 1).drop_last() =~= inline.lines@.take(k as int));
                        assert(node.lines()[k as int].wf());
                    }
                    if l.bottom > l.top {
                        out.push(
                            Atom {
                                top: start + l.top,
                                bottom: start + l.bottom,
                                group: i,
                                kind: AtomKind::Line,
                                keep_with_next: keep,
                            },
                        );
                    }
                    proof {
                        assert(out@ =~= head + line_atoms(
                            inline.lines@.take(k + 1),
                            start as int,
                            i,
                            keep,
                        ));
                    }
                    k = k + 1;
                }
                assert(inline.lines@.take(k as int) =~= inline.lines@);
            },
            None => {},
        },
        None => {},
    }
    out
}

pub proof fn lemma_cells_fit(dom: Dom, n: int)
    requires
        dom.wf(),
        0 <= n <= dom.nodes@.len(),
    ensures
        forall|k: int|
            0 <= k < cells_to(dom.nodes@, n).len() ==> fits((#[trigger] cells_to(dom.nodes@, n)[k]).height)
                && -0x1000_0000_0000_0000 <= cells_to(dom.nodes@, n)[k].top <= 0x1000_0000_0000_0000,
    decreases n,
{
    if n > 0 {
        lemma_cells_fit(dom, n - 1);
        lemma_abs(dom, n - 1);
        assert(dom.nodes@[n - 1].wf());
        let before = cells_to(dom.nodes@, n - 1);
        let all = cells_to(dom.nodes@, n);
        assert forall|k: int| 0 <= k < all.len() implies fits((#[trigger] all[k]).height) && -0x1000_0000_0000_0000
            <= all[k].top <= 0x1000_0000_0000_0000 by {
            if k < before.len() {
                assert(all[k] == before[k]);
            }
        }
    }
}

/// Everything a page break must not cut through.
///
/// Prose contributes line boxes, tables contribute row bands derived from cell
/// geometry, and replaced elements contribute their whole box.
pub fn collect_atoms(dom: &Dom) -> (r: Vec<Atom>)
    requires
        dom.wf(),
    ensures
        r@ == atoms_of(dom.nodes@),
{
    let ghost nodes = dom.nodes@;
    let tops = dom.tops();
    let mut atoms: Vec<Atom> = Vec::new();
    let mut cells: Vec<Cell> = Vec::new();
    let mut in_table: Vec<Atom> = Vec::new();
    // For each node, the table it stands in and whether a box hides it.
    let mut table: Vec<Option<usize>> = Vec::new();
    let mut under: Vec<bool> = Vec::new();
    let mut i: usize = 0;
    while i < dom.nodes.len()
        invariant
            dom.wf(),
            nodes == dom.nodes@,
            i <= dom.nodes.len(),
            tops@.len() == nodes.len(),
            forall|k: int| 0 <= k < tops@.len() ==> #[trigger] tops@[k] == abs_y(nodes, k),
            table@.len() == i,
            under@.len() == i,
            forall|k: int|
                0 <= k < i ==> match #[trigger] table@[k] {
                    Some(t) => table_of(nodes, k) == Some(t as int),
                    None => table_of(nodes, k) is None,
                },
            forall|k: int| 0 <= k < i ==> #[trigger] under@[k] == hidden(nodes, k),
            atoms@ == flow_atoms(nodes, i as int),
            in_table@ == inner_atoms(nodes, i as int),
            cells@ == cells_to(nodes, i as int),
        decreases dom.nodes.len() - i,
    {
        proof {
            assert(placed(nodes, i as int));
        }
        let node = &dom.nodes[i];
        let here: Option<usize> = if has_tag(node, "table") {
            Some(i)
        } else {
            match node.parent {
                Some(p) => table[p],
                None => None,
            }
        };
        let covered = match node.parent {
            Some(p) => is_boxed(&dom.nodes[p]) || under[p],
            None => false,
        };
        proof {
            if let Some(p) = node.parent {
                let above = table@[p as int];
                assert(under@[p as int] == hidden(nodes, p as int));
            }
        }
        if !covered {
            if let Some(t) = here {
                if has_tag(node, "td") || has_tag(node, "th") {
                    cells.push(Cell { table: t, top: tops[i], height: node.height });
                }
            }
            let own = atoms_of_node(dom, i, tops[i]);
            if here.is_some() {
                extend(&mut in_table, &own);
            } else {
                extend(&mut atoms, &own);
            }
        }
        table.push(here);
        under.push(covered);
        i = i + 1;
    }
    proof {
        lemma_cells_fit(*dom, i as int);
    }
    // Inside a table the row is the atom: lines within a cell overlap their band
    // and would veto breaks at the very boundaries it exists to provide.
    let mut bands = band_cells(&cells);
    let orphans = absorb_into_bands(&mut bands, &in_table);
    separate_bands(&mut bands);
    extend(&mut atoms, &orphans);
    extend(&mut atoms, &bands);
    atoms
}

/// Build the page table for a laid-out document.
pub fn paginate_dom(dom: &Dom, page_height: i64) -> (pages: Pages)
    requires
        dom.wf(),
    ensures
        pages.page_height == page_height,
        pages.content_height == dom.flow_height(dom.nodes@.len() as int),
        offsets(pages.tops@) == page_tops(
            atoms_of(dom.nodes@),
            dom.flow_height(dom.nodes@.len() as int),
            page_height as int,
        ),
{
    let atoms = collect_atoms(dom);
    paginate(&atoms, dom.content_height(), page_height)
}

/// The highest atom that reaches below `y`; of several, the first.
pub open spec fn first_below(atoms: Seq<Atom>, y: int) -> Option<Atom>
    decreases atoms.len(),
{
    if atoms.len() == 0 {
        None
    } else {
        let best = first_below(atoms.drop_last(), y);
        let a = atoms.last();
        if a.bottom > y && (best matches Some(b) ==> a.top < b.top) {
            Some(a)
        } else {
            best
        }
    }
}

/// The node a page begins at: that of the first atom at or after the page top.
/// This is what a position is made from.
pub fn node_at(dom: &Dom, y: i64) -> (r: Option<usize>)
    requires
        dom.wf(),
    ensures
        match first_below(atoms_of(dom.nodes@), y as int) {
            Some(a) => r == Some(a.group),
            None => r is None,
        },
{
    let atoms = collect_atoms(dom);
    let mut best: Option<Atom> = None;
    let mut i: usize = 0;
    assert(atoms@.take(0) =~= seq![]);
    while i < atoms.len()
        invariant
            i <= atoms.len(),
            best == first_below(atoms@.take(i as int), y as int),
        decreases atoms.len() - i,
    {
        proof {
            assert(atoms@.take(i + 1).drop_last() =~= atoms@.take(i as int));
        }
        let a = atoms[i];
        if a.bottom > y {
            best = match best {
                Some(b) => if a.top < b.top {
                    Some(a)
                } else {
                    Some(b)
                },
                None => Some(a),
            };
        }
        i = i + 1;
    }
    assert(atoms@.take(i as int) =~= atoms@);
    match best {
        Some(a) => Some(a.group),
        None => None,
    }
}

/// Does a text, folded, hold `needle`, whether or not the places where its words
/// may break are marked?
pub open spec fn said(text: Seq<char>, needle: Seq<char>) -> bool {
    holds(folded(text), needle) || holds(folded(without_soft(text)), needle)
}

/// Does a node's own text, folded, hold `needle`?
pub open spec fn says(n: Node, needle: Seq<char>) -> bool {
    n.text() matches Some(t) && said(t, needle)
}

fn is_said(text: &[char], needle: &[char]) -> (r: bool)
    ensures
        r == said(text@, needle@),
{
    find(&fold_chars(text), needle).is_some() || find(
        &fold_chars(&drop_soft(text)),
        needle,
    ).is_some()
}

/// What a text says it still says when the places where its words may break are
/// marked, so a hit in the index is found again in the laid-out chapter.
pub proof fn law_marked_text_says_what_it_said(lang: Lang, text: Seq<char>, needle: Seq<char>)
    requires
        !text.contains(SOFT),
        said(text, needle),
    ensures
        said(marked(lang, text), needle),
{
    law_marking_only_adds_soft_hyphens(lang, text);
    lemma_without_soft(text);
}

proof fn lemma_without_soft(s: Seq<char>)
    requires
        !s.contains(SOFT),
    ensures
        without_soft(s) == s,
    decreases s.len(),
{
    if s.len() > 0 {
        assert(s.contains(s[0]));
        let rest = s.drop_first();
        assert(!rest.contains(SOFT)) by {
            if rest.contains(SOFT) {
                let k = choose|k: int| 0 <= k < rest.len() && rest[k] == SOFT;
                assert(s[k + 1] == SOFT);
            }
        }
        lemma_without_soft(rest);
        assert(seq![s[0]] + rest =~= s);
    }
}

/// The first element whose own text, folded, holds `needle`.
pub fn first_with_text(dom: &Dom, needle: &[char]) -> (r: Option<usize>)
    requires
        dom.wf(),
    ensures
        match crate::dom::first_node(dom.nodes@, 0, |n: Node| says(n, needle@)) {
            Some(i) => r == Some(i as usize) && 0 <= i < dom.nodes@.len(),
            None => r is None,
        },
{
    let ghost p = |n: Node| says(n, needle@);
    let mut i: usize = 0;
    while i < dom.nodes.len()
        invariant
            i <= dom.nodes.len(),
            p == (|n: Node| says(n, needle@)),
            crate::dom::first_node(dom.nodes@, 0, p) == crate::dom::first_node(
                dom.nodes@,
                i as int,
                p,
            ),
        decreases dom.nodes.len() - i,
    {
        let found = match &dom.nodes[i].element {
            Some(el) => match &el.inline {
                Some(inline) => {
                    let t = chars_of(inline.text.as_str());
                    is_said(&t, needle)
                },
                None => false,
            },
            None => false,
        };
        assert(found == p(dom.nodes@[i as int]));
        if found {
            return Some(i);
        }
        i = i + 1;
    }
    None
}

/// The longest of some words; of several, the last.
pub open spec fn longest(ws: Seq<Seq<char>>) -> Option<Seq<char>>
    decreases ws.len(),
{
    if ws.len() == 0 {
        None
    } else {
        match longest(ws.drop_last()) {
            Some(w) if w.len() > ws.last().len() => Some(w),
            _ => Some(ws.last()),
        }
    }
}

/// The first element that says `needle`, or else, where that is a phrase, its
/// longest word of four characters or more.
pub open spec fn located(nodes: Seq<Node>, needle: Seq<char>) -> Option<int> {
    if needle.len() == 0 {
        None
    } else {
        match crate::dom::first_node(nodes, 0, |n: Node| says(n, needle)) {
            Some(i) => Some(i),
            None => match longest(words(needle)) {
                Some(w) => if w.len() >= 4 && w != needle {
                    crate::dom::first_node(nodes, 0, |n: Node| says(n, w))
                } else {
                    None
                },
                None => None,
            },
        }
    }
}

/// The first element whose text contains `needle`, folded so an unaccented query
/// finds an accented word. Used to land a search hit on its page.
///
/// A phrase can straddle an inline tag, and a full-text match need not be
/// adjacent at all. The longest word is the most distinctive thing guaranteed to
/// sit inside one run, so fall back to that before giving up on the page.
pub fn node_containing_text(dom: &Dom, needle: &str) -> (r: Option<usize>)
    requires
        dom.wf(),
    ensures
        match located(dom.nodes@, trimmed(folded(needle@))) {
            Some(i) => r == Some(i as usize) && 0 <= i < dom.nodes@.len(),
            None => r is None,
        },
{
    let typed = chars_of(needle);
    let low = fold_chars(&typed);
    let wanted = trim(&low);
    if wanted.len() == 0 {
        return None;
    }
    let found = first_with_text(dom, wanted);
    if found.is_some() {
        return found;
    }
    let ws = words_of(wanted);
    let ghost all = views(ws@);
    let mut best: usize = 0;
    let mut i: usize = 0;
    assert(all.take(0) =~= seq![]);
    while i < ws.len()
        invariant
            i <= ws.len(),
            all == views(ws@),
            i == 0 ==> longest(all.take(i as int)) is None,
            i > 0 ==> best < i && longest(all.take(i as int)) == Some(ws@[best as int]@),
        decreases ws.len() - i,
    {
        proof {
            assert(all.take(i + 1).drop_last() =~= all.take(i as int));
            assert(all.take(i + 1).last() == ws@[i as int]@);
        }
        if i == 0 || ws[best].len() <= ws[i].len() {
            best = i;
        }
        i = i + 1;
    }
    assert(all.take(i as int) =~= all);
    if ws.len() == 0 {
        return None;
    }
    let word = ws[best].as_slice();
    if word.len() >= 4 && !same_chars(word, wanted) {
        first_with_text(dom, word)
    } else {
        None
    }
}

/// A spine item that paints nothing at all: no text and no image element. A
/// cover wrapped in inline SVG reaches the engine as an empty tree.
pub open spec fn paints_nothing(raw: Seq<char>) -> bool {
    trimmed(prose(raw)).len() == 0 && !holds(lowered(raw), "<img"@)
}

/// Does this spine item paint nothing at all?
pub fn blank_cover(raw: &str) -> (r: bool)
    ensures
        r == paints_nothing(raw@),
{
    let text = text_of_html(raw);
    let chars = chars_of(text.as_str());
    if trim(&chars).len() > 0 {
        return false;
    }
    let all = chars_of(raw);
    let low = lower_all(&all);
    let found = find_word(&low, "<img");
    proof {
        crate::text::lemma_place(low@, "<img"@);
    }
    found.is_none()
}

pub const TITLE_HEAD: &'static str = r#"<html><body>
<div style="margin-top: 30vh; text-align: center;">
  <div style="font-size: 2em; font-weight: 600; line-height: 1.25;">"#;

pub const TITLE_BY: &'static str = r#"<div style="font-size: 1.1em; margin-top: 2em;">"#;

pub const TITLE_FOOT: &'static str = "\n</div></body></html>";

/// A page with a book's name on it, and its author's where there is one.
pub open spec fn title_markup(title: Seq<char>, author: Seq<char>) -> Seq<char> {
    DOCTYPE@ + TITLE_HEAD@ + escaped(title) + "</div>\n  "@ + (if trimmed(author).len() == 0 {
        seq![]
    } else {
        TITLE_BY@ + escaped(author) + "</div>"@
    }) + TITLE_FOOT@
}

/// A cover page with nothing on it, replaced by the book's own name.
///
/// Inline styles rather than the reading stylesheet: an attribute is the one bit
/// of CSS a chapter document can carry, and this page is the only one that wants
/// any.
pub fn title_page(title: &str, author: &str) -> (r: String)
    ensures
        r@ == title_markup(title@, author@),
{
    let who = chars_of(author);
    let mut by = String::new();
    proof {
        assert(by@ =~= seq![]);
    }
    if trim(&who).len() > 0 {
        by = owned(TITLE_BY);
        let name = escape(author);
        by.append(name.as_str());
        by.append("</div>");
    }
    let mut out = owned(DOCTYPE);
    out.append(TITLE_HEAD);
    let name = escape(title);
    out.append(name.as_str());
    out.append("</div>\n  ");
    out.append(by.as_str());
    out.append(TITLE_FOOT);
    out
}

/// The markup of a chapter as it goes to the engine: without the publisher's
/// CSS, hyphenated where there are patterns. A first page that would paint
/// nothing shows the book's name.
pub open spec fn prepared(
    raw: Seq<char>,
    index: int,
    title: Seq<char>,
    author: Seq<char>,
    lang: Option<Lang>,
) -> Seq<char> {
    if index == 0 && paints_nothing(raw) {
        title_markup(title, author)
    } else {
        match lang {
            Some(l) => marked_html(l, without_css(raw), 0),
            None => without_css(raw),
        }
    }
}

/// The markup of a chapter as it goes to the engine.
pub fn prepare(
    raw: &str,
    index: usize,
    title: &str,
    author: &str,
    hyphenator: Option<&Hyphenator_>,
) -> (r: String)
    ensures
        r@ == prepared(
            raw@,
            index as int,
            title@,
            author@,
            match hyphenator {
                Some(h) => Some(h.lang()),
                None => None,
            },
        ),
{
    if index == 0 && blank_cover(raw) {
        return title_page(title, author);
    }
    // The whitelist policy: publisher CSS never reaches the engine.
    let html = strip_publisher_css(raw);
    match hyphenator {
        Some(h) => mark_html(html.as_str(), h),
        None => html,
    }
}

/// The synthetic origin of a chapter's directory: where its relative references
/// resolve.
pub open spec fn base_of(href: Seq<char>) -> Seq<char> {
    let path = without_lead(href, '/');
    match crate::grid::last_spot(path, '/') {
        Some(i) => ORIGIN@ + path.take(i) + "/"@,
        None => ORIGIN@,
    }
}

/// Resolve a chapter reference against the synthetic in-archive origin, so that
/// a relative image lands back inside the archive.
pub fn base_url_for(chapter_href: &str) -> (r: String)
    ensures
        r@ == base_of(chapter_href@),
{
    let chars = chars_of(chapter_href);
    let path = skip_lead(&chars, '/');
    match crate::grid::find_last(path, '/') {
        Some(i) => {
            let dir = slice_subrange(path, 0, i);
            assert(dir@ =~= path@.take(i as int));
            let mut out = owned(ORIGIN);
            push_all(&mut out, dir);
            out.append("/");
            out
        },
        None => owned(ORIGIN),
    }
}

/// A title page declares a doctype, whoever wrote the book.
pub proof fn law_title_pages_declare_themselves(title: Seq<char>, author: Seq<char>)
    ensures
        declared(title_markup(title, author)),
{
    let html = title_markup(title, author);
    assert(html.take(DOCTYPE@.len() as int) =~= DOCTYPE@);
}

} // verus!
