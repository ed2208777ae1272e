//! What holds of a chapter's pages, whatever it is laid out as.
use crate::bands::{
    absorbed, apart, banded, by_top, cells_fit, covers, law_absorbing_loses_nothing,
    law_cells_that_start_level_are_one_row, law_separating_keeps_what_is_covered, left_over,
    over_cell, rows, Cell,
};
use crate::chapter::{
    atoms_of, cells_to, first_below, flow_atoms, hidden, inner_atoms, lemma_cells_fit, line_atoms,
    located, longest, own_atoms, prepared, says, table_of, title_markup,
};
use crate::dom::{abs_x, abs_y, first_node, fits, lemma_abs, placed, within, Dom, LineBox, Node};
use crate::grid::escaped;
use crate::hyphen::{marked_html, without_soft, Lang};
use crate::order::sorted;
use crate::paginate::{
    covered, law_no_page_break_cuts_an_atom, law_pages_advance,
    law_pages_start_at_the_head_of_the_flow, page_tops, Atom, AtomKind,
};
use crate::search::{folded, prose};
use crate::style::without_css;
use crate::text::{holds, lowered, trimmed, words};
use vstd::prelude::*;

verus! {

/// No node that `i` stands below is a box of its own, as a library card is.
pub open spec fn in_the_open(nodes: Seq<Node>, i: int) -> bool {
    forall|a: int|
        #[trigger] within(nodes, i, a) && a != i ==> !(nodes[a].attr("data-atom"@) is Some
            && nodes[a].height > 0)
}

/// Node `i` is no table, and stands in none.
pub open spec fn off_tables(nodes: Seq<Node>, i: int) -> bool {
    forall|a: int| #[trigger] within(nodes, i, a) ==> nodes[a].tag() != Some("table"@)
}

/// Some atom is the stretch of the flow from `top` to `bottom`, and parts from what
/// follows it.
pub open spec fn kept_whole(atoms: Seq<Atom>, top: int, bottom: int) -> bool {
    exists|k: int|
        0 <= k < atoms.len() && (#[trigger] atoms[k]).top == top && atoms[k].bottom == bottom
            && !atoms[k].keep_with_next
}

proof fn lemma_within_parent(nodes: Seq<Node>, i: int)
    requires
        0 <= i < nodes.len(),
        nodes[i].parent matches Some(p) ==> p < i,
    ensures
        within(nodes, i, i),
        nodes[i].parent matches Some(p) ==> forall|a: int|
            within(nodes, p as int, a) ==> #[trigger] within(nodes, i, a),
{
}

proof fn lemma_open(dom: Dom, i: int)
    requires
        dom.wf(),
        0 <= i < dom.nodes@.len(),
        in_the_open(dom.nodes@, i),
    ensures
        !hidden(dom.nodes@, i),
    decreases i,
{
    let nodes = dom.nodes@;
    assert(placed(nodes, i));
    lemma_within_parent(nodes, i);
    if let Some(p) = nodes[i].parent {
        assert(placed(nodes, p as int));
        lemma_within_parent(nodes, p as int);
        assert(within(nodes, i, p as int));
        assert(in_the_open(nodes, p as int)) by {
            assert forall|a: int| #[trigger] within(nodes, p as int, a) && a != p implies !(nodes[a].attr("data-atom"@) is Some
                && nodes[a].height > 0) by {
                lemma_within_below(nodes, p as int, a);
                assert(within(nodes, i, a));
            }
        }
        lemma_open(dom, p as int);
    }
}

proof fn lemma_within_below(nodes: Seq<Node>, i: int, a: int)
    requires
        within(nodes, i, a),
    ensures
        0 <= a <= i < nodes.len(),
    decreases i,
{
    if i != a {
        if let Some(p) = nodes[i].parent {
            lemma_within_below(nodes, p as int, a);
        }
    }
}

proof fn lemma_table_of(dom: Dom, i: int)
    requires
        dom.wf(),
        0 <= i < dom.nodes@.len(),
    ensures
        off_tables(dom.nodes@, i) <==> table_of(dom.nodes@, i) is None,
        table_of(dom.nodes@, i) matches Some(t) ==> 0 <= t <= i && within(dom.nodes@, i, t)
            && dom.nodes@[t].tag() == Some("table"@),
    decreases i,
{
    let nodes = dom.nodes@;
    assert(placed(nodes, i));
    lemma_within_parent(nodes, i);
    if nodes[i].tag() == Some("table"@) {
        assert(within(nodes, i, i));
    } else if let Some(p) = nodes[i].parent {
        lemma_table_of(dom, p as int);
        if off_tables(nodes, p as int) {
            assert forall|a: int| #[trigger] within(nodes, i, a) implies nodes[a].tag() != Some("table"@) by {
                if a != i {
                    assert(within(nodes, p as int, a));
                }
            }
        } else {
            let t = table_of(nodes, p as int)->0;
            assert(within(nodes, i, t));
        }
    }
}

proof fn lemma_flow_holds(nodes: Seq<Node>, i: int, n: int, a: Atom)
    requires
        0 <= i < n <= nodes.len(),
        !hidden(nodes, i),
        own_atoms(nodes, i).contains(a),
    ensures
        table_of(nodes, i) is None ==> flow_atoms(nodes, n).contains(a),
        table_of(nodes, i) is Some ==> inner_atoms(nodes, n).contains(a),
    decreases n,
{
    let own = own_atoms(nodes, n - 1);
    if i < n - 1 {
        lemma_flow_holds(nodes, i, n - 1, a);
    } else {
        let k = choose|k: int| 0 <= k < own.len() && own[k] == a;
        if table_of(nodes, i) is None {
            let all = flow_atoms(nodes, n);
            assert(all[flow_atoms(nodes, n - 1).len() + k] == a);
        } else {
            let all = inner_atoms(nodes, n);
            assert(all[inner_atoms(nodes, n - 1).len() + k] == a);
        }
    }
    if table_of(nodes, i) is None && i < n - 1 {
        let before = flow_atoms(nodes, n - 1);
        let m = choose|m: int| 0 <= m < before.len() && before[m] == a;
        assert(flow_atoms(nodes, n)[m] == a);
    }
    if table_of(nodes, i) is Some && i < n - 1 {
        let before = inner_atoms(nodes, n - 1);
        let m = choose|m: int| 0 <= m < before.len() && before[m] == a;
        assert(inner_atoms(nodes, n)[m] == a);
    }
}

proof fn lemma_flow_is_kept(nodes: Seq<Node>, a: Atom)
    requires
        flow_atoms(nodes, nodes.len() as int).contains(a),
    ensures
        atoms_of(nodes).contains(a),
{
    let n = nodes.len() as int;
    let flow = flow_atoms(nodes, n);
    let k = choose|k: int| 0 <= k < flow.len() && flow[k] == a;
    assert(atoms_of(nodes)[k] == a);
}

proof fn lemma_line_atoms(lines: Seq<LineBox>, top: int, group: usize, keep: bool, k: int)
    requires
        0 <= k < lines.len(),
        lines[k].top < lines[k].bottom,
    ensures
        line_atoms(lines, top, group, keep).contains(
            Atom {
                top: (top + lines[k].top) as i64,
                bottom: (top + lines[k].bottom) as i64,
                group,
                kind: AtomKind::Line,
                keep_with_next: keep,
            },
        ),
    decreases lines.len(),
{
    let all = line_atoms(lines, top, group, keep);
    let front = lines.drop_last();
    if k == lines.len() - 1 {
        assert(all.last() == all[all.len() - 1]);
    } else {
        assert(front[k] == lines[k]);
        lemma_line_atoms(front, top, group, keep, k);
        let before = line_atoms(front, top, group, keep);
        let m = choose|m: int|
            0 <= m < before.len() && before[m] == (Atom {
                top: (top + lines[k].top) as i64,
                bottom: (top + lines[k].bottom) as i64,
                group,
                kind: AtomKind::Line,
                keep_with_next: keep,
            });
        assert(all[m] == before[m]);
    }
}

/// An image, a drawing, a rule or a film is kept whole: outside tables, its box is
/// one of the stretches that no break may cut.
pub proof fn law_pictures_are_kept_whole(dom: Dom, i: int)
    requires
        dom.wf(),
        0 <= i < dom.nodes@.len(),
        dom.nodes@[i].tag() matches Some(tag) && (tag == "img"@ || tag == "svg"@ || tag == "hr"@ || tag
            == "video"@),
        dom.nodes@[i].height > 0,
        in_the_open(dom.nodes@, i),
        off_tables(dom.nodes@, i),
    ensures
        kept_whole(
            atoms_of(dom.nodes@),
            abs_y(dom.nodes@, i),
            abs_y(dom.nodes@, i) + dom.nodes@[i].height,
        ),
{
    let nodes = dom.nodes@;
    lemma_abs(dom, i);
    lemma_open(dom, i);
    lemma_table_of(dom, i);
    assert(nodes[i].wf());
    let own = own_atoms(nodes, i);
    let a = own[0];
    assert(own.contains(a));
    lemma_flow_holds(nodes, i, nodes.len() as int, a);
    lemma_flow_is_kept(nodes, a);
    let k = choose|k: int| 0 <= k < atoms_of(nodes).len() && atoms_of(nodes)[k] == a;
    assert(atoms_of(nodes)[k].top == abs_y(nodes, i));
}

/// A box that is marked as one is kept whole, and of what stands in it nothing
/// else counts.
pub proof fn law_marked_boxes_are_kept_whole(dom: Dom, i: int)
    requires
        dom.wf(),
        0 <= i < dom.nodes@.len(),
        dom.nodes@[i].attr("data-atom"@) is Some,
        dom.nodes@[i].height > 0,
        in_the_open(dom.nodes@, i),
        off_tables(dom.nodes@, i),
    ensures
        kept_whole(
            atoms_of(dom.nodes@),
            abs_y(dom.nodes@, i),
            abs_y(dom.nodes@, i) + dom.nodes@[i].height,
        ),
        forall|j: int| #[trigger] within(dom.nodes@, j, i) && j != i ==> hidden(dom.nodes@, j),
{
    let nodes = dom.nodes@;
    lemma_abs(dom, i);
    lemma_open(dom, i);
    lemma_table_of(dom, i);
    assert(nodes[i].wf());
    let own = own_atoms(nodes, i);
    let a = own[own.len() - 1];
    assert(own.contains(a));
    lemma_flow_holds(nodes, i, nodes.len() as int, a);
    lemma_flow_is_kept(nodes, a);
    let k = choose|k: int| 0 <= k < atoms_of(nodes).len() && atoms_of(nodes)[k] == a;
    assert(atoms_of(nodes)[k].top == abs_y(nodes, i));
    assert forall|j: int| #[trigger] within(nodes, j, i) && j != i implies hidden(nodes, j) by {
        lemma_hides(nodes, j, i);
    }
}

proof fn lemma_hides(nodes: Seq<Node>, j: int, i: int)
    requires
        within(nodes, j, i),
        j != i,
        nodes[i].attr("data-atom"@) is Some,
        nodes[i].height > 0,
    ensures
        hidden(nodes, j),
    decreases j,
{
    if let Some(p) = nodes[j].parent {
        if p != i {
            lemma_hides(nodes, p as int, i);
        }
    }
}

/// A line of text is kept whole, where its element puts it in the flow. Lines of
/// one element belong together; a line of a heading, and no other, stays with what
/// follows it.
pub proof fn law_lines_are_kept_whole(dom: Dom, i: int, k: int)
    requires
        dom.wf(),
        0 <= i < dom.nodes@.len(),
        0 <= k < dom.nodes@[i].lines().len(),
        dom.nodes@[i].lines()[k].top < dom.nodes@[i].lines()[k].bottom,
        in_the_open(dom.nodes@, i),
        off_tables(dom.nodes@, i),
        dom.nodes@[i].attr("data-atom"@) is None,
    ensures
        ({
            let n = dom.nodes@[i];
            let top = abs_y(dom.nodes@, i) + n.inset_y;
            exists|m: int|
                0 <= m < atoms_of(dom.nodes@).len() && {
                    let a = #[trigger] atoms_of(dom.nodes@)[m];
                    &&& a.top == top + n.lines()[k].top
                    &&& a.bottom == top + n.lines()[k].bottom
                    &&& a.group == i
                    &&& a.keep_with_next <==> (n.tag() matches Some(tag) && (tag == "h1"@ || tag
                        == "h2"@ || tag == "h3"@ || tag == "h4"@ || tag == "h5"@ || tag == "h6"@))
                }
        }),
{
    let nodes = dom.nodes@;
    let n = nodes[i];
    lemma_abs(dom, i);
    lemma_open(dom, i);
    lemma_table_of(dom, i);
    assert(n.wf());
    assert(n.lines()[k].wf());
    let top = abs_y(nodes, i) + n.inset_y;
    let keep = crate::chapter::heading(n);
    lemma_line_atoms(n.lines(), top, i as usize, keep, k);
    let lines = line_atoms(n.lines(), top, i as usize, keep);
    let a = Atom {
        top: (top + n.lines()[k].top) as i64,
        bottom: (top + n.lines()[k].bottom) as i64,
        group: i as usize,
        kind: AtomKind::Line,
        keep_with_next: keep,
    };
    let own = own_atoms(nodes, i);
    let q = choose|q: int| 0 <= q < lines.len() && lines[q] == a;
    assert(own[own.len() - lines.len() + q] == a);
    lemma_flow_holds(nodes, i, nodes.len() as int, a);
    lemma_flow_is_kept(nodes, a);
    let m = choose|m: int| 0 <= m < atoms_of(nodes).len() && atoms_of(nodes)[m] == a;
    assert(atoms_of(nodes)[m] == a);
}

/// No page of a chapter starts inside a picture, more than a pixel from its edges,
/// unless nothing on the page before it could be broken at.
pub proof fn law_no_page_break_cuts_a_picture(
    dom: Dom,
    i: int,
    content: int,
    page_height: int,
    page: int,
)
    requires
        dom.wf(),
        0 <= i < dom.nodes@.len(),
        dom.nodes@[i].tag() matches Some(tag) && (tag == "img"@ || tag == "svg"@ || tag == "hr"@ || tag
            == "video"@),
        dom.nodes@[i].height > 0,
        in_the_open(dom.nodes@, i),
        off_tables(dom.nodes@, i),
        0 <= page < page_tops(atoms_of(dom.nodes@), content, page_height).len() - 1,
    ensures
        ({
            let tops = page_tops(atoms_of(dom.nodes@), content, page_height);
            let top = abs_y(dom.nodes@, i);
            ||| tops[page + 1] <= top + 1000
            ||| tops[page + 1] >= top + dom.nodes@[i].height - 1000
            ||| forall|z: int|
                tops[page] < z <= tops[page] + page_height ==> #[trigger] covered(
                    atoms_of(dom.nodes@),
                    z,
                )
        }),
{
    law_pictures_are_kept_whole(dom, i);
    let atoms = atoms_of(dom.nodes@);
    law_no_page_break_cuts_an_atom(atoms, content, page_height, page);
    let k = choose|k: int|
        0 <= k < atoms.len() && (#[trigger] atoms[k]).top == abs_y(dom.nodes@, i) && atoms[k].bottom
            == abs_y(dom.nodes@, i) + dom.nodes@[i].height;
    assert(atoms[k].top == abs_y(dom.nodes@, i));
}

/// A picture that fits on a page is on one: where no other stretch lies over its
/// edges, no page starts inside it.
pub proof fn law_a_picture_that_fits_is_on_one_page(
    dom: Dom,
    i: int,
    content: int,
    page_height: int,
    page: int,
)
    requires
        dom.wf(),
        0 <= i < dom.nodes@.len(),
        dom.nodes@[i].tag() matches Some(tag) && (tag == "img"@ || tag == "svg"@ || tag == "hr"@ || tag
            == "video"@),
        0 < dom.nodes@[i].height <= page_height,
        abs_y(dom.nodes@, i) >= 0,
        in_the_open(dom.nodes@, i),
        off_tables(dom.nodes@, i),
        !covered(atoms_of(dom.nodes@), abs_y(dom.nodes@, i)),
        !covered(atoms_of(dom.nodes@), abs_y(dom.nodes@, i) + dom.nodes@[i].height),
        0 <= page < page_tops(atoms_of(dom.nodes@), content, page_height).len(),
    ensures
        ({
            let start = page_tops(atoms_of(dom.nodes@), content, page_height)[page];
            let top = abs_y(dom.nodes@, i);
            start <= top + 1000 || start >= top + dom.nodes@[i].height - 1000
        }),
{
    let atoms = atoms_of(dom.nodes@);
    law_pages_start_at_the_head_of_the_flow(atoms, content, page_height);
    if page > 0 {
        law_no_page_break_cuts_a_picture(dom, i, content, page_height, page - 1);
        law_pages_advance(atoms, content, page_height, page - 1);
        let tops = page_tops(atoms, content, page_height);
        let top = abs_y(dom.nodes@, i);
        let bottom = top + dom.nodes@[i].height;
        if top + 1000 < tops[page] < bottom - 1000 {
            if tops[page - 1] < top {
                assert(!covered(atoms, top));
            } else {
                assert(!covered(atoms, bottom));
            }
        }
    }
}

proof fn lemma_bands_are_kept(nodes: Seq<Node>, y: int)
    ensures
        ({
            let n = nodes.len() as int;
            let bands = absorbed(rows(sorted(cells_to(nodes, n))), inner_atoms(nodes, n));
            let loose = left_over(rows(sorted(cells_to(nodes, n))), inner_atoms(nodes, n));
            banded(bands, y) || banded(loose, y) ==> banded(atoms_of(nodes), y)
        }),
{
    let n = nodes.len() as int;
    let first = rows(sorted(cells_to(nodes, n)));
    let inner = inner_atoms(nodes, n);
    let bands = absorbed(first, inner);
    let loose = left_over(first, inner);
    let flow = flow_atoms(nodes, n);
    let all = atoms_of(nodes);
    law_separating_keeps_what_is_covered(bands, y);
    if banded(bands, y) {
        let out = apart(by_top(bands), None);
        let k = choose|k: int| 0 <= k < out.len() && (#[trigger] out[k]).top <= y < out[k].bottom;
        assert(all[flow.len() + loose.len() + k] == out[k]);
    }
    if banded(loose, y) {
        let k = choose|k: int| 0 <= k < loose.len() && (#[trigger] loose[k]).top <= y < loose[k].bottom;
        assert(all[flow.len() + k] == loose[k]);
    }
}

proof fn lemma_cells_hold(nodes: Seq<Node>, i: int, n: int)
    requires
        0 <= i < n <= nodes.len(),
        !hidden(nodes, i),
        table_of(nodes, i) is Some,
        nodes[i].tag() == Some("td"@) || nodes[i].tag() == Some("th"@),
    ensures
        cells_to(nodes, n).contains(
            Cell {
                table: table_of(nodes, i)->0 as usize,
                top: abs_y(nodes, i) as i64,
                height: nodes[i].height,
            },
        ),
    decreases n,
{
    let c = Cell {
        table: table_of(nodes, i)->0 as usize,
        top: abs_y(nodes, i) as i64,
        height: nodes[i].height,
    };
    let all = cells_to(nodes, n);
    let before = cells_to(nodes, n - 1);
    if i < n - 1 {
        lemma_cells_hold(nodes, i, n - 1);
        let k = choose|k: int| 0 <= k < before.len() && before[k] == c;
        assert(all[k] == c);
    } else {
        assert(all[all.len() - 1] == c);
    }
}

proof fn lemma_all_cells_fit(dom: Dom)
    requires
        dom.wf(),
    ensures
        cells_fit(cells_to(dom.nodes@, dom.nodes@.len() as int)),
{
    let all = cells_to(dom.nodes@, dom.nodes@.len() as int);
    lemma_cells_fit(dom, dom.nodes@.len() as int);
    assert forall|a: int, b: int| 0 <= a < all.len() && 0 <= b < all.len() implies i64::MIN <= (#[trigger] all[a]).top
        + (#[trigger] all[b]).height <= i64::MAX by {
        assert(-0x1000_0000_0000_0000 <= all[a].top <= 0x1000_0000_0000_0000);
        assert(fits(all[b].height));
    }
}

/// What a table cell takes of the flow, to within a pixel, lies under what no break
/// may cut, whether it is a cell of the body or of the head.
pub proof fn law_table_cells_are_not_left_out(dom: Dom, i: int, y: int)
    requires
        dom.wf(),
        0 <= i < dom.nodes@.len(),
        dom.nodes@[i].tag() == Some("td"@) || dom.nodes@[i].tag() == Some("th"@),
        in_the_open(dom.nodes@, i),
        !off_tables(dom.nodes@, i),
        abs_y(dom.nodes@, i) <= y <= abs_y(dom.nodes@, i) + dom.nodes@[i].height - 1000,
    ensures
        banded(atoms_of(dom.nodes@), y),
{
    let nodes = dom.nodes@;
    let n = nodes.len() as int;
    lemma_open(dom, i);
    lemma_table_of(dom, i);
    lemma_abs(dom, i);
    lemma_cells_hold(nodes, i, n);
    lemma_all_cells_fit(dom);
    let cells = cells_to(nodes, n);
    let c = Cell {
        table: table_of(nodes, i)->0 as usize,
        top: abs_y(nodes, i) as i64,
        height: nodes[i].height,
    };
    let k = choose|k: int| 0 <= k < cells.len() && cells[k] == c;
    law_cells_that_start_level_are_one_row(cells, k, k);
    let first = rows(sorted(cells));
    let m = choose|m: int| 0 <= m < first.len() && over_cell(#[trigger] first[m], c);
    let inner = inner_atoms(nodes, n);
    crate::bands::lemma_absorbed(first, inner);
    let bands = absorbed(first, inner);
    assert(covers(bands[m], first[m]));
    assert(bands[m].top <= y < bands[m].bottom);
    assert(banded(bands, y));
    lemma_bands_are_kept(nodes, y);
}

/// A line of a table lies under what no break may cut, whatever row it belongs to,
/// and if it belongs to none.
pub proof fn law_lines_in_tables_are_not_left_out(dom: Dom, i: int, k: int, y: int)
    requires
        dom.wf(),
        0 <= i < dom.nodes@.len(),
        0 <= k < dom.nodes@[i].lines().len(),
        in_the_open(dom.nodes@, i),
        !off_tables(dom.nodes@, i),
        dom.nodes@[i].attr("data-atom"@) is None,
        ({
            let top = abs_y(dom.nodes@, i) + dom.nodes@[i].inset_y;
            top + dom.nodes@[i].lines()[k].top <= y < top + dom.nodes@[i].lines()[k].bottom
        }),
    ensures
        banded(atoms_of(dom.nodes@), y),
{
    let nodes = dom.nodes@;
    let n = nodes[i];
    let count = nodes.len() as int;
    lemma_abs(dom, i);
    lemma_open(dom, i);
    lemma_table_of(dom, i);
    assert(n.wf());
    assert(n.lines()[k].wf());
    let top = abs_y(nodes, i) + n.inset_y;
    let keep = crate::chapter::heading(n);
    lemma_line_atoms(n.lines(), top, i as usize, keep, k);
    let lines = line_atoms(n.lines(), top, i as usize, keep);
    let a = Atom {
        top: (top + n.lines()[k].top) as i64,
        bottom: (top + n.lines()[k].bottom) as i64,
        group: i as usize,
        kind: AtomKind::Line,
        keep_with_next: keep,
    };
    let own = own_atoms(nodes, i);
    let q = choose|q: int| 0 <= q < lines.len() && lines[q] == a;
    assert(own[own.len() - lines.len() + q] == a);
    lemma_flow_holds(nodes, i, count, a);
    let inner = inner_atoms(nodes, count);
    let first = rows(sorted(cells_to(nodes, count)));
    let m = choose|m: int| 0 <= m < inner.len() && inner[m] == a;
    law_absorbing_loses_nothing(first, inner, m);
    let bands = absorbed(first, inner);
    let loose = left_over(first, inner);
    if loose.contains(a) {
        let z = choose|z: int| 0 <= z < loose.len() && loose[z] == a;
        assert(loose[z].top <= y < loose[z].bottom);
        assert(banded(loose, y));
    } else {
        let z = choose|z: int| 0 <= z < first.len() && covers(#[trigger] bands[z], inner[m]);
        assert(bands[z].top <= y < bands[z].bottom);
        assert(banded(bands, y));
    }
    lemma_bands_are_kept(nodes, y);
}

/// A node stands as far below its parent's top as its own box says, and the root
/// where its box says.
pub proof fn law_nodes_stand_in_their_parents(dom: Dom, i: int)
    requires
        dom.wf(),
        0 <= i < dom.nodes@.len(),
    ensures
        match dom.nodes@[i].parent {
            Some(p) => {
                &&& abs_y(dom.nodes@, i) - abs_y(dom.nodes@, p as int) == dom.nodes@[i].y
                &&& abs_x(dom.nodes@, i) - abs_x(dom.nodes@, p as int) == dom.nodes@[i].x
            },
            None => abs_y(dom.nodes@, i) == dom.nodes@[i].y && abs_x(dom.nodes@, i)
                == dom.nodes@[i].x,
        },
{
    assert(placed(dom.nodes@, i));
}

/// The place that a page begins at is the first that is still to be seen of it: what
/// is found reaches below the page's top, and nothing that does starts above it.
pub proof fn law_a_page_begins_at_its_first_line(atoms: Seq<Atom>, y: int)
    ensures
        match first_below(atoms, y) {
            Some(a) => {
                &&& atoms.contains(a)
                &&& a.bottom > y
                &&& forall|k: int|
                    0 <= k < atoms.len() && (#[trigger] atoms[k]).bottom > y ==> a.top <= atoms[k].top
            },
            None => forall|k: int| 0 <= k < atoms.len() ==> (#[trigger] atoms[k]).bottom <= y,
        },
    decreases atoms.len(),
{
    if atoms.len() > 0 {
        let front = atoms.drop_last();
        law_a_page_begins_at_its_first_line(front, y);
        assert forall|k: int| 0 <= k < atoms.len() implies k < front.len() && front[k] == #[trigger] atoms[k]
            || atoms[k] == atoms.last() by {}
        if let Some(a) = first_below(front, y) {
            let k = choose|k: int| 0 <= k < front.len() && front[k] == a;
            assert(atoms[k] == a);
        }
        assert(atoms.contains(atoms[atoms.len() - 1]));
    }
}

/// The text of a node says some words, with or without the marks of where words
/// may break.
pub open spec fn speaks_of(n: Node, words: Seq<char>) -> bool {
    n.text() matches Some(t) && (holds(folded(t), words) || holds(folded(without_soft(t)), words))
}

/// A search lands on the first element that says the words.
pub proof fn law_a_search_lands_on_the_words(nodes: Seq<Node>, needle: Seq<char>, i: int)
    requires
        needle.len() > 0,
        0 <= i < nodes.len(),
        speaks_of(nodes[i], needle),
    ensures
        located(nodes, needle) matches Some(k) && 0 <= k <= i && speaks_of(nodes[k], needle),
{
    lemma_first_node(nodes, 0, |n: Node| says(n, needle), i);
}

/// Where no element says a phrase, a search lands on the first one that says its
/// longest word, if that is four characters or more.
pub proof fn law_a_phrase_is_found_by_its_longest_word(
    nodes: Seq<Node>,
    needle: Seq<char>,
    w: Seq<char>,
    i: int,
)
    requires
        forall|k: int| 0 <= k < nodes.len() ==> !speaks_of(#[trigger] nodes[k], needle),
        longest(words(needle)) == Some(w),
        needle.len() > 0,
        w.len() >= 4,
        0 <= i < nodes.len(),
        speaks_of(nodes[i], w),
    ensures
        located(nodes, needle) matches Some(k) && 0 <= k <= i && speaks_of(nodes[k], w),
{
    lemma_no_node(nodes, 0, |n: Node| says(n, needle));
    lemma_first_node(nodes, 0, |n: Node| says(n, w), i);
}

proof fn lemma_no_node(nodes: Seq<Node>, from: int, p: spec_fn(Node) -> bool)
    requires
        forall|k: int| 0 <= k < nodes.len() ==> !p(#[trigger] nodes[k]),
    ensures
        first_node(nodes, from, p) is None,
    decreases nodes.len() - from,
{
    if 0 <= from < nodes.len() {
        assert(!p(nodes[from]));
        lemma_no_node(nodes, from + 1, p);
    }
}

proof fn lemma_first_node(nodes: Seq<Node>, from: int, p: spec_fn(Node) -> bool, i: int)
    requires
        0 <= from <= i < nodes.len(),
        p(nodes[i]),
    ensures
        first_node(nodes, from, p) matches Some(k) && from <= k <= i && p(nodes[k]),
    decreases i - from,
{
    if !p(nodes[from]) {
        lemma_first_node(nodes, from + 1, p, i);
    }
}

/// The word that a search falls back to is one of those typed, and none is longer.
pub proof fn law_the_longest_word_is_sought(ws: Seq<Seq<char>>)
    requires
        ws.len() > 0,
    ensures
        longest(ws) matches Some(w) && ws.contains(w) && forall|k: int|
            0 <= k < ws.len() ==> (#[trigger] ws[k]).len() <= w.len(),
    decreases ws.len(),
{
    let front = ws.drop_last();
    assert(ws.contains(ws[ws.len() - 1]));
    if front.len() > 0 {
        law_the_longest_word_is_sought(front);
        let w = longest(front)->0;
        let k = choose|k: int| 0 <= k < front.len() && front[k] == w;
        assert(ws[k] == w);
    }
    assert forall|k: int| 0 <= k < ws.len() implies (#[trigger] ws[k]).len() <= longest(ws)->0.len() by {
        if k < front.len() {
            assert(front[k] == ws[k]);
        }
    }
}

/// Only a first page on which there is nothing to see is replaced, by the name of the
/// book; every other item is the book's own, without the publisher's styles and
/// hyphenated in its language.
pub proof fn law_only_an_empty_cover_is_replaced(
    raw: Seq<char>,
    index: int,
    title: Seq<char>,
    author: Seq<char>,
    lang: Option<Lang>,
)
    ensures
        ({
            let page = prepared(raw, index, title, author, lang);
            let seen = trimmed(prose(raw)).len() > 0 || holds(lowered(raw), "<img"@);
            &&& index != 0 || seen ==> page == match lang {
                Some(l) => marked_html(l, without_css(raw), 0),
                None => without_css(raw),
            }
            &&& index == 0 && !seen ==> page == title_markup(title, author)
        }),
{
}

/// The page that stands for an empty cover names the book, and its author where there
/// is one.
pub proof fn law_a_title_page_names_the_book(title: Seq<char>, author: Seq<char>)
    ensures
        holds(title_markup(title, author), escaped(title)),
        trimmed(author).len() > 0 ==> holds(title_markup(title, author), escaped(author)),
{
    let page = title_markup(title, author);
    let a = crate::markup::DOCTYPE@ + crate::chapter::TITLE_HEAD@;
    let t = escaped(title);
    let n = a.len() as int;
    assert(page.subrange(n, n + t.len()) =~= t);
    assert(crate::text::stands_at(page, t, n));
    if trimmed(author).len() > 0 {
        let w = escaped(author);
        let m = (a.len() + t.len() + "</div>\n  "@.len() + crate::chapter::TITLE_BY@.len()) as int;
        assert(page.subrange(m, m + w.len()) =~= w);
        assert(crate::text::stands_at(page, w, m));
    }
}

} // verus!
