//! What holds of a laid-out document and of the marks in it.
use crate::book::TocEntry;
use crate::cfi::{cfi_text, children_before, element_child, steps_to};
use crate::check::blank;
use crate::db::Hit;
use crate::dom::{
    abs_y, attr_in, found_by_attr, gives, inherited, line_below, nearest, placed, rect_at,
    text_under, within, Dom, LineBox, Node, Rect,
};
use crate::marks::{
    bookmarked, bookmarks, chapter_name, covering, entry_of_hit, entry_of_mark, highlights,
    is_bookmark_of, is_highlight_of, lists, mark_over, mark_places, opens_on, plural_text,
    says_same, tag_prefix, Mark,
};
use crate::order::{lemma_sorted, sorted, Ranked};
use crate::paint::Area;
use crate::readout::TocMode;
use crate::text::{bytes_len, decimal, text_in, trimmed};
use vstd::prelude::*;

verus! {

/// A flow is as high as its lowest box reaches: every box ends within it, and one of
/// them ends at its foot, if it has any height.
pub proof fn law_a_flow_ends_with_its_lowest_box(dom: Dom, n: int)
    requires
        0 <= n <= dom.nodes@.len(),
    ensures
        dom.flow_height(n) >= 0,
        forall|i: int|
            0 <= i < n ==> abs_y(dom.nodes@, i) + (#[trigger] dom.nodes@[i]).height <= dom.flow_height(n),
        dom.flow_height(n) > 0 ==> exists|i: int|
            0 <= i < n && abs_y(dom.nodes@, i) + (#[trigger] dom.nodes@[i]).height == dom.flow_height(n),
    decreases n,
{
    if n > 0 {
        law_a_flow_ends_with_its_lowest_box(dom, n - 1);
        let edge = abs_y(dom.nodes@, n - 1) + dom.nodes@[n - 1].height;
        if dom.flow_height(n) > 0 {
            if dom.flow_height(n) == edge {
                assert(abs_y(dom.nodes@, n - 1) + dom.nodes@[n - 1].height == dom.flow_height(n));
            } else {
                let i = choose|i: int|
                    0 <= i < n - 1 && abs_y(dom.nodes@, i) + (#[trigger] dom.nodes@[i]).height
                        == dom.flow_height(n - 1);
                assert(abs_y(dom.nodes@, i) + dom.nodes@[i].height == dom.flow_height(n));
            }
        }
    }
}

/// A document has text where one of its elements has, and as many lines as all of
/// them together.
pub proof fn law_text_and_lines_are_counted(dom: Dom, n: int)
    requires
        0 < n <= dom.nodes@.len(),
    ensures
        dom.chars_to(0) == 0,
        dom.lines_to(0) == 0,
        dom.chars_to(n) - dom.chars_to(n - 1) == match dom.nodes@[n - 1].text() {
            Some(t) => t.len() as int,
            None => 0,
        },
        dom.lines_to(n) - dom.lines_to(n - 1) == dom.nodes@[n - 1].lines().len(),
{
}

/// What a node is asked for, the nearest node above it answers that can; the node
/// itself first.
pub proof fn law_attributes_are_inherited(dom: Dom, i: int, name: Seq<char>)
    requires
        dom.wf(),
        0 <= i < dom.nodes@.len(),
    ensures
        dom.nodes@[i].attr(name) is Some ==> inherited(dom.nodes@, i, name) == dom.nodes@[i].attr(name),
        dom.nodes@[i].attr(name) is None ==> inherited(dom.nodes@, i, name) == match dom.nodes@[i].parent {
            Some(p) => inherited(dom.nodes@, p as int, name),
            None => None,
        },
{
    assert(placed(dom.nodes@, i));
}

/// The text below a node holds the text of nothing else: a node before it and a node
/// that does not stand below it add nothing, and one that does adds its text without
/// the white space around it.
pub proof fn law_text_is_gathered_below_a_node(nodes: Seq<Node>, top: int, n: int)
    requires
        0 < n <= nodes.len(),
    ensures
        ({
            let before = text_under(nodes, top, n - 1);
            let after = text_under(nodes, top, n);
            &&& !within(nodes, n - 1, top) || nodes[n - 1].text() is None ==> after == before
            &&& within(nodes, n - 1, top) && before.len() == 0 ==> (nodes[n - 1].text() matches Some(t)
                ==> after == trimmed(t))
            &&& within(nodes, n - 1, top) && before.len() > 0 ==> (nodes[n - 1].text() matches Some(t)
                ==> after == before + seq![' '] + trimmed(t))
        }),
{
    let before = text_under(nodes, top, n - 1);
    if let Some(t) = nodes[n - 1].text() {
        assert(before.push(' ') + trimmed(t) =~= before + seq![' '] + trimmed(t));
        if before.len() == 0 {
            assert(before + trimmed(t) =~= trimmed(t));
        }
    }
}

/// The line at a height is the first that reaches below it.
pub proof fn law_the_first_line_below_is_found(lines: Seq<LineBox>, y: int, k: int)
    requires
        0 <= k < lines.len(),
        lines[k].bottom > y,
        forall|j: int| 0 <= j < k ==> (#[trigger] lines[j]).bottom <= y,
    ensures
        line_below(lines, y) == Some(lines[k]),
    decreases lines.len(),
{
    if k > 0 {
        assert(lines[0].bottom <= y);
        let rest = lines.drop_first();
        assert(rest[k - 1] == lines[k]);
        assert forall|j: int| 0 <= j < k - 1 implies (#[trigger] rest[j]).bottom <= y by {
            assert(lines[j + 1].bottom <= y);
        }
        law_the_first_line_below_is_found(rest, y, k - 1);
    }
}

/// The entry that covers a place in the book is the last one at or before it.
pub proof fn law_the_last_entry_before_covers(toc: Seq<TocEntry>, spine: usize)
    ensures
        match covering(toc, spine) {
            Some(i) => {
                &&& 0 <= i < toc.len()
                &&& toc[i].spine <= spine
                &&& forall|k: int| i < k < toc.len() ==> (#[trigger] toc[k]).spine > spine
                &&& chapter_name(toc, spine) == toc[i].label@
            },
            None => forall|k: int| 0 <= k < toc.len() ==> (#[trigger] toc[k]).spine > spine,
        },
    decreases toc.len(),
{
    if toc.len() > 0 && toc.last().spine > spine {
        let front = toc.drop_last();
        law_the_last_entry_before_covers(front, spine);
        assert forall|k: int| 0 <= k < toc.len() implies k < front.len() && front[k] == #[trigger] toc[k] || toc[k]
            == toc.last() by {}
    }
}

/// A press finds the first mark that is painted under it, and only such a mark.
pub proof fn law_a_press_finds_the_mark_under_it(
    painted: Seq<(i64, Vec<Area>)>,
    x: int,
    y: int,
    i: int,
    k: int,
)
    requires
        0 <= i < painted.len(),
        0 <= k < painted[i].1@.len(),
        ({
            let a = painted[i].1@[k];
            a.x0 <= x <= a.x1 && a.y0 <= y <= a.y1
        }),
        forall|j: int, m: int|
            0 <= j < i && 0 <= m < painted[j].1@.len() ==> {
                let a = #[trigger] painted[j].1@[m];
                !(a.x0 <= x <= a.x1 && a.y0 <= y <= a.y1)
            },
    ensures
        mark_over(painted, x, y, 0) == Some(painted[i].0),
{
    lemma_mark_over(painted, x, y, i, k, 0);
}

proof fn lemma_mark_over(
    painted: Seq<(i64, Vec<Area>)>,
    x: int,
    y: int,
    i: int,
    k: int,
    from: int,
)
    requires
        0 <= from <= i < painted.len(),
        0 <= k < painted[i].1@.len(),
        painted[i].1@[k].has(x, y),
        forall|j: int, m: int|
            0 <= j < i && 0 <= m < painted[j].1@.len() ==> {
                let a = #[trigger] painted[j].1@[m];
                !(a.x0 <= x <= a.x1 && a.y0 <= y <= a.y1)
            },
    ensures
        mark_over(painted, x, y, from) == Some(painted[i].0),
    decreases i - from,
{
    if from < i {
        lemma_mark_over(painted, x, y, i, k, from + 1);
    }
}

/// Marks are read in the order of the book: by the item they are in, then by the
/// character they start at.
pub proof fn law_marks_are_read_in_order(marks: Seq<Mark>, i: int, j: int)
    requires
        0 <= i < j < sorted(mark_places(marks)).len(),
    ensures
        ({
            let a = sorted(mark_places(marks))[i];
            let b = sorted(mark_places(marks))[j];
            a.spine < b.spine || a.spine == b.spine && a.start <= b.start
        }),
        sorted(mark_places(marks)).len() == marks.len(),
{
    lemma_sorted(mark_places(marks));
    let all = sorted(mark_places(marks));
    assert(!crate::order::rank_lt(all[j].rank(), all[i].rank()));
}

/// What a list says of a mark: what it is, and its words, its note or both, else the
/// chapter it is in.
pub proof fn law_marks_say_what_they_are(m: Mark)
    ensures
        m.length == 0 ==> m.label() == "Bookmark"@ + " · "@ + m.body(),
        m.length > 0 ==> m.label() == "Highlight"@ + " · "@ + m.body(),
        m.text@.len() == 0 && m.note@.len() == 0 ==> m.body() == "chapter "@ + decimal(
            (m.spine() + 1) as nat,
        ),
        m.text@.len() > 0 && m.note@.len() == 0 ==> m.body() == m.text@,
        m.text@.len() == 0 && m.note@.len() > 0 ==> m.body() == m.note@,
        m.text@.len() > 0 && m.note@.len() > 0 ==> m.body() == m.text@ + " — "@ + m.note@,
        plural_text(1) == ""@,
        forall|n: nat| n != 1 ==> #[trigger] plural_text(n) == "s"@,
{
}

/// A query behind a hash asks for a tag, and any other for words; while a tag is being
/// typed it is that tag.
pub proof fn law_a_hash_asks_for_a_tag(tag: Seq<char>, typed: &str, query: Seq<char>)
    requires
        tag.len() > 0,
        !crate::text::white(tag.last()),
        trimmed(query).len() == 0 || trimmed(query)[0] != '#',
    ensures
        tag_prefix(None, seq!['#'] + tag) == Some(tag),
        tag_prefix(None, query) is None,
        tag_prefix(Some(typed), query) == Some(typed@),
{
    let s = seq!['#'] + tag;
    assert(s.last() == tag.last());
    crate::text::lemma_trim_kept(s);
    assert(s.drop_first() =~= tag);
}

/// Elements are counted by twos among the elements of their parent: the first is two,
/// and each the next even number after the one before it.
pub proof fn law_elements_are_counted_by_twos(dom: Dom, p: int, i: int, j: int)
    requires
        dom.wf(),
        0 <= p < i < j < dom.nodes@.len(),
        element_child(dom.nodes@, p, i),
        element_child(dom.nodes@, p, j),
        forall|k: int| i < k < j ==> !#[trigger] element_child(dom.nodes@, p, k),
        steps_to(dom.nodes@, p) is Some,
    ensures
        ({
            let a = steps_to(dom.nodes@, i)->0;
            let b = steps_to(dom.nodes@, j)->0;
            &&& steps_to(dom.nodes@, i) is Some && steps_to(dom.nodes@, j) is Some
            &&& a.drop_last() == steps_to(dom.nodes@, p)->0
            &&& b.drop_last() == a.drop_last()
            &&& b.last() == a.last() + 2
            &&& (forall|k: int| 0 <= k < i ==> !#[trigger] element_child(dom.nodes@, p, k)) ==> a.last() == 2
        }),
{
    let nodes = dom.nodes@;
    lemma_no_children(nodes, p, i + 1, j);
    lemma_few_children(nodes, p, i);
    lemma_few_children(nodes, p, j);
    let front = steps_to(nodes, p)->0;
    assert(front.push(((children_before(nodes, p, i) + 1) * 2) as usize).drop_last() =~= front);
    assert(front.push(((children_before(nodes, p, j) + 1) * 2) as usize).drop_last() =~= front);
    if forall|k: int| 0 <= k < i ==> !#[trigger] element_child(nodes, p, k) {
        lemma_no_children(nodes, p, 0, i);
    }
}

proof fn lemma_no_children(nodes: Seq<Node>, p: int, lo: int, hi: int)
    requires
        0 <= lo <= hi,
        forall|k: int| lo <= k < hi ==> !#[trigger] element_child(nodes, p, k),
    ensures
        children_before(nodes, p, hi) == children_before(nodes, p, lo),
    decreases hi - lo,
{
    if lo < hi {
        lemma_no_children(nodes, p, lo, hi - 1);
        assert(!element_child(nodes, p, hi - 1));
    }
}

proof fn lemma_few_children(nodes: Seq<Node>, p: int, n: int)
    requires
        0 <= n,
    ensures
        children_before(nodes, p, n) <= n,
    decreases n,
{
    if n > 0 {
        lemma_few_children(nodes, p, n - 1);
    }
}

/// A position is written as the item of the spine, by twos, the steps to the element
/// and the character, if it names one.
pub proof fn law_positions_are_written_this_way(spine: nat, steps: Seq<usize>, step: usize, at: usize)
    ensures
        ({
            let head = "epubcfi(/6/"@ + decimal(2 * spine + 2) + "!"@;
            let none = Seq::<usize>::empty();
            &&& cfi_text(spine, none, None) == head + ")"@
            &&& cfi_text(spine, steps.push(step), None) == cfi_text(spine, steps, None).drop_last() + "/"@
                + decimal(step as nat) + ")"@
            &&& cfi_text(spine, steps, Some(at)) == cfi_text(spine, steps, None).drop_last() + ":"@ + decimal(
                at as nat,
            ) + ")"@
        }),
{
    reveal_strlit(")");
    let head = "epubcfi(/6/"@ + decimal(2 * spine + 2) + "!"@;
    let none = Seq::<usize>::empty();
    let blank = Seq::<char>::empty();
    assert(crate::cfi::steps_text(none) =~= blank);
    assert(cfi_text(spine, none, None) =~= head + ")"@);
    let text = crate::cfi::steps_text(steps);
    lemma_steps_push(steps, step);
    assert(cfi_text(spine, steps, None).drop_last() =~= head + text);
    assert(cfi_text(spine, steps.push(step), None) =~= head + text + "/"@ + decimal(step as nat) + ")"@);
    assert(cfi_text(spine, steps, Some(at)) =~= head + text + ":"@ + decimal(at as nat) + ")"@);
}

proof fn lemma_steps_push(steps: Seq<usize>, step: usize)
    ensures
        crate::cfi::steps_text(steps.push(step)) == crate::cfi::steps_text(steps) + "/"@ + decimal(
            step as nat,
        ),
    decreases steps.len(),
{
    let all = steps.push(step);
    let none = Seq::<char>::empty();
    if steps.len() == 0 {
        assert(all.drop_first() =~= steps);
        assert(crate::cfi::steps_text(steps) =~= none);
        assert("/"@ + decimal(step as nat) + none =~= none + "/"@ + decimal(step as nat));
    } else {
        let rest = steps.drop_first();
        lemma_steps_push(rest, step);
        assert(all.drop_first() =~= rest.push(step));
        let first = "/"@ + decimal(steps[0] as nat);
        assert(first + (crate::cfi::steps_text(rest) + "/"@ + decimal(step as nat)) =~= first
            + crate::cfi::steps_text(rest) + "/"@ + decimal(step as nat));
    }
}

/// The contents open on the last entry at or before where the reader is, else on the
/// first.
pub proof fn law_the_contents_open_where_the_reader_is(toc: Seq<TocEntry>, index: usize, i: int)
    requires
        0 <= i < toc.len(),
        toc[i].spine <= index || i == 0,
        forall|k: int| i < k < toc.len() ==> (#[trigger] toc[k]).spine > index,
    ensures
        opens_on(toc, index) == i,
{
    law_the_last_entry_before_covers(toc, index);
    if let Some(k) = covering(toc, index) {
        if k < i {
            assert(toc[i].spine > index);
            assert(toc[0].spine > index);
        } else if k > i {
            assert(toc[k].spine > index);
        }
    }
}

/// A list shows what it is a list of, in order: the contents as they are, the marks by
/// their positions, the hits by what was sought and where it was found.
pub proof fn law_a_list_shows_everything(
    toc: Seq<TocEntry>,
    marks: Seq<Mark>,
    hits: Seq<Hit>,
    find: Seq<char>,
    r: Seq<TocEntry>,
    i: int,
)
    requires
        0 <= i,
    ensures
        lists(TocMode::Contents, toc, marks, hits, find, r) ==> r.len() == toc.len() && (i < toc.len()
            ==> r[i].label@ == toc[i].label@ && r[i].depth == toc[i].depth && r[i].spine
            == toc[i].spine && text_in(r[i].fragment) == text_in(toc[i].fragment) && text_in(r[i].cfi)
            == text_in(toc[i].cfi) && text_in(r[i].find) == text_in(toc[i].find)),
        lists(TocMode::Marks, toc, marks, hits, find, r) ==> r.len() == marks.len() && (i < marks.len()
            ==> r[i].label@ == marks[i].label() && text_in(r[i].cfi) == Some(marks[i].cfi@)
            && r[i].find is None && r[i].fragment is None),
        lists(TocMode::Search, toc, marks, hits, find, r) ==> r.len() == hits.len() && (i < hits.len()
            ==> r[i].spine == hits[i].spine && text_in(r[i].find) == Some(find) && r[i].cfi is None
            && r[i].fragment is None),
{
    if lists(TocMode::Contents, toc, marks, hits, find, r) && i < toc.len() {
        assert(says_same(r[i], toc[i]));
    }
    if lists(TocMode::Marks, toc, marks, hits, find, r) && i < marks.len() {
        assert(entry_of_mark(r[i], marks[i]));
    }
    if lists(TocMode::Search, toc, marks, hits, find, r) && i < hits.len() {
        assert(entry_of_hit(r[i], toc, hits[i], find));
    }
}

/// A page that is bookmarked is found to be, by a mark of no length at its position; a
/// highlight there does not count, and neither does a bookmark elsewhere.
pub proof fn law_a_bookmark_is_found_again(
    dom: Dom,
    tops: Seq<i64>,
    page: int,
    index: nat,
    m: Mark,
    marks: Seq<Mark>,
    r: Option<i64>,
    k: int,
)
    requires
        is_bookmark_of(dom, tops, page, index, Some(m)),
        bookmarked(marks, m.cfi@, r),
    ensures
        0 <= k < marks.len() && marks[k].cfi@ == m.cfi@ && marks[k].length == m.length ==> r is Some,
        r matches Some(id) ==> exists|i: int|
            0 <= i < marks.len() && (#[trigger] marks[i]).id == id && marks[i].cfi@ == m.cfi@
                && marks[i].length == 0,
        (forall|i: int|
            0 <= i < marks.len() ==> (#[trigger] marks[i]).cfi@ != m.cfi@ || marks[i].length > 0)
            ==> r is None,
{
    if 0 <= k < marks.len() && marks[k].cfi@ == m.cfi@ && marks[k].length == m.length {
        assert(bookmarks(marks[k], m.cfi@));
    }
    if let Some(id) = r {
        let i = choose|i: int|
            0 <= i < marks.len() && #[trigger] bookmarks(marks[i], m.cfi@) && marks[i].id == id;
        assert(marks[i].id == id);
    }
}

/// A highlight holds the text that was selected, at the character it begins with: as
/// many bytes as were selected, behind as many as stood before them.
pub proof fn law_a_highlight_holds_the_selection(
    dom: Dom,
    node: int,
    from: int,
    to: int,
    index: nat,
    m: Mark,
    t: Seq<char>,
)
    requires
        is_highlight_of(dom, node, from, to, index, Some(m)),
        dom.nodes@[node].text() == Some(t),
    ensures
        m.text@.len() == m.length,
        exists|start: usize|
            {
                &&& m.cfi@ == cfi_text(index, steps_to(dom.nodes@, node)->0, Some(start))
                &&& start + m.length <= t.len()
                &&& bytes_len(#[trigger] t.take(start as int)) == from
                &&& bytes_len(t.take(start as int) + m.text@) == to
                &&& t == t.take(start as int) + m.text@ + t.skip(start + m.length)
            },
{
    let start = choose|start: usize|
        #[trigger] highlights(m, t, start, from, to) && m.cfi@ == cfi_text(
            index,
            steps_to(dom.nodes@, node)->0,
            Some(start),
        );
    assert(t.take(start as int) + m.text@ =~= t.take(start + m.length));
    assert(t =~= t.take(start as int) + m.text@ + t.skip(start + m.length));
}

/// A document is blank if it has no text and no more than a sliver of height, and only
/// then.
pub proof fn law_a_blank_document_shows_nothing(dom: Dom, i: int)
    requires
        0 <= i < dom.nodes@.len(),
    ensures
        blank(dom) ==> dom.chars_to(dom.nodes@.len() as int) == 0,
        blank(dom) ==> abs_y(dom.nodes@, i) + dom.nodes@[i].height < 1000,
        dom.chars_to(dom.nodes@.len() as int) == 0 && (forall|k: int|
            0 <= k < dom.nodes@.len() ==> abs_y(dom.nodes@, k) + (#[trigger] dom.nodes@[k]).height
                < 1000) ==> blank(dom),
{
    law_a_flow_ends_with_its_lowest_box(dom, dom.nodes@.len() as int);
}

/// An attribute is the first of its name; one that is not there has no value.
pub proof fn law_attributes_are_found_by_name(attrs: Seq<(String, String)>, i: int, name: Seq<char>)
    requires
        0 <= i <= attrs.len(),
        forall|k: int| 0 <= k < i ==> (#[trigger] attrs[k]).0@ != name,
    ensures
        i < attrs.len() && attrs[i].0@ == name ==> attr_in(attrs, name) == Some(attrs[i].1@),
        i == attrs.len() ==> attr_in(attrs, name) is None,
    decreases attrs.len(),
{
    if i > 0 {
        let rest = attrs.drop_first();
        assert(attrs[0].0@ != name);
        assert forall|k: int| 0 <= k < i - 1 implies (#[trigger] rest[k]).0@ != name by {
            assert(rest[k] == attrs[k + 1]);
        }
        law_attributes_are_found_by_name(rest, i - 1, name);
    }
}

/// A box stands in the one that holds it where its element is put, and has the
/// element's size.
pub proof fn law_boxes_stand_where_their_elements_are_put(dom: Dom, i: int, p: int, r: Rect, q: Rect)
    requires
        dom.wf(),
        0 <= i < dom.nodes@.len(),
        dom.nodes@[i].parent == Some(p as usize),
        0 <= p <= usize::MAX,
        rect_at(dom.nodes@, i, r),
        rect_at(dom.nodes@, p, q),
    ensures
        r.x - q.x == dom.nodes@[i].x,
        r.y - q.y == dom.nodes@[i].y,
        r.width == dom.nodes@[i].width && r.height == dom.nodes@[i].height,
{
    crate::chapter_laws::law_nodes_stand_in_their_parents(dom, i);
}

/// An element is sought below another by an attribute: what is found is below it, has
/// the attribute, and is the first to have it.
pub proof fn law_elements_are_sought_below_another(
    nodes: Seq<Node>,
    top: int,
    name: Seq<char>,
    value: Seq<char>,
    from: int,
)
    requires
        0 <= from,
    ensures
        match found_by_attr(nodes, top, name, value, from) {
            Some(i) => {
                &&& from <= i < nodes.len()
                &&& within(nodes, i, top) && gives(nodes[i], name, value)
                &&& forall|k: int|
                    from <= k < i ==> !(within(nodes, k, top) && gives(#[trigger] nodes[k], name, value))
            },
            None => forall|k: int|
                from <= k < nodes.len() ==> !(within(nodes, k, top) && gives(
                    #[trigger] nodes[k],
                    name,
                    value,
                )),
        },
    decreases nodes.len() - from,
{
    if from < nodes.len() && !(within(nodes, from, top) && gives(nodes[from], name, value)) {
        law_elements_are_sought_below_another(nodes, top, name, value, from + 1);
    }
}

} // verus!
