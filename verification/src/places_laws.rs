//! Where entries, links and positions lead, whatever the book.
use crate::book::TocEntry;
use crate::cfi::{
    cfi_text, law_a_nodes_cfi_leads_back_to_it, law_cfi_round_trips_through_text, parsed, reached,
    steps_to,
};
use crate::chapter::{atoms_of, first_below};
use crate::chapter_laws::speaks_of;
use crate::db::Hit;
use crate::dom::{abs_y, found_by_attr, gives, placed, text_under, within, Dom};
use crate::grid::last_spot;
use crate::marks::{chapter_name, entry_of_hit, entry_of_mark, Mark};
use crate::paginate::law_page_containing_maps_offsets_back;
use crate::places::{
    contents_of, entry_of, entry_page_at, item_path, joined_path, link_target, live, nav_item,
    note_in, noted, outside, page_node, page_steps, parts, resumed, spine_entry, spine_named,
    starts_line, NavPoint,
};
use crate::screen::index_page;
use crate::search::folded;
use crate::text::{
    bytes_len, decimal, holds, lemma_no_spot, lemma_spot_is, lowered, stands_at, text_in, trimmed,
};
use vstd::prelude::*;

verus! {

/// Pages that start one below the other.
pub open spec fn descending(tops: Seq<i64>) -> bool {
    forall|i: int, j: int| 0 <= i < j < tops.len() ==> tops[i] < tops[j]
}

/// The offset `y` is on the page `page`: at its top or below, and above the next.
pub open spec fn on_page(tops: Seq<i64>, page: int, y: int) -> bool {
    &&& 0 <= page < tops.len()
    &&& tops[page] <= y
    &&& page + 1 < tops.len() ==> y < tops[page + 1]
}

/// An entry with a position opens the page that the element is on to which the
/// position leads, whatever page its chapter opened on.
pub proof fn law_a_stored_position_opens_its_page(
    dom: Dom,
    tops: Seq<i64>,
    e: TocEntry,
    opened: int,
    node: int,
    page: int,
)
    requires
        descending(tops),
        e.find is None,
        e.fragment is None,
        e.cfi matches Some(raw) && (parsed(raw@) matches Some(c) && reached(dom.nodes@, c.1) == Some(
            node,
        )),
        on_page(tops, page, abs_y(dom.nodes@, node)),
    ensures
        entry_page_at(dom, tops, e, opened) == page,
{
    law_page_containing_maps_offsets_back(tops, page, abs_y(dom.nodes@, node));
}

/// The list entry of a mark opens the page that the marked element starts on, in
/// the chapter it was marked in, and whether a span of it is marked or none.
pub proof fn law_a_mark_opens_its_element(
    dom: Dom,
    tops: Seq<i64>,
    m: Mark,
    e: TocEntry,
    index: usize,
    node: int,
    offset: Option<usize>,
    opened: int,
    page: int,
)
    requires
        dom.wf(),
        descending(tops),
        (index + 1) * 2 <= usize::MAX,
        steps_to(dom.nodes@, node) matches Some(steps) && steps.len() > 0 && m.cfi@ == cfi_text(
            index as nat,
            steps,
            offset,
        ),
        entry_of_mark(e, m),
        on_page(tops, page, abs_y(dom.nodes@, node)),
    ensures
        e.spine == index,
        entry_page_at(dom, tops, e, opened) == page,
{
    let steps = steps_to(dom.nodes@, node)->0;
    law_cfi_round_trips_through_text(index, steps, offset);
    law_a_nodes_cfi_leads_back_to_it(dom, node);
    law_a_stored_position_opens_its_page(dom, tops, e, opened, node, page);
}

/// A bookmark opens the page that the element starts on at which the bookmarked
/// page begins.
pub proof fn law_a_bookmark_opens_its_page(
    dom: Dom,
    tops: Seq<i64>,
    marked: int,
    m: Mark,
    e: TocEntry,
    index: usize,
    opened: int,
    page: int,
)
    requires
        dom.wf(),
        descending(tops),
        (index + 1) * 2 <= usize::MAX,
        page_steps(dom, tops, marked) matches Some(steps) && m.cfi@ == cfi_text(
            index as nat,
            steps,
            None,
        ),
        entry_of_mark(e, m),
        page_node(dom, tops, marked) matches Some(node) && on_page(
            tops,
            page,
            abs_y(dom.nodes@, node as int),
        ),
    ensures
        e.spine == index,
        entry_page_at(dom, tops, e, opened) == page,
{
    let node = page_node(dom, tops, marked)->0;
    law_a_mark_opens_its_element(dom, tops, m, e, index, node as int, None, opened, page);
}

proof fn lemma_in_the_document(dom: Dom, i: int)
    requires
        dom.wf(),
        0 <= i < dom.nodes@.len(),
    ensures
        within(dom.nodes@, i, 0),
    decreases i,
{
    assert(placed(dom.nodes@, i));
    if i > 0 {
        lemma_in_the_document(dom, dom.nodes@[i].parent->0 as int);
    }
}

pub proof fn lemma_found(dom: Dom, name: Seq<char>, value: Seq<char>, i: int, from: int)
    requires
        dom.wf(),
        0 <= from <= i < dom.nodes@.len(),
        gives(dom.nodes@[i], name, value),
        forall|k: int| 0 <= k < i ==> !gives(#[trigger] dom.nodes@[k], name, value),
    ensures
        found_by_attr(dom.nodes@, 0, name, value, from) == Some(i),
    decreases i - from,
{
    lemma_in_the_document(dom, from);
    if from < i {
        assert(!gives(dom.nodes@[from], name, value));
        lemma_found(dom, name, value, i, from + 1);
    }
}

/// An entry with a fragment opens the page that the first element of that id is on.
pub proof fn law_a_fragment_opens_its_page(
    dom: Dom,
    tops: Seq<i64>,
    e: TocEntry,
    opened: int,
    node: int,
    page: int,
)
    requires
        dom.wf(),
        descending(tops),
        e.fragment matches Some(f) && 0 <= node < dom.nodes@.len() && gives(
            dom.nodes@[node],
            "id"@,
            f@,
        ) && forall|k: int| 0 <= k < node ==> !gives(#[trigger] dom.nodes@[k], "id"@, f@),
        on_page(tops, page, abs_y(dom.nodes@, node)),
    ensures
        entry_page_at(dom, tops, e, opened) == page,
{
    let f = e.fragment->0@;
    lemma_found(dom, "id"@, f, node, 0);
    law_page_containing_maps_offsets_back(tops, page, abs_y(dom.nodes@, node));
}

/// A search hit opens the page of the first element that says what was sought, in
/// any case and with or without accents.
pub proof fn law_a_hit_opens_its_page(
    dom: Dom,
    tops: Seq<i64>,
    e: TocEntry,
    opened: int,
    node: int,
    page: int,
)
    requires
        descending(tops),
        e.fragment is None,
        e.find matches Some(needle) && {
            let sought = trimmed(folded(needle@));
            &&& sought.len() > 0
            &&& 0 <= node < dom.nodes@.len()
            &&& speaks_of(dom.nodes@[node], sought)
            &&& forall|k: int| 0 <= k < node ==> !speaks_of(#[trigger] dom.nodes@[k], sought)
        },
        on_page(tops, page, abs_y(dom.nodes@, node)),
    ensures
        entry_page_at(dom, tops, e, opened) == page,
{
    let sought = trimmed(folded(e.find->0@));
    crate::chapter_laws::law_a_search_lands_on_the_words(dom.nodes@, sought, node);
    law_page_containing_maps_offsets_back(tops, page, abs_y(dom.nodes@, node));
}

/// An entry that only names a chapter opens the page that the chapter opened on.
pub proof fn law_a_chapter_opens_where_it_opened(dom: Dom, tops: Seq<i64>, e: TocEntry, opened: int)
    requires
        e.cfi is None,
        e.find is None,
        e.fragment is None,
    ensures
        entry_page_at(dom, tops, e, opened) == opened,
{
}

/// A saved position opens the page of its element where it names no character, that
/// of its character where it does; one of another chapter opens nothing here.
pub proof fn law_a_saved_position_opens_its_element(
    dom: Dom,
    tops: Seq<i64>,
    node: int,
    index: int,
    other: int,
    page: int,
    y: i64,
    below: int,
)
    requires
        dom.wf(),
        descending(tops),
        steps_to(dom.nodes@, node) is Some,
        on_page(tops, page, abs_y(dom.nodes@, node)),
        on_page(tops, below, y as int),
        other != index,
    ensures
        ({
            let steps = steps_to(dom.nodes@, node)->0;
            &&& resumed(dom, tops, index, steps, index, None) == Some(page)
            &&& resumed(dom, tops, index, steps, index, Some(y)) == Some(below)
            &&& resumed(dom, tops, other, steps, index, Some(y)) is None
            &&& resumed(dom, tops, other, steps, index, None) is None
        }),
{
    law_a_nodes_cfi_leads_back_to_it(dom, node);
    law_page_containing_maps_offsets_back(tops, page, abs_y(dom.nodes@, node));
    law_page_containing_maps_offsets_back(tops, below, y as int);
}

/// A link leads out of the book if it names another scheme or writes a letter, and
/// never otherwise.
pub proof fn law_links_out_name_a_scheme(a: Seq<char>, b: Seq<char>)
    ensures
        outside(a + "://"@ + b),
        outside("mailto:"@ + b),
        !holds(a, "://"@) && (a.len() < 7 || a.take(7) != "mailto:"@) ==> !outside(a),
{
    reveal_strlit("://");
    reveal_strlit("mailto:");
    let s = a + "://"@ + b;
    assert(s.subrange(a.len() as int, a.len() as int + 3) =~= "://"@);
    assert(stands_at(s, "://"@, a.len() as int));
    let letter = "mailto:"@ + b;
    assert(letter.subrange(0, 7) =~= "mailto:"@);
    if a.len() >= 7 {
        assert(a.subrange(0, 7) =~= a.take(7));
    }
}

/// What stands before a link's first hash is its path, and what stands behind it its
/// fragment.
pub proof fn law_a_link_is_a_path_and_a_fragment(path: Seq<char>, fragment: Seq<char>)
    requires
        forall|i: int| 0 <= i < path.len() ==> (#[trigger] path[i]) != '#',
    ensures
        parts(path + seq!['#'] + fragment) == (path, Some(fragment)),
        parts(path) == (path, None::<Seq<char>>),
{
    let s = path + seq!['#'] + fragment;
    assert forall|j: int| 0 <= j < path.len() implies s[j] != '#' by {
        assert(s[j] == path[j]);
    }
    lemma_spot_is(s, '#', path.len() as int);
    assert(s.take(path.len() as int) =~= path);
    assert(s.skip(path.len() as int + 1) =~= fragment);
    lemma_no_spot(path, '#');
}

pub proof fn lemma_last_spot_is(dir: Seq<char>, file: Seq<char>)
    requires
        forall|i: int| 0 <= i < file.len() ==> (#[trigger] file[i]) != '/',
    ensures
        last_spot(dir + seq!['/'] + file, '/') == Some(dir.len() as int),
    decreases file.len(),
{
    let s = dir + seq!['/'] + file;
    if file.len() == 0 {
        assert(s.last() == '/');
        assert(s.len() - 1 == dir.len());
    } else {
        let front = file.drop_last();
        assert forall|i: int| 0 <= i < front.len() implies (#[trigger] front[i]) != '/' by {
            assert(file[i] != '/');
        }
        assert(file[file.len() - 1] != '/');
        lemma_last_spot_is(dir, front);
        assert(s.drop_last() =~= dir + seq!['/'] + front);
        assert(s.last() == file.last());
    }
}

/// A link's path is read in the directory of the item it is found in.
pub proof fn law_links_are_relative_to_their_item(dir: Seq<char>, file: Seq<char>, path: Seq<char>)
    requires
        forall|i: int| 0 <= i < file.len() ==> (#[trigger] file[i]) != '/',
    ensures
        joined_path(dir + seq!['/'] + file, path) == dir + seq!['/'] + path,
{
    reveal_strlit("/");
    lemma_last_spot_is(dir, file);
    let here = dir + seq!['/'] + file;
    assert(here.take(dir.len() as int) =~= dir);
    assert("/"@ =~= seq!['/']);
}

proof fn lemma_named(spine: Seq<String>, target: Seq<char>, i: int, from: int)
    requires
        0 <= from <= i < spine.len(),
        item_path(spine[i]@) == Some(target),
        forall|k: int| 0 <= k < i ==> item_path((#[trigger] spine[k])@) != Some(target),
    ensures
        spine_named(spine, target, from) == Some(i),
    decreases i - from,
{
    if from < i {
        assert(item_path(spine[from]@) != Some(target));
        lemma_named(spine, target, i, from + 1);
    }
}

/// A link leads to the first item of the spine that its path names, read from the
/// item it is found in, and to its fragment there; a link without a path stays.
pub proof fn law_links_lead_to_the_item_they_name(
    spine: Seq<String>,
    index: int,
    path: Seq<char>,
    fragment: Seq<char>,
    target: Seq<char>,
    i: int,
)
    requires
        0 <= index < spine.len(),
        0 <= i < spine.len(),
        path.len() > 0,
        forall|k: int| 0 <= k < path.len() ==> (#[trigger] path[k]) != '#',
        item_path(joined_path(spine[index]@, path)) == Some(target),
        item_path(spine[i]@) == Some(target),
        forall|k: int| 0 <= k < i ==> item_path((#[trigger] spine[k])@) != Some(target),
    ensures
        link_target(spine, index, path + seq!['#'] + fragment) == Some((i, Some(fragment))),
        link_target(spine, index, path) == Some((i, None::<Seq<char>>)),
        link_target(spine, index, seq!['#'] + fragment) == Some((index, Some(fragment))),
{
    law_a_link_is_a_path_and_a_fragment(path, fragment);
    let none = Seq::<char>::empty();
    law_a_link_is_a_path_and_a_fragment(none, fragment);
    assert(none + seq!['#'] + fragment =~= seq!['#'] + fragment);
    lemma_named(spine, target, i, 0);
}

/// A note is a paragraph, an item, an aside, a block, a run or a cell of no more than
/// seven hundred characters that says something; anything else is a place to go to.
pub proof fn law_notes_are_short_blocks(tag: Seq<char>, text: Seq<char>)
    ensures
        noted(tag, text) <==> (tag == "p"@ || tag == "li"@ || tag == "aside"@ || tag == "div"@ || tag
            == "span"@ || tag == "td"@) && trimmed(text).len() > 0 && text.len() <= 700,
{
}

/// A link to an element that is a short block of text says what the element says;
/// one to an element of another kind, or to none, says nothing.
pub proof fn law_a_note_says_what_its_element_says(dom: Dom, fragment: Seq<char>, i: int)
    requires
        dom.wf(),
        0 <= i < dom.nodes@.len(),
        gives(dom.nodes@[i], "id"@, fragment),
        forall|k: int| 0 <= k < i ==> !gives(#[trigger] dom.nodes@[k], "id"@, fragment),
    ensures
        ({
            let said = trimmed(text_under(dom.nodes@, i, dom.nodes@.len() as int));
            match dom.nodes@[i].tag() {
                Some(tag) => note_in(dom, fragment) == (if noted(lowered(tag), said) {
                    Some(said)
                } else {
                    None
                }),
                None => note_in(dom, fragment) is None,
            }
        }),
{
    lemma_found(dom, "id"@, fragment, i, 0);
}

/// The selected row is on the page that its element starts on.
pub proof fn law_a_row_is_found_by_its_number(
    dom: Dom,
    tops: Seq<i64>,
    index: nat,
    i: int,
    page: int,
)
    requires
        dom.wf(),
        descending(tops),
        0 <= i < dom.nodes@.len(),
        gives(dom.nodes@[i], "data-index"@, decimal(index)),
        forall|k: int|
            0 <= k < i ==> !gives(#[trigger] dom.nodes@[k], "data-index"@, decimal(index)),
        on_page(tops, page, abs_y(dom.nodes@, i)),
    ensures
        index_page(dom, tops, index) == Some(page),
{
    lemma_found(dom, "data-index"@, decimal(index), i, 0);
    law_page_containing_maps_offsets_back(tops, page, abs_y(dom.nodes@, i));
}

/// A page begins at the element of the topmost thing that reaches below its top.
pub proof fn law_a_page_begins_at_its_topmost_element(dom: Dom, tops: Seq<i64>, page: int)
    requires
        0 <= page < tops.len(),
    ensures
        ({
            let atoms = atoms_of(dom.nodes@);
            match page_node(dom, tops, page) {
                Some(g) => exists|k: int|
                    0 <= k < atoms.len() && (#[trigger] atoms[k]).group == g && atoms[k].bottom
                        > tops[page] && forall|j: int|
                        0 <= j < atoms.len() && (#[trigger] atoms[j]).bottom > tops[page]
                            ==> atoms[k].top <= atoms[j].top,
                None => forall|j: int|
                    0 <= j < atoms.len() ==> (#[trigger] atoms[j]).bottom <= tops[page],
            }
        }),
{
    let atoms = atoms_of(dom.nodes@);
    crate::chapter_laws::law_a_page_begins_at_its_first_line(atoms, tops[page] as int);
    if let Some(a) = first_below(atoms, tops[page] as int) {
        let k = choose|k: int| 0 <= k < atoms.len() && atoms[k] == a;
        assert(atoms[k].group == a.group);
    }
}

proof fn lemma_live(spine: Seq<String>, nav: Seq<NavPoint>, n: int, j: int) -> (k: int)
    requires
        0 <= j < n <= nav.len(),
        nav_item(spine, nav[j]) is Some,
    ensures
        0 <= k < live(spine, nav, n).len(),
        live(spine, nav, n)[k] == j,
    decreases n,
{
    if j == n - 1 {
        live(spine, nav, n - 1).len() as int
    } else {
        lemma_live(spine, nav, n - 1, j)
    }
}

/// Each line of the navigation that names an item of the book is listed as it is
/// written there, and leads to the first item of that name and to its fragment.
pub proof fn law_every_line_is_listed(
    spine: Seq<String>,
    nav: Seq<NavPoint>,
    r: Seq<TocEntry>,
    j: int,
    path: Seq<char>,
    fragment: Seq<char>,
    target: Seq<char>,
    i: int,
)
    requires
        contents_of(spine, nav, r),
        0 <= j < nav.len(),
        nav[j].href@ == path + seq!['#'] + fragment || nav[j].href@ == path,
        forall|k: int| 0 <= k < path.len() ==> (#[trigger] path[k]) != '#',
        0 <= i < spine.len(),
        item_path(path) == Some(target),
        item_path(spine[i]@) == Some(target),
        forall|k: int| 0 <= k < i ==> item_path((#[trigger] spine[k])@) != Some(target),
    ensures
        exists|k: int|
            {
                &&& 0 <= k < r.len()
                &&& (#[trigger] r[k]).label@ == nav[j].label@
                &&& r[k].depth == nav[j].depth
                &&& r[k].spine == i
                &&& text_in(r[k].fragment) == (if nav[j].href@ == path {
                    None
                } else {
                    Some(fragment)
                })
                &&& r[k].find is None && r[k].cfi is None
            },
{
    law_a_link_is_a_path_and_a_fragment(path, fragment);
    lemma_named(spine, target, i, 0);
    let k = lemma_live(spine, nav, nav.len() as int, j);
    assert(entry_of(spine, nav[live(spine, nav, nav.len() as int)[k]], r[k]));
}

/// A book without navigation lists its items in order, by their numbers from one.
pub proof fn law_chapters_without_names_are_numbered(
    spine: Seq<String>,
    r: Seq<TocEntry>,
    k: int,
)
    requires
        contents_of(spine, Seq::empty(), r),
        0 <= k < spine.len(),
    ensures
        r.len() == spine.len(),
        r[k].label@ == "Chapter "@ + decimal((k + 1) as nat),
        r[k].spine == k,
        r[k].depth == 0,
        r[k].fragment is None && r[k].find is None && r[k].cfi is None,
{
    assert(live(spine, Seq::empty(), 0) =~= Seq::empty());
    assert(spine_entry(k, r[k]));
}

/// A search hit is listed by its chapter and what stands round it, and seeks what was
/// typed in the item it was found in.
pub proof fn law_a_hit_is_listed_where_it_is(
    e: TocEntry,
    toc: Seq<TocEntry>,
    hit: Hit,
    find: Seq<char>,
)
    requires
        entry_of_hit(e, toc, hit, find),
    ensures
        e.spine == hit.spine,
        text_in(e.find) == Some(find),
        e.fragment is None && e.cfi is None && e.depth == 0,
        stands_at(e.label@, hit.snippet@, e.label@.len() - hit.snippet@.len()),
        stands_at(e.label@, chapter_name(toc, hit.spine), 0),
        toc.len() == 0 ==> chapter_name(toc, hit.spine) == "Chapter "@ + decimal(
            (hit.spine + 1) as nat,
        ),
{
    let name = chapter_name(toc, hit.spine);
    let label = e.label@;
    assert(label.subrange(0, name.len() as int) =~= name);
    assert(label.subrange(label.len() - hit.snippet@.len(), label.len() as int) =~= hit.snippet@);
}

/// A position within an element is that of the first character of the first line that
/// reaches below a height.
pub proof fn law_a_position_begins_a_line(
    dom: Dom,
    node: int,
    y: int,
    k: int,
    before: Seq<char>,
    after: Seq<char>,
)
    requires
        0 <= node < dom.nodes@.len(),
        dom.nodes@[node].text() == Some(before + after),
        0 <= k < dom.nodes@[node].lines().len(),
        ({
            let lines = dom.nodes@[node].lines();
            let top = abs_y(dom.nodes@, node) + dom.nodes@[node].inset_y;
            &&& top + lines[k].bottom > y
            &&& forall|j: int| 0 <= j < k ==> top + (#[trigger] lines[j]).bottom <= y
            &&& lines[k].start == bytes_len(before)
        }),
    ensures
        starts_line(dom, node, y, before.len() as int),
{
    let lines = dom.nodes@[node].lines();
    let top = abs_y(dom.nodes@, node) + dom.nodes@[node].inset_y;
    crate::document_laws::law_the_first_line_below_is_found(lines, y - top, k);
    assert((before + after).take(before.len() as int) =~= before);
}

} // verus!
