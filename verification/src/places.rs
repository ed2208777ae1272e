//! Where a link, a list entry or a saved position leads.
use crate::book::{Book, TocEntry};
use crate::cfi::{
    law_a_nodes_cfi_leads_back_to_it, of_node, parsed, reached, resolve, steps_to, Cfi,
};
use crate::chapter::{atoms_of, first_below, located, node_at, node_containing_text};
use crate::dom::{
    abs_y, char_at, find_by_attr, found_by_attr, line_below, node_top, tag_of, text_of, text_under,
    Dom,
};
use crate::grid::{find_last, last_spot};
use crate::net::{archive_path, in_archive_path, percent_decoded};
use crate::paginate::{law_page_containing_maps_offsets_back, page_at, top_at, Pages};
use crate::search::folded;
use crate::text::{
    begins, bytes_len, chars_of, decimal, equal, find_char, find_word, holds, lemma_place,
    lemma_spot, lowered, owned, push_count, spot, stands_at, string_of, trim, trimmed,
};
use vstd::prelude::*;
use vstd::slice::slice_subrange;

verus! {

/// The longest text that is still a note.
pub const NOTE_MAX: usize = 700;

/// The blocks that notes are written in.
pub open spec fn note_block(tag: Seq<char>) -> bool {
    tag == "p"@ || tag == "li"@ || tag == "aside"@ || tag == "div"@ || tag == "span"@ || tag
        == "td"@
}

/// A note to read where you are, not a place to go to.
pub open spec fn noted(tag: Seq<char>, text: Seq<char>) -> bool {
    note_block(tag) && trimmed(text).len() > 0 && text.len() <= NOTE_MAX
}

/// Is this link target a note to read here, or a place to go to?
///
/// A footnote, an endnote and a bibliography entry are all a short block of text;
/// a section is a heading, a wrapper, or pages of prose.
pub fn is_note(tag: &str, text: &str) -> (r: bool)
    ensures
        r == noted(tag@, text@),
{
    let block = equal(tag, "p") || equal(tag, "li") || equal(tag, "aside") || equal(tag, "div")
        || equal(tag, "span") || equal(tag, "td");
    let chars = chars_of(text);
    block && trim(&chars).len() > 0 && chars.len() <= NOTE_MAX
}

/// A link that leads out of the book.
pub open spec fn outside(href: Seq<char>) -> bool {
    holds(href, "://"@) || stands_at(href, "mailto:"@, 0)
}

/// Does a link lead out of the book? Such a link is not followed: better to do
/// nothing than to open a browser without asking.
pub fn is_external(href: &str) -> (r: bool)
    ensures
        r == outside(href@),
{
    let chars = chars_of(href);
    proof {
        lemma_place(chars@, "://"@);
    }
    find_word(&chars, "://").is_some() || begins(&chars, "mailto:")
}

/// A link's path and its fragment.
pub open spec fn parts(href: Seq<char>) -> (Seq<char>, Option<Seq<char>>) {
    match spot(href, '#') {
        Some(i) => (href.take(i), Some(href.skip(i + 1))),
        None => (href, None),
    }
}

/// The path that a link found in the item `here` names: relative to that item's
/// directory.
pub open spec fn joined_path(here: Seq<char>, path: Seq<char>) -> Seq<char> {
    (match last_spot(here, '/') {
        Some(i) => here.take(i),
        None => Seq::empty(),
    }) + "/"@ + path
}

/// The path a link names, and its fragment; no path for one that stays in the
/// item it is found in.
pub fn link_parts(here: &str, href: &str) -> (r: (Option<String>, Option<String>))
    ensures
        match r.0 {
            Some(p) => parts(href@).0.len() > 0 && p@ == joined_path(here@, parts(href@).0),
            None => parts(href@).0.len() == 0,
        },
        match r.1 {
            Some(f) => parts(href@).1 == Some(f@),
            None => parts(href@).1 is None,
        },
{
    let chars = chars_of(href);
    let all = chars.as_slice();
    let (path, fragment) = match find_char(all, '#') {
        Some(i) => {
            proof {
                lemma_spot(chars@, '#');
            }
            let path = slice_subrange(all, 0, i);
            let rest = slice_subrange(all, i + 1, all.len());
            proof {
                assert(path@ =~= href@.take(i as int));
                assert(rest@ =~= href@.skip(i + 1));
            }
            (path, Some(string_of(rest)))
        },
        None => (all, None),
    };
    if path.len() == 0 {
        return (None, fragment);
    }
    let item = chars_of(here);
    let mut full = match find_last(&item, '/') {
        Some(i) => {
            let dir = slice_subrange(item.as_slice(), 0, i);
            assert(dir@ =~= here@.take(i as int));
            string_of(dir)
        },
        None => String::new(),
    };
    full.append("/");
    let tail = string_of(path);
    full.append(tail.as_str());
    (Some(full), fragment)
}

/// Two archive paths are there and are the same.
pub open spec fn same_item(item: Option<String>, target: Seq<char>) -> bool {
    item matches Some(p) && p@ == target
}

/// The first item with a path.
pub open spec fn item_named(items: Seq<Option<String>>, target: Seq<char>, i: int) -> Option<int>
    decreases items.len() - i,
{
    if i < 0 || i >= items.len() {
        None
    } else if same_item(items[i], target) {
        Some(i)
    } else {
        item_named(items, target, i + 1)
    }
}

/// The first spine item whose archive path is `target`; `items` holds the archive
/// path of each spine item.
pub fn find_item(items: &[Option<String>], target: &str) -> (r: Option<usize>)
    ensures
        match r {
            Some(i) => item_named(items@, target@, 0) == Some(i as int) && i < items@.len(),
            None => item_named(items@, target@, 0) is None,
        },
{
    let mut i: usize = 0;
    while i < items.len()
        invariant
            i <= items.len(),
            item_named(items@, target@, 0) == item_named(items@, target@, i as int),
        decreases items.len() - i,
    {
        let named = match &items[i] {
            Some(p) => equal(p.as_str(), target),
            None => false,
        };
        if named {
            return Some(i);
        }
        i = i + 1;
    }
    None
}

/// The archive path of each spine item.
pub open spec fn item_path(href: Seq<char>) -> Option<Seq<char>> {
    archive_path(percent_decoded(href))
}

pub open spec fn spine_named(spine: Seq<String>, target: Seq<char>, i: int) -> Option<int>
    decreases spine.len() - i,
{
    if i < 0 || i >= spine.len() {
        None
    } else if item_path(spine[i]@) == Some(target) {
        Some(i)
    } else {
        spine_named(spine, target, i + 1)
    }
}

/// Where a link found in the spine item `index` leads: the spine item it names
/// and its fragment.
pub open spec fn link_target(spine: Seq<String>, index: int, href: Seq<char>) -> Option<
    (int, Option<Seq<char>>),
> {
    let (path, fragment) = parts(href);
    let here = if 0 <= index < spine.len() {
        spine[index]@
    } else {
        Seq::empty()
    };
    if path.len() == 0 {
        Some((index, fragment))
    } else {
        match item_path(joined_path(here, path)) {
            Some(target) => match spine_named(spine, target, 0) {
                Some(i) => Some((i, fragment)),
                None => None,
            },
            None => None,
        }
    }
}

proof fn lemma_items(spine: Seq<String>, items: Seq<Option<String>>, target: Seq<char>, i: int)
    requires
        items.len() == spine.len(),
        forall|k: int|
            0 <= k < items.len() ==> match #[trigger] items[k] {
                Some(p) => item_path(spine[k]@) == Some(p@),
                None => item_path(spine[k]@) is None,
            },
        0 <= i,
    ensures
        item_named(items, target, i) == spine_named(spine, target, i),
    decreases items.len() - i,
{
    if i < items.len() {
        let item = items[i];
        lemma_items(spine, items, target, i + 1);
    }
}

/// Split a book-relative link into the spine item it names and its fragment.
///
/// A path is relative to the item it was found in, and normalised the same way
/// the resource requests are.
pub fn resolve_href(book: &Book, index: usize, href: &str) -> (r: Option<(usize, Option<String>)>)
    ensures
        match link_target(book.spine@, index as int, href@) {
            Some(t) => r matches Some(got) && got.0 == t.0 && match got.1 {
                Some(f) => t.1 == Some(f@),
                None => t.1 is None,
            },
            None => r is None,
        },
{
    let here = match book.chapter_href(index) {
        Some(h) => owned(h),
        None => String::new(),
    };
    proof {
        assert(Seq::<char>::empty() =~= here@ || index < book.spine@.len());
    }
    let (path, fragment) = link_parts(here.as_str(), href);
    let full = match path {
        Some(p) => p,
        None => {
            return Some((index, fragment));
        },
    };
    let target = match in_archive_path(full.as_str()) {
        Some(t) => t,
        None => {
            return None;
        },
    };
    let mut items: Vec<Option<String>> = Vec::new();
    let mut i: usize = 0;
    while i < book.spine.len()
        invariant
            i <= book.spine.len(),
            items@.len() == i,
            forall|k: int|
                0 <= k < i ==> match #[trigger] items@[k] {
                    Some(p) => item_path(book.spine@[k]@) == Some(p@),
                    None => item_path(book.spine@[k]@) is None,
                },
        decreases book.spine.len() - i,
    {
        items.push(in_archive_path(book.spine[i].as_str()));
        i = i + 1;
    }
    proof {
        lemma_items(book.spine@, items@, target@, 0);
    }
    match find_item(&items, target.as_str()) {
        Some(i) => Some((i, fragment)),
        None => None,
    }
}

/// A line of a book's own navigation.
#[derive(Debug, Clone)]
pub struct NavPoint {
    pub label: String,
    pub depth: usize,
    pub href: String,
}

/// The spine item that a line of the navigation leads to.
pub open spec fn nav_item(spine: Seq<String>, point: NavPoint) -> Option<int> {
    match item_path(parts(point.href@).0) {
        Some(target) => spine_named(spine, target, 0),
        None => None,
    }
}

/// The lines that lead to a spine item, of the first `n`.
pub open spec fn live(spine: Seq<String>, nav: Seq<NavPoint>, n: int) -> Seq<int>
    decreases n,
{
    if n <= 0 {
        Seq::empty()
    } else if nav_item(spine, nav[n - 1]) is Some {
        live(spine, nav, n - 1).push(n - 1)
    } else {
        live(spine, nav, n - 1)
    }
}

/// A contents entry says what a line of the navigation says, and leads where it
/// leads.
pub open spec fn entry_of(spine: Seq<String>, point: NavPoint, e: TocEntry) -> bool {
    &&& e.label@ == point.label@
    &&& e.depth == point.depth
    &&& nav_item(spine, point) == Some(e.spine as int)
    &&& match e.fragment {
        Some(f) => parts(point.href@).1 == Some(f@),
        None => parts(point.href@).1 is None,
    }
    &&& e.find is None
    &&& e.cfi is None
}

/// A contents entry that only names a spine item by its number.
pub open spec fn spine_entry(i: int, e: TocEntry) -> bool {
    &&& e.label@ == "Chapter "@ + decimal((i + 1) as nat)
    &&& e.depth == 0
    &&& e.spine == i
    &&& e.fragment is None && e.find is None && e.cfi is None
}

/// Are these the contents of a book? One entry to each line of its navigation that
/// leads to a spine item; without such lines, one to each spine item.
pub open spec fn contents_of(spine: Seq<String>, nav: Seq<NavPoint>, r: Seq<TocEntry>) -> bool {
    let lines = live(spine, nav, nav.len() as int);
    if lines.len() > 0 {
        r.len() == lines.len() && forall|k: int|
            0 <= k < r.len() ==> entry_of(spine, nav[lines[k]], #[trigger] r[k])
    } else {
        r.len() == spine.len() && forall|k: int|
            0 <= k < r.len() ==> spine_entry(k, #[trigger] r[k])
    }
}

proof fn lemma_spine_named(spine: Seq<String>, target: Seq<char>, i: int)
    requires
        0 <= i,
    ensures
        spine_named(spine, target, i) matches Some(k) ==> i <= k < spine.len(),
    decreases spine.len() - i,
{
    if i < spine.len() {
        lemma_spine_named(spine, target, i + 1);
    }
}

fn find_spine(spine: &Vec<String>, target: &str) -> (r: Option<usize>)
    ensures
        match r {
            Some(i) => spine_named(spine@, target@, 0) == Some(i as int) && i < spine@.len(),
            None => spine_named(spine@, target@, 0) is None,
        },
{
    let mut i: usize = 0;
    while i < spine.len()
        invariant
            i <= spine.len(),
            spine_named(spine@, target@, 0) == spine_named(spine@, target@, i as int),
        decreases spine.len() - i,
    {
        if let Some(p) = in_archive_path(spine[i].as_str()) {
            if equal(p.as_str(), target) {
                return Some(i);
            }
        }
        i = i + 1;
    }
    None
}

/// The spine item that a line of the navigation leads to, and its fragment.
fn nav_leads(spine: &Vec<String>, point: &NavPoint) -> (r: (Option<usize>, Option<String>))
    ensures
        match r.0 {
            Some(i) => nav_item(spine@, *point) == Some(i as int),
            None => nav_item(spine@, *point) is None,
        },
        match r.1 {
            Some(f) => parts(point.href@).1 == Some(f@),
            None => parts(point.href@).1 is None,
        },
{
    let chars = chars_of(point.href.as_str());
    let all = chars.as_slice();
    let (path, fragment) = match find_char(all, '#') {
        Some(i) => {
            let path = slice_subrange(all, 0, i);
            let rest = slice_subrange(all, i + 1, all.len());
            proof {
                assert(path@ =~= chars@.take(i as int));
                assert(rest@ =~= chars@.skip(i + 1));
            }
            (path, Some(string_of(rest)))
        },
        None => (all, None),
    };
    let named = string_of(path);
    let item = match in_archive_path(named.as_str()) {
        Some(target) => find_spine(spine, target.as_str()),
        None => None,
    };
    (item, fragment)
}

proof fn lemma_live_grows(spine: Seq<String>, nav: Seq<NavPoint>, a: int, b: int)
    requires
        0 <= a <= b <= nav.len(),
    ensures
        live(spine, nav, a).len() <= live(spine, nav, b).len(),
    decreases b - a,
{
    if a < b {
        lemma_live_grows(spine, nav, a, b - 1);
    }
}

/// A book's contents, flattened. Lines that do not lead to a spine item are
/// dropped, and a book with no usable navigation falls back to its spine: a dead
/// line is worse than no line, and the contents should always list something.
pub fn read_toc(spine: &Vec<String>, nav: &Vec<NavPoint>) -> (r: Vec<TocEntry>)
    ensures
        contents_of(spine@, nav@, r@),
{
    let mut out: Vec<TocEntry> = Vec::new();
    let mut n: usize = 0;
    while n < nav.len()
        invariant
            n <= nav.len(),
            ({
                let lines = live(spine@, nav@, n as int);
                out@.len() == lines.len() && forall|k: int|
                    0 <= k < out@.len() ==> entry_of(spine@, nav@[lines[k]], #[trigger] out@[k])
            }),
        decreases nav.len() - n,
    {
        let (item, fragment) = nav_leads(spine, &nav[n]);
        if let Some(i) = item {
            out.push(
                TocEntry {
                    label: owned(nav[n].label.as_str()),
                    depth: nav[n].depth,
                    spine: i,
                    fragment,
                    find: None,
                    cfi: None,
                },
            );
        }
        n = n + 1;
    }
    if out.len() == 0 {
        let mut i: usize = 0;
        while i < spine.len()
            invariant
                i <= spine.len(),
                out@.len() == i,
                forall|k: int| 0 <= k < out@.len() ==> spine_entry(k, #[trigger] out@[k]),
            decreases spine.len() - i,
        {
            let mut label = owned("Chapter ");
            push_count(&mut label, i + 1);
            out.push(
                TocEntry { label, depth: 0, spine: i, fragment: None, find: None, cfi: None },
            );
            i = i + 1;
        }
    }
    out
}

/// Does a book fall back to its spine, for want of usable navigation?
pub fn falls_back(spine: &Vec<String>, nav: &Vec<NavPoint>) -> (r: bool)
    ensures
        r == (live(spine@, nav@, nav@.len() as int).len() == 0),
{
    let mut n: usize = 0;
    while n < nav.len()
        invariant
            n <= nav.len(),
            live(spine@, nav@, n as int).len() == 0,
        decreases nav.len() - n,
    {
        if nav_leads(spine, &nav[n]).0.is_some() {
            proof {
                lemma_live_grows(spine@, nav@, n + 1, nav@.len() as int);
            }
            return false;
        }
        n = n + 1;
    }
    true
}

/// Contents always list something, and every entry leads into the book.
pub proof fn law_contents_lead_into_the_book(spine: Seq<String>, nav: Seq<NavPoint>, r: Seq<TocEntry>)
    requires
        spine.len() > 0,
        contents_of(spine, nav, r),
    ensures
        r.len() > 0,
        forall|k: int| 0 <= k < r.len() ==> (#[trigger] r[k]).spine < spine.len(),
{
    let lines = live(spine, nav, nav.len() as int);
    assert forall|k: int| 0 <= k < r.len() implies (#[trigger] r[k]).spine < spine.len() by {
        if lines.len() > 0 {
            let point = nav[lines[k]];
            assert(entry_of(spine, point, r[k]));
            lemma_spine_named(spine, item_path(parts(point.href@).0)->0, 0);
        }
    }
}

/// The note that a fragment of a document holds, if it is one.
pub open spec fn note_in(dom: Dom, fragment: Seq<char>) -> Option<Seq<char>> {
    match found_by_attr(dom.nodes@, 0, "id"@, fragment, 0) {
        Some(i) => {
            let text = trimmed(text_under(dom.nodes@, i, dom.nodes@.len() as int));
            if dom.nodes@[i].tag() matches Some(tag) && noted(lowered(tag), text) {
                Some(text)
            } else {
                None
            }
        },
        None => None,
    }
}

/// The text of a link target, when the target is a note rather than a place.
pub fn note_at(dom: &Dom, fragment: &str) -> (r: Option<String>)
    requires
        dom.wf(),
    ensures
        match r {
            Some(t) => note_in(*dom, fragment@) == Some(t@),
            None => note_in(*dom, fragment@) is None,
        },
{
    match find_by_attr(dom, 0, "id", fragment) {
        Some(i) => match tag_of(dom, i) {
            Some(tag) => {
                let text = text_of(dom, i);
                if is_note(tag.as_str(), text.as_str()) {
                    Some(text)
                } else {
                    None
                }
            },
            None => None,
        },
        None => None,
    }
}

/// The page that the element a fragment names starts on.
pub open spec fn fragment_page(dom: Dom, tops: Seq<i64>, fragment: Seq<char>) -> Option<int> {
    match found_by_attr(dom.nodes@, 0, "id"@, fragment, 0) {
        Some(i) => Some(page_at(tops, abs_y(dom.nodes@, i))),
        None => None,
    }
}

pub fn page_of_fragment(dom: &Dom, pages: &Pages, fragment: &str) -> (r: Option<usize>)
    requires
        dom.wf(),
    ensures
        match r {
            Some(p) => fragment_page(*dom, pages.tops@, fragment@) == Some(p as int),
            None => fragment_page(*dom, pages.tops@, fragment@) is None,
        },
{
    match find_by_attr(dom, 0, "id", fragment) {
        Some(i) => match node_top(dom, i) {
            Some(y) => Some(pages.page_containing(y)),
            None => None,
        },
        None => None,
    }
}

/// The page that a text is on.
pub open spec fn text_page(dom: Dom, tops: Seq<i64>, needle: Seq<char>) -> Option<int> {
    match located(dom.nodes@, trimmed(folded(needle))) {
        Some(i) => Some(page_at(tops, abs_y(dom.nodes@, i))),
        None => None,
    }
}

/// The page that a text is on: a search hit knows its words, not its element.
pub fn page_of_text(dom: &Dom, pages: &Pages, needle: &str) -> (r: Option<usize>)
    requires
        dom.wf(),
    ensures
        match r {
            Some(p) => text_page(*dom, pages.tops@, needle@) == Some(p as int),
            None => text_page(*dom, pages.tops@, needle@) is None,
        },
{
    match node_containing_text(dom, needle) {
        Some(i) => match node_top(dom, i) {
            Some(y) => Some(pages.page_containing(y)),
            None => None,
        },
        None => None,
    }
}

/// The page that the element a position names starts on.
pub open spec fn position_page(dom: Dom, tops: Seq<i64>, raw: Seq<char>) -> Option<int> {
    match parsed(raw) {
        Some(c) => match reached(dom.nodes@, c.1) {
            Some(i) => Some(page_at(tops, abs_y(dom.nodes@, i))),
            None => None,
        },
        None => None,
    }
}

proof fn lemma_reached_is_there(dom: Dom, steps: Seq<usize>)
    ensures
        reached(dom.nodes@, steps) matches Some(i) ==> 0 <= i < dom.nodes@.len(),
{
    if steps.len() > 0 {
        if let Some(at) = reached(dom.nodes@, steps.drop_last()) {
            if steps.last() >= 2 {
                lemma_child_is_there(dom, at, (steps.last() / 2 - 1) as nat, 0);
            }
        }
    }
}

proof fn lemma_child_is_there(dom: Dom, p: int, k: nat, i: int)
    requires
        0 <= i,
    ensures
        crate::cfi::child_from(dom.nodes@, p, k, i) matches Some(c) ==> 0 <= c < dom.nodes@.len(),
    decreases dom.nodes@.len() - i,
{
    if i < dom.nodes@.len() {
        if crate::cfi::element_child(dom.nodes@, p, i) {
            if k > 0 {
                lemma_child_is_there(dom, p, (k - 1) as nat, i + 1);
            }
        } else {
            lemma_child_is_there(dom, p, k, i + 1);
        }
    }
}

/// The page of a stored mark, which knows its element exactly.
pub fn page_of_position(dom: &Dom, pages: &Pages, raw: &str) -> (r: Option<usize>)
    requires
        dom.wf(),
    ensures
        match r {
            Some(p) => position_page(*dom, pages.tops@, raw@) == Some(p as int),
            None => position_page(*dom, pages.tops@, raw@) is None,
        },
{
    match Cfi::parse(raw) {
        Some(c) => {
            proof {
                lemma_reached_is_there(*dom, c.steps@);
            }
            match resolve(dom, &c) {
                Some(i) => match node_top(dom, i) {
                    Some(y) => Some(pages.page_containing(y)),
                    None => None,
                },
                None => None,
            }
        },
        None => None,
    }
}

/// `to`, or `from` where there is none.
pub open spec fn moved(from: int, to: Option<int>) -> int {
    match to {
        Some(p) => p,
        None => from,
    }
}

/// The page that a list entry leads to in its chapter: that of its position, its
/// text or its fragment, whichever of them it has and the chapter holds; the page
/// the chapter opened on where it holds none.
pub open spec fn entry_page_at(dom: Dom, tops: Seq<i64>, e: TocEntry, opened: int) -> int {
    let a = match e.cfi {
        Some(raw) => moved(opened, position_page(dom, tops, raw@)),
        None => opened,
    };
    let b = match e.find {
        Some(needle) => moved(a, text_page(dom, tops, needle@)),
        None => a,
    };
    match e.fragment {
        Some(f) => moved(b, fragment_page(dom, tops, f@)),
        None => b,
    }
}

/// The page that a list entry leads to. Books that keep several chapters in one
/// spine file would otherwise send every entry to the first page.
pub fn entry_page(dom: &Dom, pages: &Pages, e: &TocEntry, opened: usize) -> (page: usize)
    requires
        dom.wf(),
    ensures
        page == entry_page_at(*dom, pages.tops@, *e, opened as int),
{
    let mut page: usize = opened;
    if let Some(raw) = &e.cfi {
        if let Some(p) = page_of_position(dom, pages, raw.as_str()) {
            page = p;
        }
    }
    if let Some(needle) = &e.find {
        if let Some(p) = page_of_text(dom, pages, needle.as_str()) {
            page = p;
        }
    }
    if let Some(f) = &e.fragment {
        if let Some(p) = page_of_fragment(dom, pages, f.as_str()) {
            page = p;
        }
    }
    page
}

/// The element that a page begins at.
pub open spec fn page_node(dom: Dom, tops: Seq<i64>, page: int) -> Option<usize> {
    match first_below(atoms_of(dom.nodes@), top_at(tops, page)) {
        Some(a) => Some(a.group),
        None => None,
    }
}

/// The steps to the element that a page begins at.
pub open spec fn page_steps(dom: Dom, tops: Seq<i64>, page: int) -> Option<Seq<usize>> {
    match page_node(dom, tops, page) {
        Some(node) => match steps_to(dom.nodes@, node as int) {
            Some(s) if s.len() > 0 => Some(s),
            _ => None,
        },
        None => None,
    }
}

/// The address of the element that a page begins at: the anchor of a bookmark,
/// and the same one that reading progress uses.
pub fn cfi_of_page(dom: &Dom, pages: &Pages, page: usize, index: usize) -> (r: Option<Cfi>)
    requires
        dom.wf(),
    ensures
        match r {
            Some(c) => c.spine == index && c.offset is None && page_steps(
                *dom,
                pages.tops@,
                page as int,
            ) == Some(c.steps@),
            None => page_steps(*dom, pages.tops@, page as int) is None,
        },
{
    match node_at(dom, pages.top_of(page)) {
        Some(node) => of_node(dom, node, index),
        None => None,
    }
}

/// `n` is the character of a node's text that its first line below `y` starts at.
pub open spec fn starts_line(dom: Dom, node: int, y: int, n: int) -> bool {
    &&& 0 <= node < dom.nodes@.len()
    &&& dom.nodes@[node].text() matches Some(t)
    &&& 0 <= n <= t.len()
    &&& line_below(
        dom.nodes@[node].lines(),
        y - (abs_y(dom.nodes@, node) + dom.nodes@[node].inset_y),
    ) matches Some(line)
    &&& bytes_len(t.take(n)) == line.start
}

/// The address of where a page begins: its element, and which character of it
/// the page starts on. Without the character the address is the paragraph, and a
/// paragraph three pages long resumes at its first.
pub fn save_position(dom: &Dom, pages: &Pages, page: usize, index: usize) -> (r: Option<Cfi>)
    requires
        dom.wf(),
    ensures
        match r {
            Some(c) => {
                &&& c.spine == index
                &&& page_steps(*dom, pages.tops@, page as int) == Some(c.steps@)
                &&& page_node(*dom, pages.tops@, page as int) matches Some(node)
                &&& match c.offset {
                    Some(n) => starts_line(
                        *dom,
                        node as int,
                        top_at(pages.tops@, page as int),
                        n as int,
                    ),
                    None => forall|n: int|
                        !starts_line(*dom, node as int, top_at(pages.tops@, page as int), n),
                }
            },
            None => page_steps(*dom, pages.tops@, page as int) is None,
        },
{
    let top: i64 = pages.top_of(page);
    match node_at(dom, top) {
        Some(node) => match of_node(dom, node, index) {
            Some(c) => {
                let offset = char_at(dom, node, top);
                Some(Cfi { spine: c.spine, steps: c.steps, offset })
            },
            None => None,
        },
        None => None,
    }
}

/// The page that a saved position leads to in the chapter `index`: that of its
/// character, `char_top` into the flow, where it names one, and of its element
/// otherwise. Nothing where the position is in another chapter or no longer there.
pub open spec fn resumed(
    dom: Dom,
    tops: Seq<i64>,
    spine: int,
    steps: Seq<usize>,
    index: int,
    char_top: Option<i64>,
) -> Option<int> {
    if spine != index {
        None
    } else {
        match reached(dom.nodes@, steps) {
            Some(node) => Some(
                match char_top {
                    Some(y) => page_at(tops, y as int),
                    None => page_at(tops, abs_y(dom.nodes@, node)),
                },
            ),
            None => None,
        }
    }
}

/// The page that a saved position leads to. `char_top` is where the character it
/// names is, which only a text layout can tell.
pub fn restore_position(dom: &Dom, pages: &Pages, c: &Cfi, index: usize, char_top: Option<i64>) -> (r:
    Option<usize>)
    requires
        dom.wf(),
    ensures
        match r {
            Some(p) => resumed(
                *dom,
                pages.tops@,
                c.spine as int,
                c.steps@,
                index as int,
                char_top,
            ) == Some(p as int),
            None => resumed(*dom, pages.tops@, c.spine as int, c.steps@, index as int, char_top) is None,
        },
{
    if c.spine != index {
        return None;
    }
    proof {
        lemma_reached_is_there(*dom, c.steps@);
    }
    match resolve(dom, c) {
        Some(node) => {
            let y: i64 = match char_top {
                Some(y) => y,
                None => match node_top(dom, node) {
                    Some(y) => y,
                    None => 0,
                },
            };
            Some(pages.page_containing(y))
        },
        None => None,
    }
}

/// A saved position reopens its page: the address that is saved of a page leads,
/// in the same layout, back to that page, when the character it names is on it.
pub proof fn law_a_saved_position_reopens_its_page(
    dom: Dom,
    tops: Seq<i64>,
    page: int,
    index: int,
    char_top: i64,
)
    requires
        dom.wf(),
        0 <= page < tops.len(),
        forall|i: int, j: int| 0 <= i < j < tops.len() ==> tops[i] < tops[j],
        page_steps(dom, tops, page) is Some,
        tops[page] <= char_top,
        page + 1 < tops.len() ==> char_top < tops[page + 1],
    ensures
        resumed(dom, tops, index, page_steps(dom, tops, page)->0, index, Some(char_top)) == Some(
            page,
        ),
{
    let node = page_node(dom, tops, page)->0;
    law_a_nodes_cfi_leads_back_to_it(dom, node as int);
    law_page_containing_maps_offsets_back(tops, page, char_top as int);
}

/// The chapter that a book of `count` chapters opens at.
pub open spec fn first_chapter(saved: Option<usize>, count: usize, start: usize) -> usize {
    match saved {
        Some(s) if s < count => s,
        _ => start,
    }
}

/// The chapter a book opens at: that of the saved position where the book still
/// has it, else the one asked for.
pub fn start_chapter(saved: Option<usize>, count: usize, start: usize) -> (r: usize)
    ensures
        r == first_chapter(saved, count, start),
{
    match saved {
        Some(s) => if s < count {
            s
        } else {
            start
        },
        None => start,
    }
}

} // verus!
