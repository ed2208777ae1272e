//! Bookmarks, highlights and the lists that lead into a book.
//!
//! A bookmark is a highlight with no span, so both are marks.
use crate::book::TocEntry;
use crate::cfi::{cfi_text, of_node, parsed, steps_to, Cfi};
use crate::db::Hit;
use crate::dom::{char_span, Dom};
use crate::library::texts;
use crate::markup::{skip_lead, without_lead};
use crate::order::{sort, sorted, Ranked};
use crate::paginate::Pages;
use crate::paint::Area;
use crate::places::{cfi_of_page, page_steps};
use crate::readout::TocMode;
use crate::search::{fold_chars, folded};
use crate::text::{
    bytes_len, chars_of, decimal, equal, join, joined, lemma_bytes_prefix, owned, push_count,
    string_of, text_in, trim, trimmed, white, words, words_from, words_of,
};
use vstd::prelude::*;

verus! {

/// A bookmark or a highlight.
#[derive(Debug, Clone)]
pub struct Mark {
    pub id: i64,
    pub cfi: String,
    /// Characters it spans; none for a bookmark.
    pub length: usize,
    pub text: String,
    pub note: String,
}

impl Default for Mark {
    fn default() -> (r: Self)
        ensures
            r.id == 0 && r.length == 0,
            r.cfi@.len() == 0 && r.text@.len() == 0 && r.note@.len() == 0,
    {
        Mark { id: 0, cfi: String::new(), length: 0, text: String::new(), note: String::new() }
    }
}

impl Mark {
    pub fn is_bookmark(&self) -> (r: bool)
        ensures
            r == (self.length == 0),
    {
        self.length == 0
    }

    /// The spine item a mark is in; the first where its position cannot be read.
    pub open spec fn spine(&self) -> usize {
        match parsed(self.cfi@) {
            Some(c) => c.0,
            None => 0,
        }
    }

    /// The character a mark starts at.
    pub open spec fn start(&self) -> usize {
        match parsed(self.cfi@) {
            Some(c) => match c.2 {
                Some(o) => o,
                None => 0,
            },
            None => 0,
        }
    }

    /// What a list says of the mark: its words, its note or both, else its
    /// chapter.
    pub open spec fn body(&self) -> Seq<char> {
        if self.text@.len() == 0 && self.note@.len() == 0 {
            "chapter "@ + decimal((self.spine() + 1) as nat)
        } else if self.text@.len() == 0 {
            self.note@
        } else if self.note@.len() == 0 {
            self.text@
        } else {
            self.text@ + " — "@ + self.note@
        }
    }

    pub open spec fn label(&self) -> Seq<char> {
        (if self.length == 0 {
            "Bookmark"@
        } else {
            "Highlight"@
        }) + " · "@ + self.body()
    }
}

fn is_empty(s: &str) -> (r: bool)
    ensures
        r == (s@.len() == 0),
{
    chars_of(s).len() == 0
}

/// Where a mark stands in a book.
pub fn place_of(m: &Mark) -> (r: (usize, usize))
    ensures
        r.0 == m.spine(),
        r.1 == m.start(),
{
    match Cfi::parse(m.cfi.as_str()) {
        Some(c) => (
            c.spine,
            match c.offset {
                Some(o) => o,
                None => 0,
            },
        ),
        None => (0, 0),
    }
}

fn body_of(m: &Mark, spine: usize) -> (r: String)
    requires
        spine == m.spine(),
        spine < usize::MAX,
    ensures
        r@ == m.body(),
{
    if is_empty(m.text.as_str()) {
        if is_empty(m.note.as_str()) {
            let mut out = owned("chapter ");
            push_count(&mut out, spine + 1);
            out
        } else {
            owned(m.note.as_str())
        }
    } else if is_empty(m.note.as_str()) {
        owned(m.text.as_str())
    } else {
        let mut out = owned(m.text.as_str());
        out.append(" — ");
        out.append(m.note.as_str());
        out
    }
}

proof fn lemma_spine_small(m: Mark)
    ensures
        m.spine() < usize::MAX,
{
    if let Some(c) = parsed(m.cfi@) {
        let inner = m.cfi@.skip("epubcfi("@.len() as int).drop_last();
        let i = crate::text::spot(inner, '!')->0;
        let spine = crate::cfi::spine_of(inner.take(i))->0;
        assert(c.0 == spine);
    }
}

/// The list entry of a mark.
pub fn mark_entry(m: &Mark) -> (e: TocEntry)
    ensures
        entry_of_mark(e, *m),
{
    proof {
        lemma_spine_small(*m);
    }
    let spine: usize = place_of(m).0;
    let mut label = owned(
        if m.is_bookmark() {
            "Bookmark"
        } else {
            "Highlight"
        },
    );
    label.append(" · ");
    let body = body_of(m, spine);
    label.append(body.as_str());
    TocEntry {
        label,
        depth: 0,
        spine,
        fragment: None,
        find: None,
        cfi: Some(owned(m.cfi.as_str())),
    }
}

/// The last entry of the contents at or before a spine item.
pub open spec fn covering(toc: Seq<TocEntry>, spine: usize) -> Option<int>
    decreases toc.len(),
{
    if toc.len() == 0 {
        None
    } else if toc.last().spine <= spine {
        Some(toc.len() - 1)
    } else {
        covering(toc.drop_last(), spine)
    }
}

/// The place of the last entry of the contents at or before a spine item.
pub fn covering_entry(toc: &[TocEntry], spine: usize) -> (r: Option<usize>)
    ensures
        match r {
            Some(i) => covering(toc@, spine) == Some(i as int) && i < toc@.len(),
            None => covering(toc@, spine) is None,
        },
{
    let mut n: usize = toc.len();
    assert(toc@.take(n as int) =~= toc@);
    while n > 0
        invariant
            n <= toc.len(),
            covering(toc@, spine) == covering(toc@.take(n as int), spine),
        decreases n,
    {
        if toc[n - 1].spine <= spine {
            return Some(n - 1);
        }
        proof {
            assert(toc@.take(n as int).drop_last() =~= toc@.take(n - 1));
        }
        n = n - 1;
    }
    None
}

/// The entry that the contents open on.
pub open spec fn opens_on(toc: Seq<TocEntry>, index: usize) -> int {
    match covering(toc, index) {
        Some(i) => i,
        None => 0,
    }
}

/// Where the contents open: on the entry covering where the reader is.
pub fn contents_start(toc: &[TocEntry], index: usize) -> (r: usize)
    ensures
        r == opens_on(toc@, index),
{
    match covering_entry(toc, index) {
        Some(i) => i,
        None => 0,
    }
}

/// The name of the chapter a hit is in: that of the book's own contents, else
/// its number.
pub open spec fn chapter_name(toc: Seq<TocEntry>, spine: usize) -> Seq<char> {
    match covering(toc, spine) {
        Some(i) => toc[i].label@,
        None => "Chapter "@ + decimal((spine + 1) as nat),
    }
}

/// The list entry of a search hit for `find`.
pub fn hit_entry(toc: &[TocEntry], hit: &Hit, find: &str) -> (e: TocEntry)
    requires
        hit.spine < usize::MAX,
    ensures
        entry_of_hit(e, toc@, *hit, find@),
{
    let mut label = match covering_entry(toc, hit.spine) {
        Some(i) => owned(toc[i].label.as_str()),
        None => {
            let mut out = owned("Chapter ");
            push_count(&mut out, hit.spine + 1);
            out
        },
    };
    label.append(" · ");
    label.append(hit.snippet.as_str());
    TocEntry {
        label,
        depth: 0,
        spine: hit.spine,
        fragment: None,
        find: Some(owned(find)),
        cfi: None,
    }
}

/// Do two entries say the same?
pub open spec fn says_same(a: TocEntry, b: TocEntry) -> bool {
    &&& a.label@ == b.label@ && a.depth == b.depth && a.spine == b.spine
    &&& text_in(a.fragment) == text_in(b.fragment)
    &&& text_in(a.find) == text_in(b.find)
    &&& text_in(a.cfi) == text_in(b.cfi)
}

/// Is this the list entry of a mark?
pub open spec fn entry_of_mark(e: TocEntry, m: Mark) -> bool {
    &&& e.label@ == m.label() && e.depth == 0 && e.spine == m.spine()
    &&& e.fragment is None && e.find is None && text_in(e.cfi) == Some(m.cfi@)
}

/// Is this the list entry of a search hit for `find`?
pub open spec fn entry_of_hit(e: TocEntry, toc: Seq<TocEntry>, hit: Hit, find: Seq<char>) -> bool {
    &&& e.label@ == chapter_name(toc, hit.spine) + " · "@ + hit.snippet@
    &&& e.depth == 0 && e.spine == hit.spine
    &&& e.fragment is None && text_in(e.find) == Some(find) && e.cfi is None
}

fn copy_text(t: &Option<String>) -> (r: Option<String>)
    ensures
        text_in(r) == text_in(*t),
{
    match t {
        Some(s) => Some(owned(s.as_str())),
        None => None,
    }
}

fn copy_entry(e: &TocEntry) -> (r: TocEntry)
    ensures
        says_same(r, *e),
{
    TocEntry {
        label: owned(e.label.as_str()),
        depth: e.depth,
        spine: e.spine,
        fragment: copy_text(&e.fragment),
        find: copy_text(&e.find),
        cfi: copy_text(&e.cfi),
    }
}

/// Are these the entries of the contents view?
pub open spec fn lists(
    mode: TocMode,
    toc: Seq<TocEntry>,
    marks: Seq<Mark>,
    hits: Seq<Hit>,
    find: Seq<char>,
    r: Seq<TocEntry>,
) -> bool {
    match mode {
        TocMode::Contents => r.len() == toc.len() && forall|i: int|
            0 <= i < r.len() ==> says_same(#[trigger] r[i], toc[i]),
        TocMode::Marks => r.len() == marks.len() && forall|i: int|
            0 <= i < r.len() ==> entry_of_mark(#[trigger] r[i], marks[i]),
        TocMode::Search => r.len() == hits.len() && forall|i: int|
            0 <= i < r.len() ==> entry_of_hit(#[trigger] r[i], toc, hits[i], find),
    }
}

/// What the contents view lists: the book's navigation, its marks, or the hits of
/// a search. All three are places in this book.
pub fn toc_entries(
    mode: TocMode,
    toc: &[TocEntry],
    marks: &[Mark],
    hits: &[Hit],
    find: &str,
) -> (r: Vec<TocEntry>)
    requires
        forall|i: int| 0 <= i < hits@.len() ==> (#[trigger] hits@[i]).spine < usize::MAX,
    ensures
        lists(mode, toc@, marks@, hits@, find@, r@),
{
    let mut out: Vec<TocEntry> = Vec::new();
    let mut i: usize = 0;
    match mode {
        TocMode::Contents => {
            while i < toc.len()
                invariant
                    i <= toc@.len(),
                    out@.len() == i,
                    forall|k: int| 0 <= k < i ==> says_same(#[trigger] out@[k], toc@[k]),
                decreases toc.len() - i,
            {
                out.push(copy_entry(&toc[i]));
                i = i + 1;
            }
        },
        TocMode::Marks => {
            while i < marks.len()
                invariant
                    i <= marks@.len(),
                    out@.len() == i,
                    forall|k: int| 0 <= k < i ==> entry_of_mark(#[trigger] out@[k], marks@[k]),
                decreases marks.len() - i,
            {
                out.push(mark_entry(&marks[i]));
                i = i + 1;
            }
        },
        TocMode::Search => {
            while i < hits.len()
                invariant
                    i <= hits@.len(),
                    out@.len() == i,
                    forall|k: int| 0 <= k < hits@.len() ==> (#[trigger] hits@[k]).spine < usize::MAX,
                    forall|k: int|
                        0 <= k < i ==> entry_of_hit(#[trigger] out@[k], toc@, hits@[k], find@),
                decreases hits.len() - i,
            {
                out.push(hit_entry(toc, &hits[i], find));
                i = i + 1;
            }
        },
    }
    out
}

/// A span of an element's text as characters: `len` of them from `start`, which
/// are the bytes from `from` to `to`.
pub open spec fn spans(text: Seq<char>, start: int, len: int, from: int, to: int) -> bool {
    &&& 0 <= start && 0 <= len && start + len <= text.len()
    &&& bytes_len(text.take(start)) == from
    &&& bytes_len(text.take(start + len)) == to
}

/// A mark holds the characters from `start` that are the bytes from `from` to
/// `to` of a text.
pub open spec fn highlights(m: Mark, text: Seq<char>, start: usize, from: int, to: int) -> bool {
    &&& spans(text, start as int, m.length as int, from, to)
    &&& m.text@ == text.subrange(start as int, start + m.length)
}

/// What can be highlighted: bytes of an element's text that are whole characters,
/// in an element that has an address.
pub open spec fn can_mark(dom: Dom, node: int, from: int, to: int) -> bool {
    &&& 0 <= node < dom.nodes@.len()
    &&& dom.nodes@[node].text() matches Some(t)
    &&& exists|start: int, len: int| #[trigger] spans(t, start, len, from, to)
    &&& steps_to(dom.nodes@, node) matches Some(s)
    &&& s.len() > 0
}

/// Is this the mark of a selection, if it can have one?
pub open spec fn is_highlight_of(
    dom: Dom,
    node: int,
    from: int,
    to: int,
    index: nat,
    r: Option<Mark>,
) -> bool {
    match r {
        Some(m) => {
            &&& dom.nodes@[node].text() matches Some(t)
            &&& steps_to(dom.nodes@, node) matches Some(steps)
            &&& exists|start: usize|
                #[trigger] highlights(m, t, start, from, to) && m.cfi@ == cfi_text(
                    index,
                    steps,
                    Some(start),
                )
            &&& m.id == 0 && m.note@.len() == 0
        },
        None => !can_mark(dom, node, from, to),
    }
}

/// The mark that highlights a selection: the bytes `from..to` of an element's
/// text, kept as characters, which is what an offset counts.
pub fn highlight(dom: &Dom, node: usize, from: usize, to: usize, index: usize) -> (r: Option<Mark>)
    requires
        dom.wf(),
        (index + 1) * 2 <= usize::MAX,
    ensures
        is_highlight_of(*dom, node as int, from as int, to as int, index as nat, r),
{
    match char_span(dom, node, from, to) {
        Some((start, length, text)) => {
            assert(spans(
                dom.nodes@[node as int].text()->0,
                start as int,
                length as int,
                from as int,
                to as int,
            ));
            match of_node(dom, node, index) {
                Some(at) => {
                    let whole = Cfi { spine: at.spine, steps: at.steps, offset: Some(start) };
                    let m = Mark {
                        id: 0,
                        cfi: whole.to_string(),
                        length,
                        text,
                        note: String::new(),
                    };
                    assert(highlights(
                        m,
                        dom.nodes@[node as int].text()->0,
                        start,
                        from as int,
                        to as int,
                    ));
                    assert(m.cfi@ == cfi_text(
                        index as nat,
                        steps_to(dom.nodes@, node as int)->0,
                        Some(start),
                    ));
                    assert(is_highlight_of(
                        *dom,
                        node as int,
                        from as int,
                        to as int,
                        index as nat,
                        Some(m),
                    ));
                    Some(m)
                },
                None => None,
            }
        },
        None => {
            proof {
                if can_mark(*dom, node as int, from as int, to as int) {
                    let t = dom.nodes@[node as int].text()->0;
                    let (start, len) = choose|start: int, len: int|
                        #[trigger] spans(t, start, len, from as int, to as int);
                    lemma_bytes_prefix(t, start, start + len);
                    assert(bytes_len(t.take(start)) == from);
                    assert(bytes_len(t.take(start + len)) == to);
                }
            }
            None
        },
    }
}

/// Is this the bookmark of a page, if it can have one?
pub open spec fn is_bookmark_of(
    dom: Dom,
    tops: Seq<i64>,
    page: int,
    index: nat,
    r: Option<Mark>,
) -> bool {
    match r {
        Some(m) => {
            &&& page_steps(dom, tops, page) matches Some(steps)
            &&& m.cfi@ == cfi_text(index, steps, None)
            &&& m.id == 0 && m.length == 0 && m.text@.len() == 0 && m.note@.len() == 0
        },
        None => page_steps(dom, tops, page) is None,
    }
}

/// The bookmark of a page: a mark without a span, at the element the page begins
/// at.
pub fn bookmark(dom: &Dom, pages: &Pages, page: usize, index: usize) -> (r: Option<Mark>)
    requires
        dom.wf(),
        (index + 1) * 2 <= usize::MAX,
    ensures
        is_bookmark_of(*dom, pages.tops@, page as int, index as nat, r),
{
    match cfi_of_page(dom, pages, page, index) {
        Some(at) => Some(
            Mark {
                id: 0,
                cfi: at.to_string(),
                length: 0,
                text: String::new(),
                note: String::new(),
            },
        ),
        None => None,
    }
}

/// The first of some marks that is painted over a point.
pub open spec fn mark_over(painted: Seq<(i64, Vec<Area>)>, x: int, y: int, i: int) -> Option<i64>
    decreases painted.len() - i,
{
    if i < 0 || i >= painted.len() {
        None
    } else if exists|k: int| 0 <= k < painted[i].1@.len() && (#[trigger] painted[i].1@[k]).has(x, y) {
        Some(painted[i].0)
    } else {
        mark_over(painted, x, y, i + 1)
    }
}

fn covers(areas: &Vec<Area>, x: i64, y: i64) -> (r: bool)
    ensures
        r == exists|k: int| 0 <= k < areas@.len() && (#[trigger] areas@[k]).has(x as int, y as int),
{
    let mut k: usize = 0;
    while k < areas.len()
        invariant
            k <= areas.len(),
            forall|j: int| 0 <= j < k ==> !(#[trigger] areas@[j]).has(x as int, y as int),
        decreases areas.len() - k,
    {
        if areas[k].contains(x, y) {
            assert(areas@[k as int].has(x as int, y as int));
            return true;
        }
        k = k + 1;
    }
    false
}

/// The stored highlight containing a point of the flow, if any: `painted` holds
/// each mark with what it is painted over.
pub fn mark_at(painted: &Vec<(i64, Vec<Area>)>, x: i64, y: i64) -> (r: Option<i64>)
    ensures
        r == mark_over(painted@, x as int, y as int, 0),
{
    let mut i: usize = 0;
    while i < painted.len()
        invariant
            i <= painted.len(),
            mark_over(painted@, x as int, y as int, 0) == mark_over(
                painted@,
                x as int,
                y as int,
                i as int,
            ),
        decreases painted.len() - i,
    {
        if covers(&painted[i].1, x, y) {
            return Some(painted[i].0);
        }
        i = i + 1;
    }
    None
}

/// Where a mark stands, and its place in an unordered list.
#[derive(Debug, Clone, Copy, PartialEq, Eq, Structural)]
pub struct MarkPlace {
    pub spine: usize,
    pub start: usize,
    pub at: usize,
}

impl Ranked for MarkPlace {
    open spec fn rank(self) -> (int, int) {
        (self.spine as int, self.start as int)
    }

    fn precedes(&self, other: &Self) -> (r: bool) {
        self.spine < other.spine || (self.spine == other.spine && self.start < other.start)
    }
}

/// The places of some marks, in the order they are given.
pub open spec fn mark_places(marks: Seq<Mark>) -> Seq<MarkPlace> {
    Seq::new(
        marks.len(),
        |i: int| MarkPlace { spine: marks[i].spine(), start: marks[i].start(), at: i as usize },
    )
}

/// The marks in reading order, each by its place in `marks`: by spine item, then
/// by character. Positions only sort correctly as text by accident.
pub fn reading_order(marks: &[Mark]) -> (r: Vec<MarkPlace>)
    ensures
        r@ == sorted(mark_places(marks@)),
{
    let mut places: Vec<MarkPlace> = Vec::new();
    let mut i: usize = 0;
    while i < marks.len()
        invariant
            i <= marks.len(),
            places@ =~= mark_places(marks@).take(i as int),
        decreases marks.len() - i,
    {
        let p = place_of(&marks[i]);
        places.push(MarkPlace { spine: p.0, start: p.1, at: i });
        i = i + 1;
    }
    assert(places@ =~= mark_places(marks@));
    sort(&places)
}

/// A tag as it is kept: folded, without a leading hash, its words hyphenated.
pub open spec fn tag_text(typed: Seq<char>) -> Seq<char> {
    joined(words(without_lead(trimmed(folded(typed)), '#')), "-"@)
}

/// A tag as it is kept, so that "Sci Fi", "sci-fi" and "SCI-FI" are one.
pub fn fold_tag(typed: &str) -> (r: String)
    ensures
        r@ == tag_text(typed@),
{
    let chars = chars_of(typed);
    let low = fold_chars(&chars);
    let bare = skip_lead(trim(&low), '#');
    let ws = words_of(bare);
    join(&ws, "-")
}

/// No white space in a text.
pub open spec fn whole(s: Seq<char>) -> bool {
    forall|i: int| 0 <= i < s.len() ==> !white(#[trigger] s[i])
}

proof fn lemma_words_are_whole(s: Seq<char>, word: Seq<char>)
    requires
        whole(word),
    ensures
        forall|k: int| 0 <= k < words_from(s, word).len() ==> whole(#[trigger] words_from(s, word)[k]),
    decreases s.len(),
{
    let all = words_from(s, word);
    if s.len() == 0 {
        assert(all =~= if word.len() == 0 {
            seq![]
        } else {
            seq![word]
        });
    } else {
        let rest = s.drop_first();
        if white(s[0]) {
            lemma_words_are_whole(rest, seq![]);
            let others = words_from(rest, seq![]);
            assert forall|k: int| 0 <= k < all.len() implies whole(#[trigger] all[k]) by {
                if word.len() == 0 {
                    assert(whole(others[k]));
                } else if k > 0 {
                    assert(whole(others[k - 1]));
                }
            }
        } else {
            lemma_words_are_whole(rest, word.push(s[0]));
            assert(all == words_from(rest, word.push(s[0])));
        }
    }
}

proof fn lemma_joined_is_whole(parts: Seq<Seq<char>>, sep: Seq<char>)
    requires
        whole(sep),
        forall|k: int| 0 <= k < parts.len() ==> whole(#[trigger] parts[k]),
    ensures
        whole(joined(parts, sep)),
    decreases parts.len(),
{
    if parts.len() > 1 {
        let front = parts.drop_last();
        assert forall|k: int| 0 <= k < front.len() implies whole(#[trigger] front[k]) by {
            assert(front[k] == parts[k]);
        }
        lemma_joined_is_whole(front, sep);
        assert(whole(parts[parts.len() - 1]));
    } else if parts.len() == 1 {
        assert(whole(parts[0]));
    }
}

/// A tag is one word, however it was typed.
pub proof fn law_tags_are_one_word(typed: Seq<char>)
    ensures
        whole(tag_text(typed)),
{
    reveal_strlit("-");
    lemma_words_are_whole(without_lead(trimmed(folded(typed)), '#'), seq![]);
    lemma_joined_is_whole(words(without_lead(trimmed(folded(typed)), '#')), "-"@);
}

/// Texts that fold alike are one tag.
pub proof fn law_tags_are_told_apart_by_their_fold(a: Seq<char>, b: Seq<char>)
    requires
        folded(a) == folded(b),
    ensures
        tag_text(a) == tag_text(b),
{
}

/// A list of texts without one of them.
pub open spec fn without(tags: Seq<Seq<char>>, tag: Seq<char>) -> Seq<Seq<char>>
    decreases tags.len(),
{
    if tags.len() == 0 {
        tags
    } else if tags.last() == tag {
        without(tags.drop_last(), tag)
    } else {
        without(tags.drop_last(), tag).push(tags.last())
    }
}

/// A book's tags after a tag was typed for it: one it has goes, one it has not
/// comes, and nothing typed changes nothing.
pub open spec fn toggled(tags: Seq<Seq<char>>, tag: Seq<char>) -> Seq<Seq<char>> {
    if tag.len() == 0 {
        tags
    } else if tags.contains(tag) {
        without(tags, tag)
    } else {
        tags.push(tag)
    }
}

/// Toggle the typed tag on a book: one key, both directions. The flag says
/// whether the book has it now.
pub fn toggle_tag(tags: &Vec<String>, typed: &str) -> (r: (Vec<String>, bool))
    ensures
        texts(r.0@) == toggled(texts(tags@), tag_text(typed@)),
        r.1 == texts(r.0@).contains(tag_text(typed@)),
{
    let tag = fold_tag(typed);
    let empty = is_empty(tag.as_str());
    let mut kept: Vec<String> = Vec::new();
    let mut had = false;
    let mut i: usize = 0;
    let ghost all = texts(tags@);
    assert(all.take(0) =~= seq![]);
    assert(texts(kept@) =~= without(all.take(0), tag@));
    while i < tags.len()
        invariant
            i <= tags.len(),
            all == texts(tags@),
            texts(kept@) == (if empty {
                all.take(i as int)
            } else {
                without(all.take(i as int), tag@)
            }),
            had == all.take(i as int).contains(tag@),
            empty == (tag@.len() == 0),
        decreases tags.len() - i,
    {
        let ghost before = kept@;
        let ghost seen = all.take(i as int);
        proof {
            assert(all.take(i + 1).drop_last() =~= seen);
            assert(all.take(i + 1) =~= seen.push(all[i as int]));
            assert(all[i as int] == tags@[i as int]@);
            if seen.contains(tag@) {
                let k = choose|k: int| 0 <= k < seen.len() && seen[k] == tag@;
                assert(all.take(i + 1)[k] == tag@);
            }
            let next = all.take(i + 1);
            if next.contains(tag@) && tags@[i as int]@ != tag@ {
                let k = choose|k: int| 0 <= k < next.len() && next[k] == tag@;
                assert(seen[k] == tag@);
            }
            assert(next[i as int] == all[i as int]);
        }
        let same = equal(tags[i].as_str(), tag.as_str());
        if same {
            had = true;
        }
        if !same || empty {
            kept.push(owned(tags[i].as_str()));
            assert(texts(kept@) =~= texts(before).push(all[i as int]));
        }
        i = i + 1;
    }
    assert(all.take(i as int) =~= all);
    if empty {
        return (kept, had);
    }
    proof {
        lemma_without(all, tag@);
    }
    if !had {
        let ghost before = kept@;
        proof {
            lemma_without_absent(all, tag@);
        }
        kept.push(tag);
        assert(texts(kept@) =~= texts(before).push(tag@));
        assert(texts(kept@).last() == tag@);
    }
    (kept, !had)
}

proof fn lemma_without(tags: Seq<Seq<char>>, tag: Seq<char>)
    ensures
        !without(tags, tag).contains(tag),
        forall|t: Seq<char>| t != tag ==> #[trigger] without(tags, tag).contains(t) == tags.contains(t),
    decreases tags.len(),
{
    if tags.len() > 0 {
        let front = tags.drop_last();
        lemma_without(front, tag);
        assert(tags =~= front.push(tags.last()));
        let w = without(front, tag);
        assert forall|t: Seq<char>| t != tag implies #[trigger] without(tags, tag).contains(t)
            == tags.contains(t) by {
            assert(w.contains(t) == front.contains(t));
            if front.contains(t) {
                let k = choose|k: int| 0 <= k < front.len() && front[k] == t;
                assert(tags[k] == t);
            }
            if w.contains(t) && tags.last() != tag {
                let k = choose|k: int| 0 <= k < w.len() && w[k] == t;
                assert(w.push(tags.last())[k] == t);
            }
            if tags.last() == t {
                assert(tags[tags.len() - 1] == t);
                assert(w.push(t)[w.len() as int] == t);
            }
        }
    }
}

proof fn lemma_without_absent(tags: Seq<Seq<char>>, tag: Seq<char>)
    requires
        !tags.contains(tag),
    ensures
        without(tags, tag) == tags,
    decreases tags.len(),
{
    if tags.len() > 0 {
        let front = tags.drop_last();
        assert(tags[tags.len() - 1] == tags.last());
        if front.contains(tag) {
            let k = choose|k: int| 0 <= k < front.len() && front[k] == tag;
            assert(tags[k] == tag);
        }
        lemma_without_absent(front, tag);
        assert(without(tags, tag) =~= tags);
    }
}

/// Typing a tag turns it on or off and leaves every other tag alone, and typing
/// it again undoes that.
pub proof fn law_a_tag_is_a_toggle(tags: Seq<Seq<char>>, tag: Seq<char>, other: Seq<char>)
    requires
        tag.len() > 0,
    ensures
        toggled(tags, tag).contains(tag) != tags.contains(tag),
        other != tag ==> toggled(tags, tag).contains(other) == tags.contains(other),
        toggled(toggled(tags, tag), tag).contains(other) == tags.contains(other),
        !tags.contains(tag) ==> toggled(toggled(tags, tag), tag) == tags,
{
    lemma_without(tags, tag);
    let once = toggled(tags, tag);
    if tags.contains(tag) {
        let back = once.push(tag);
        assert(back[once.len() as int] == tag);
        if once.contains(other) {
            let k = choose|k: int| 0 <= k < once.len() && once[k] == other;
            assert(back[k] == other);
        }
    } else {
        assert(once[tags.len() as int] == tag);
        if tags.contains(other) {
            let k = choose|k: int| 0 <= k < tags.len() && tags[k] == other;
            assert(once[k] == other);
        }
        lemma_without_absent(tags, tag);
        assert(once.drop_last() =~= tags);
    }
}

/// Is this mark the bookmark of a position?
pub open spec fn bookmarks(m: Mark, cfi: Seq<char>) -> bool {
    m.length == 0 && m.cfi@ == cfi
}

/// Is this the number of the first bookmark of a position, if it has one?
pub open spec fn bookmarked(marks: Seq<Mark>, cfi: Seq<char>, r: Option<i64>) -> bool {
    match r {
        Some(id) => exists|i: int|
            0 <= i < marks.len() && #[trigger] bookmarks(marks[i], cfi) && marks[i].id == id
                && forall|j: int| 0 <= j < i ==> !bookmarks(#[trigger] marks[j], cfi),
        None => forall|j: int| 0 <= j < marks.len() ==> !bookmarks(#[trigger] marks[j], cfi),
    }
}

/// The bookmark of a position, if it has one: what makes the key a toggle rather
/// than a duplicate.
pub fn bookmark_at(marks: &Vec<Mark>, cfi: &str) -> (r: Option<i64>)
    ensures
        bookmarked(marks@, cfi@, r),
{
    let mut i: usize = 0;
    while i < marks.len()
        invariant
            i <= marks.len(),
            forall|j: int| 0 <= j < i ==> !bookmarks(#[trigger] marks@[j], cfi@),
        decreases marks.len() - i,
    {
        if marks[i].is_bookmark() && equal(marks[i].cfi.as_str(), cfi) {
            assert(bookmarks(marks@[i as int], cfi@));
            return Some(marks[i].id);
        }
        i = i + 1;
    }
    None
}

/// What the search box completes: the tag being typed, or the one the query
/// filters by.
pub open spec fn tag_prefix(tagging: Option<&str>, query: Seq<char>) -> Option<Seq<char>> {
    match tagging {
        Some(t) => Some(t@),
        None => {
            let q = trimmed(query);
            if q.len() > 0 && q[0] == '#' {
                Some(q.drop_first())
            } else {
                None
            }
        },
    }
}

/// The tag that the search box completes, if it completes one.
pub fn completing_tag(tagging: Option<&str>, query: &str) -> (r: Option<String>)
    ensures
        match r {
            Some(t) => tag_prefix(tagging, query@) == Some(t@),
            None => tag_prefix(tagging, query@) is None,
        },
{
    match tagging {
        Some(t) => Some(owned(t)),
        None => {
            let chars = chars_of(query);
            let q = trim(&chars);
            if q.len() > 0 && q[0] == '#' {
                let rest = vstd::slice::slice_subrange(q, 1, q.len());
                assert(rest@ =~= q@.drop_first());
                Some(string_of(rest))
            } else {
                None
            }
        },
    }
}

/// A tag in use as a completion: the tag behind a hash, and how many books have
/// it.
pub fn tag_suggestion(tag: &str, count: usize) -> (r: (String, String))
    ensures
        r.0@ == "#"@ + tag@,
        r.1@ == decimal(count as nat) + " book"@ + plural_text(count as nat),
{
    let mut name = owned("#");
    name.append(tag);
    let mut hint = String::new();
    push_count(&mut hint, count);
    proof {
        assert(Seq::<char>::empty() + decimal(count as nat) =~= decimal(count as nat));
    }
    hint.append(" book");
    hint.append(plural(count));
    (name, hint)
}

/// What makes a noun plural.
pub open spec fn plural_text(n: nat) -> Seq<char> {
    if n == 1 {
        ""@
    } else {
        "s"@
    }
}

pub fn plural(n: usize) -> (r: &'static str)
    ensures
        r@ == plural_text(n as nat),
{
    if n == 1 {
        ""
    } else {
        "s"
    }
}

} // verus!
