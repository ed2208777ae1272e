//! EPUB CFI: the structural subset a reading position needs.
//!
//! Positions anchor to a CFI rather than a page number because pages change when
//! the font size does. Structural steps only, `epubcfi(/6/N!/4/2/6)`, with an
//! optional `:offset`. No assertions, ranges or side bias.
use crate::dom::{placed, Dom, Node};
use crate::text::{
    begins, chars_of, decimal, find_char, lemma_decimal, lemma_split_first, lemma_split_none,
    number, number_to, parse_count, push_count, split, split_on, spot, stands_at, views,
};
use vstd::prelude::*;
use vstd::slice::slice_subrange;

verus! {

/// A parsed CFI: which spine item, and the element path inside it.
#[derive(Debug, Clone, PartialEq, Eq)]
pub struct Cfi {
    /// Zero-based spine index.
    pub spine: usize,
    /// Element steps inside the content document, in CFI numbering (2 = first
    /// element child, 4 = second, and so on).
    pub steps: Vec<usize>,
    /// Character offset into a text node, when present.
    pub offset: Option<usize>,
}

impl View for Cfi {
    type V = (usize, Seq<usize>, Option<usize>);

    open spec fn view(&self) -> (usize, Seq<usize>, Option<usize>) {
        (self.spine, self.steps@, self.offset)
    }
}

/// Each step behind a slash.
pub open spec fn steps_text(steps: Seq<usize>) -> Seq<char>
    decreases steps.len(),
{
    if steps.len() == 0 {
        seq![]
    } else {
        "/"@ + decimal(steps[0] as nat) + steps_text(steps.drop_first())
    }
}

/// A character offset behind a colon.
pub open spec fn offset_text(offset: Option<usize>) -> Seq<char> {
    match offset {
        Some(o) => ":"@ + decimal(o as nat),
        None => seq![],
    }
}

/// A CFI as text.
pub open spec fn cfi_text(spine: nat, steps: Seq<usize>, offset: Option<usize>) -> Seq<char> {
    "epubcfi(/6/"@ + decimal((spine + 1) * 2) + "!"@ + steps_text(steps) + offset_text(offset)
        + ")"@
}

/// The number that a piece of a path spells.
pub open spec fn piece_number(p: Seq<char>) -> Option<usize> {
    match number_to(p, 10, usize::MAX as nat) {
        Some(n) => Some(n as usize),
        None => None,
    }
}

/// The numbers that the pieces spell, the empty ones left out.
pub open spec fn piece_numbers(pieces: Seq<Seq<char>>) -> Option<Seq<usize>>
    decreases pieces.len(),
{
    if pieces.len() == 0 {
        Some(seq![])
    } else {
        match piece_numbers(pieces.drop_last()) {
            Some(ns) => if pieces.last().len() == 0 {
                Some(ns)
            } else {
                match piece_number(pieces.last()) {
                    Some(n) => Some(ns.push(n)),
                    None => None,
                }
            },
            None => None,
        }
    }
}

/// The last piece that is not empty.
pub open spec fn last_piece(pieces: Seq<Seq<char>>) -> Option<Seq<char>>
    decreases pieces.len(),
{
    if pieces.len() == 0 {
        None
    } else if pieces.last().len() > 0 {
        Some(pieces.last())
    } else {
        last_piece(pieces.drop_last())
    }
}

/// The spine item that a package path names: half its last step, counted from 0.
pub open spec fn spine_of(path: Seq<char>) -> Option<usize> {
    match last_piece(split(path, '/')) {
        Some(p) => match piece_number(p) {
            Some(n) if n >= 2 => Some((n / 2 - 1) as usize),
            _ => None,
        },
        None => None,
    }
}

/// The steps and the offset that a document path names.
pub open spec fn document_path(path: Seq<char>) -> Option<(Seq<usize>, Option<usize>)> {
    let (front, offset) = match spot(path, ':') {
        Some(i) => (path.take(i), Some(piece_number(path.skip(i + 1)))),
        None => (path, None),
    };
    match piece_numbers(split(front, '/')) {
        Some(steps) if steps.len() > 0 => match offset {
            Some(Some(o)) => Some((steps, Some(o))),
            Some(None) => None,
            None => Some((steps, None)),
        },
        _ => None,
    }
}

/// What a CFI's text means.
pub open spec fn parsed(s: Seq<char>) -> Option<(usize, Seq<usize>, Option<usize>)> {
    let open = "epubcfi("@;
    let tail = s.skip(open.len() as int);
    if !stands_at(s, open, 0) || tail.len() == 0 || tail.last() != ')' {
        None
    } else {
        let inner = tail.drop_last();
        match spot(inner, '!') {
            Some(i) => match (spine_of(inner.take(i)), document_path(inner.skip(i + 1))) {
                (Some(spine), Some((steps, offset))) => Some((spine, steps, offset)),
                _ => None,
            },
            None => None,
        }
    }
}

fn read_piece(p: &[char]) -> (r: Option<usize>)
    ensures
        r == piece_number(p@),
{
    parse_count(p)
}

fn read_spine(path: &[char]) -> (r: Option<usize>)
    ensures
        r == spine_of(path@),
{
    let pieces = split_on(path, '/');
    let mut n: usize = pieces.len();
    let ghost all = views(pieces@);
    assert(all.take(n as int) =~= all);
    while n > 0 && pieces[n - 1].len() == 0
        invariant
            n <= pieces.len(),
            all == views(pieces@),
            last_piece(all) == last_piece(all.take(n as int)),
        decreases n,
    {
        proof {
            assert(all.take(n as int).last() == pieces@[n - 1]@);
            assert(all.take(n as int).drop_last() =~= all.take(n - 1));
        }
        n = n - 1;
    }
    if n == 0 {
        return None;
    }
    proof {
        assert(all.take(n as int).last() == pieces@[n - 1]@);
    }
    match read_piece(&pieces[n - 1]) {
        Some(step) => if step >= 2 {
            Some(step / 2 - 1)
        } else {
            None
        },
        None => None,
    }
}

fn read_steps(path: &[char]) -> (r: Option<Vec<usize>>)
    ensures
        match r {
            Some(v) => piece_numbers(split(path@, '/')) == Some(v@),
            None => piece_numbers(split(path@, '/')) is None,
        },
{
    let pieces = split_on(path, '/');
    let ghost all = views(pieces@);
    let mut out: Vec<usize> = Vec::new();
    let mut i: usize = 0;
    assert(all.take(0) =~= seq![]);
    assert(out@ =~= seq![]);
    while i < pieces.len()
        invariant
            i <= pieces.len(),
            all == views(pieces@),
            all == split(path@, '/'),
            piece_numbers(all.take(i as int)) == Some(out@),
        decreases pieces.len() - i,
    {
        proof {
            assert(all.take(i + 1).drop_last() =~= all.take(i as int));
            assert(all.take(i + 1).last() == pieces@[i as int]@);
        }
        if pieces[i].len() > 0 {
            match read_piece(&pieces[i]) {
                Some(n) => {
                    out.push(n);
                },
                None => {
                    proof {
                        lemma_numbers_none(all, i + 1);
                    }
                    return None;
                },
            }
        }
        i = i + 1;
    }
    assert(all.take(i as int) =~= all);
    Some(out)
}

proof fn lemma_numbers_none(pieces: Seq<Seq<char>>, k: int)
    requires
        0 <= k <= pieces.len(),
        piece_numbers(pieces.take(k)) is None,
    ensures
        piece_numbers(pieces) is None,
    decreases pieces.len() - k,
{
    if k == pieces.len() {
        assert(pieces.take(k) =~= pieces);
    } else {
        assert(pieces.take(k + 1).drop_last() =~= pieces.take(k));
        lemma_numbers_none(pieces, k + 1);
    }
}

impl Cfi {
    /// The CFI as text.
    pub fn to_string(&self) -> (s: String)
        requires
            (self.spine + 1) * 2 <= usize::MAX,
        ensures
            s@ == cfi_text(self.spine as nat, self.steps@, self.offset),
    {
        let mut s = String::new();
        s.append("epubcfi(/6/");
        push_count(&mut s, (self.spine + 1) * 2);
        s.append("!");
        let ghost head = s@;
        let mut i: usize = 0;
        proof {
            assert(self.steps@.skip(0) =~= self.steps@);
        }
        while i < self.steps.len()
            invariant
                i <= self.steps.len(),
                head + steps_text(self.steps@) == s@ + steps_text(self.steps@.skip(i as int)),
            decreases self.steps.len() - i,
        {
            let ghost before = s@;
            s.append("/");
            push_count(&mut s, self.steps[i]);
            proof {
                let rest = self.steps@.skip(i as int);
                assert(rest.drop_first() =~= self.steps@.skip(i + 1));
                assert(before + steps_text(rest) =~= s@ + steps_text(self.steps@.skip(i + 1)));
            }
            i = i + 1;
        }
        proof {
            assert(s@ + steps_text(self.steps@.skip(i as int)) =~= s@);
        }
        if let Some(o) = self.offset {
            s.append(":");
            push_count(&mut s, o);
        }
        s.append(")");
        proof {
            assert(s@ =~= cfi_text(self.spine as nat, self.steps@, self.offset));
        }
        s
    }

    /// Reads a CFI from its text.
    pub fn parse(s: &str) -> (r: Option<Self>)
        ensures
            match r {
                Some(c) => parsed(s@) == Some(c@),
                None => parsed(s@) is None,
            },
    {
        let chars = chars_of(s);
        let all = chars.as_slice();
        if !begins(all, "epubcfi(") {
            return None;
        }
        let open: usize = chars_of("epubcfi(").len();
        if all.len() <= open || all[all.len() - 1] != ')' {
            return None;
        }
        let inner = slice_subrange(all, open, all.len() - 1);
        proof {
            assert(inner@ =~= s@.skip("epubcfi("@.len() as int).drop_last());
        }
        match find_char(inner, '!') {
            Some(i) => {
                let front = slice_subrange(inner, 0, i);
                let doc = slice_subrange(inner, i + 1, inner.len());
                proof {
                    assert(front@ =~= inner@.take(i as int));
                    assert(doc@ =~= inner@.skip(i + 1));
                }
                let spine = match read_spine(front) {
                    Some(n) => n,
                    None => {
                        return None;
                    },
                };
                let (path, tail): (&[char], Option<&[char]>) = match find_char(doc, ':') {
                    Some(k) => {
                        let p = slice_subrange(doc, 0, k);
                        let o = slice_subrange(doc, k + 1, doc.len());
                        proof {
                            assert(p@ =~= doc@.take(k as int));
                            assert(o@ =~= doc@.skip(k + 1));
                        }
                        (p, Some(o))
                    },
                    None => (doc, None),
                };
                let offset: Option<usize> = match tail {
                    Some(o) => match read_piece(o) {
                        Some(n) => Some(n),
                        None => {
                            return None;
                        },
                    },
                    None => None,
                };
                match read_steps(path) {
                    Some(steps) => if steps.len() > 0 {
                        Some(Cfi { spine, steps, offset })
                    } else {
                        None
                    },
                    None => None,
                }
            },
            None => None,
        }
    }
}

/// Is node `i` an element right below node `p`?
pub open spec fn element_child(nodes: Seq<Node>, p: int, i: int) -> bool {
    nodes[i].element is Some && (nodes[i].parent matches Some(q) && q == p)
}

/// How many of the nodes before `n` are elements right below node `p`.
pub open spec fn children_before(nodes: Seq<Node>, p: int, n: int) -> nat
    decreases n,
{
    if n <= 0 {
        0
    } else {
        children_before(nodes, p, n - 1) + if element_child(nodes, p, n - 1) {
            1nat
        } else {
            0nat
        }
    }
}

/// The element with `k` others before it among those right below node `p`, from
/// node `i` on.
pub open spec fn child_from(nodes: Seq<Node>, p: int, k: nat, i: int) -> Option<int>
    decreases nodes.len() - i,
{
    if i < 0 || i >= nodes.len() {
        None
    } else if !element_child(nodes, p, i) {
        child_from(nodes, p, k, i + 1)
    } else if k == 0 {
        Some(i)
    } else {
        child_from(nodes, p, (k - 1) as nat, i + 1)
    }
}

/// The steps from the root to node `i`: each the place of an element among the
/// elements right below its parent, counted from 1 and doubled.
pub open spec fn steps_to(nodes: Seq<Node>, i: int) -> Option<Seq<usize>>
    decreases i,
{
    if i < 0 || i >= nodes.len() {
        None
    } else {
        match nodes[i].parent {
            None => Some(seq![]),
            Some(p) => if p < i && nodes[i].element is Some {
                match steps_to(nodes, p as int) {
                    Some(s) => Some(
                        s.push(((children_before(nodes, p as int, i) + 1) * 2) as usize),
                    ),
                    None => None,
                }
            } else {
                None
            },
        }
    }
}

/// The node that steps from the root lead to.
pub open spec fn reached(nodes: Seq<Node>, steps: Seq<usize>) -> Option<int>
    decreases steps.len(),
{
    if steps.len() == 0 {
        if nodes.len() > 0 {
            Some(0)
        } else {
            None
        }
    } else {
        match reached(nodes, steps.drop_last()) {
            Some(at) => if steps.last() < 2 {
                None
            } else {
                child_from(nodes, at, (steps.last() / 2 - 1) as nat, 0)
            },
            None => None,
        }
    }
}

/// The place of `id` among the elements right below `parent`.
fn element_place(dom: &Dom, parent: usize, id: usize) -> (n: usize)
    requires
        id < dom.nodes@.len(),
    ensures
        n == children_before(dom.nodes@, parent as int, id as int),
        n <= id,
{
    let mut n: usize = 0;
    let mut i: usize = 0;
    while i < id
        invariant
            i <= id,
            id < dom.nodes@.len(),
            n == children_before(dom.nodes@, parent as int, i as int),
            n <= i,
        decreases id - i,
    {
        if is_element_child(dom, parent, i) {
            n = n + 1;
        }
        i = i + 1;
    }
    n
}

fn is_element_child(dom: &Dom, parent: usize, id: usize) -> (r: bool)
    requires
        id < dom.nodes@.len(),
    ensures
        r == element_child(dom.nodes@, parent as int, id as int),
{
    dom.nodes[id].element.is_some() && match dom.nodes[id].parent {
        Some(q) => q == parent,
        None => false,
    }
}

fn path_to(dom: &Dom, id: usize) -> (r: Option<Vec<usize>>)
    requires
        dom.wf(),
        id < dom.nodes@.len(),
    ensures
        match r {
            Some(v) => steps_to(dom.nodes@, id as int) == Some(v@),
            None => steps_to(dom.nodes@, id as int) is None,
        },
    decreases id,
{
    proof {
        assert(placed(dom.nodes@, id as int));
    }
    match dom.nodes[id].parent {
        None => Some(Vec::new()),
        Some(p) => {
            if dom.nodes[id].element.is_none() {
                return None;
            }
            match path_to(dom, p) {
                Some(mut steps) => {
                    let n: usize = element_place(dom, p, id);
                    steps.push((n + 1) * 2);
                    Some(steps)
                },
                None => None,
            }
        },
    }
}

/// Build a CFI for a node in a laid-out document: the elements on the way to it
/// from the root. `None` for the root, for a node that is not there, and where
/// something on the way is no element.
pub fn of_node(dom: &Dom, node_id: usize, spine: usize) -> (r: Option<Cfi>)
    requires
        dom.wf(),
    ensures
        match r {
            Some(c) => c.spine == spine && c.offset is None && c.steps@.len() > 0 && steps_to(
                dom.nodes@,
                node_id as int,
            ) == Some(c.steps@),
            None => steps_to(dom.nodes@, node_id as int) matches Some(s) ==> s.len() == 0,
        },
{
    if node_id >= dom.nodes.len() {
        return None;
    }
    match path_to(dom, node_id) {
        Some(steps) => if steps.len() == 0 {
            None
        } else {
            Some(Cfi { spine, steps, offset: None })
        },
        None => None,
    }
}

fn nth_child(dom: &Dom, parent: usize, nth: usize) -> (r: Option<usize>)
    ensures
        match r {
            Some(i) => child_from(dom.nodes@, parent as int, nth as nat, 0) == Some(i as int) && i
                < dom.nodes@.len(),
            None => child_from(dom.nodes@, parent as int, nth as nat, 0) is None,
        },
{
    let mut left: usize = nth;
    let mut i: usize = 0;
    while i < dom.nodes.len()
        invariant
            i <= dom.nodes.len(),
            child_from(dom.nodes@, parent as int, nth as nat, 0) == child_from(
                dom.nodes@,
                parent as int,
                left as nat,
                i as int,
            ),
        decreases dom.nodes.len() - i,
    {
        if is_element_child(dom, parent, i) {
            if left == 0 {
                return Some(i);
            }
            left = left - 1;
        }
        i = i + 1;
    }
    None
}

/// Walk a CFI's steps back to a node id.
pub fn resolve(dom: &Dom, cfi: &Cfi) -> (r: Option<usize>)
    requires
        dom.wf(),
    ensures
        match r {
            Some(i) => reached(dom.nodes@, cfi.steps@) == Some(i as int),
            None => reached(dom.nodes@, cfi.steps@) is None,
        },
{
    if dom.nodes.len() == 0 {
        proof {
            lemma_reached_none(dom.nodes@, cfi.steps@, 0);
        }
        return None;
    }
    let mut id: usize = 0;
    let mut k: usize = 0;
    assert(cfi.steps@.take(0) =~= seq![]);
    while k < cfi.steps.len()
        invariant
            k <= cfi.steps.len(),
            reached(dom.nodes@, cfi.steps@.take(k as int)) == Some(id as int),
        decreases cfi.steps.len() - k,
    {
        proof {
            assert(cfi.steps@.take(k + 1).drop_last() =~= cfi.steps@.take(k as int));
        }
        let step: usize = cfi.steps[k];
        let next = if step < 2 {
            None
        } else {
            nth_child(dom, id, step / 2 - 1)
        };
        match next {
            Some(i) => {
                id = i;
            },
            None => {
                proof {
                    lemma_reached_none(dom.nodes@, cfi.steps@, k + 1);
                }
                return None;
            },
        }
        k = k + 1;
    }
    assert(cfi.steps@.take(k as int) =~= cfi.steps@);
    Some(id)
}

proof fn lemma_reached_none(nodes: Seq<Node>, steps: Seq<usize>, k: int)
    requires
        0 <= k <= steps.len(),
        reached(nodes, steps.take(k)) is None,
    ensures
        reached(nodes, steps) is None,
    decreases steps.len() - k,
{
    if k == steps.len() {
        assert(steps.take(k) =~= steps);
    } else {
        assert(steps.take(k + 1).drop_last() =~= steps.take(k));
        lemma_reached_none(nodes, steps, k + 1);
    }
}

proof fn lemma_child_from(nodes: Seq<Node>, p: int, k: nat, i: int, n: int)
    requires
        0 <= i <= n < nodes.len(),
        element_child(nodes, p, n),
        children_before(nodes, p, n) == children_before(nodes, p, i) + k,
    ensures
        child_from(nodes, p, k, i) == Some(n),
    decreases n - i,
{
    if i < n {
        lemma_children_grow(nodes, p, i + 1, n);
        if element_child(nodes, p, i) {
            lemma_child_from(nodes, p, (k - 1) as nat, i + 1, n);
        } else {
            lemma_child_from(nodes, p, k, i + 1, n);
        }
    }
}

proof fn lemma_children_grow(nodes: Seq<Node>, p: int, lo: int, hi: int)
    requires
        0 <= lo <= hi,
    ensures
        children_before(nodes, p, lo) <= children_before(nodes, p, hi) <= children_before(nodes, p, lo) + (hi - lo),
    decreases hi,
{
    if lo < hi {
        lemma_children_grow(nodes, p, lo, hi - 1);
    }
}

proof fn lemma_child_is(nodes: Seq<Node>, p: int, k: nat, i: int)
    requires
        0 <= i <= nodes.len(),
    ensures
        child_from(nodes, p, k, i) matches Some(n) ==> i <= n < nodes.len() && element_child(nodes, p, n)
            && children_before(nodes, p, n) == children_before(nodes, p, i) + k,
    decreases nodes.len() - i,
{
    if i < nodes.len() {
        if !element_child(nodes, p, i) {
            lemma_child_is(nodes, p, k, i + 1);
        } else if k > 0 {
            lemma_child_is(nodes, p, (k - 1) as nat, i + 1);
        }
    }
}

/// A node's own CFI leads back to it.
pub proof fn law_a_nodes_cfi_leads_back_to_it(dom: Dom, i: int)
    requires
        dom.wf(),
        steps_to(dom.nodes@, i) is Some,
    ensures
        reached(dom.nodes@, steps_to(dom.nodes@, i)->0) == Some(i),
    decreases i,
{
    let nodes = dom.nodes@;
    assert(placed(nodes, i));
    if let Some(p) = nodes[i].parent {
        law_a_nodes_cfi_leads_back_to_it(dom, p as int);
        let front = steps_to(nodes, p as int)->0;
        let k = children_before(nodes, p as int, i);
        lemma_children_grow(nodes, p as int, 0, i);
        let steps = steps_to(nodes, i)->0;
        assert(steps.drop_last() =~= front);
        lemma_child_from(nodes, p as int, k, 0, i);
    }
}

/// The same elements in the same places, whatever their layout.
pub open spec fn same_tree(a: Seq<Node>, b: Seq<Node>) -> bool {
    a.len() == b.len() && forall|i: int|
        0 <= i < a.len() ==> (#[trigger] a[i]).parent == b[i].parent && a[i].element is Some == b[i].element is Some
}

proof fn lemma_same_children(a: Seq<Node>, b: Seq<Node>, p: int, n: int)
    requires
        same_tree(a, b),
        n <= a.len(),
    ensures
        children_before(a, p, n) == children_before(b, p, n),
    decreases n,
{
    if n > 0 {
        assert(a[n - 1].parent == b[n - 1].parent);
        lemma_same_children(a, b, p, n - 1);
    }
}

proof fn lemma_same_steps(a: Seq<Node>, b: Seq<Node>, i: int)
    requires
        same_tree(a, b),
    ensures
        steps_to(a, i) == steps_to(b, i),
    decreases i,
{
    if 0 <= i < a.len() {
        assert(a[i].parent == b[i].parent);
        if let Some(p) = a[i].parent {
            if p < i {
                lemma_same_steps(a, b, p as int);
                lemma_same_children(a, b, p as int, i);
            }
        }
    }
}

/// A saved position survives a reflow: a node's CFI, made in one layout of a
/// document, leads to the same node in any other.
pub proof fn law_a_position_survives_a_reflow(before: Dom, after: Dom, i: int)
    requires
        before.wf(),
        after.wf(),
        same_tree(before.nodes@, after.nodes@),
        steps_to(before.nodes@, i) is Some,
    ensures
        reached(after.nodes@, steps_to(before.nodes@, i)->0) == Some(i),
{
    lemma_same_steps(before.nodes@, after.nodes@, i);
    law_a_nodes_cfi_leads_back_to_it(after, i);
}

/// Steps in CFI numbering, each even, that lead to a node are that node's own.
pub proof fn law_steps_that_lead_to_a_node_are_its_cfi(dom: Dom, steps: Seq<usize>)
    requires
        dom.wf(),
        reached(dom.nodes@, steps) is Some,
        forall|k: int| 0 <= k < steps.len() ==> #[trigger] steps[k] % 2 == 0,
    ensures
        steps_to(dom.nodes@, reached(dom.nodes@, steps)->0) == Some(steps),
    decreases steps.len(),
{
    let nodes = dom.nodes@;
    if steps.len() == 0 {
        assert(placed(nodes, 0));
        assert(steps =~= seq![]);
    } else {
        let front = steps.drop_last();
        assert forall|k: int| 0 <= k < front.len() implies #[trigger] front[k] % 2 == 0 by {
            assert(steps[k] % 2 == 0);
        }
        law_steps_that_lead_to_a_node_are_its_cfi(dom, front);
        let at = reached(nodes, front)->0;
        let k = (steps.last() / 2 - 1) as nat;
        lemma_child_is(nodes, at, k, 0);
        let i = reached(nodes, steps)->0;
        assert(placed(nodes, i));
        assert(steps[steps.len() - 1] % 2 == 0);
        assert(front.push(steps.last()) =~= steps);
    }
}

proof fn lemma_plain(n: nat, c: char)
    requires
        !(48 <= c as u32 <= 57),
    ensures
        forall|i: int| 0 <= i < decimal(n).len() ==> decimal(n)[i] != c,
{
    lemma_decimal(n);
}

proof fn lemma_piece(n: usize)
    ensures
        piece_number(decimal(n as nat)) == Some(n),
        decimal(n as nat).len() > 0,
{
    crate::text::law_numbers_round_trip(n as nat, usize::MAX as nat);
    lemma_decimal(n as nat);
}

proof fn lemma_steps_free(steps: Seq<usize>, c: char)
    requires
        c != '/',
        !(48 <= c as u32 <= 57),
    ensures
        forall|i: int| 0 <= i < steps_text(steps).len() ==> steps_text(steps)[i] != c,
    decreases steps.len(),
{
    if steps.len() > 0 {
        reveal_strlit("/");
        lemma_plain(steps[0] as nat, c);
        lemma_steps_free(steps.drop_first(), c);
        let d = decimal(steps[0] as nat);
        let rest = steps_text(steps.drop_first());
        assert forall|i: int| 0 <= i < steps_text(steps).len() implies steps_text(steps)[i] != c by {
            if i == 0 {
            } else if i < 1 + d.len() {
                assert(steps_text(steps)[i] == d[i - 1]);
            } else {
                assert(steps_text(steps)[i] == rest[i - 1 - d.len()]);
            }
        }
    }
}

/// The decimal text of each step.
spec fn step_pieces(steps: Seq<usize>) -> Seq<Seq<char>> {
    steps.map_values(|n: usize| decimal(n as nat))
}

proof fn lemma_steps_split(a: Seq<char>, steps: Seq<usize>)
    requires
        forall|i: int| 0 <= i < a.len() ==> a[i] != '/',
    ensures
        split(a + steps_text(steps), '/') == seq![a] + step_pieces(steps),
    decreases steps.len(),
{
    if steps.len() == 0 {
        assert(a + steps_text(steps) =~= a);
        lemma_split_none(a, '/');
        assert(seq![a] + step_pieces(steps) =~= seq![a]);
    } else {
        reveal_strlit("/");
        let d = decimal(steps[0] as nat);
        let rest = steps.drop_first();
        lemma_plain(steps[0] as nat, '/');
        assert(a + steps_text(steps) =~= a.push('/') + (d + steps_text(rest)));
        lemma_split_first(a, '/', d + steps_text(rest));
        lemma_steps_split(d, rest);
        assert(seq![a] + (seq![d] + step_pieces(rest)) =~= seq![a] + step_pieces(steps));
    }
}

proof fn lemma_step_numbers(steps: Seq<usize>)
    ensures
        piece_numbers(seq![Seq::<char>::empty()] + step_pieces(steps)) == Some(steps),
    decreases steps.len(),
{
    let all = seq![Seq::<char>::empty()] + step_pieces(steps);
    if steps.len() == 0 {
        assert(all =~= seq![Seq::<char>::empty()]);
        assert(all.drop_last() =~= seq![]);
        reveal_with_fuel(piece_numbers, 2);
    } else {
        let front = steps.drop_last();
        lemma_step_numbers(front);
        lemma_piece(steps.last());
        assert(all.drop_last() =~= seq![Seq::<char>::empty()] + step_pieces(front));
        assert(all.last() == decimal(steps.last() as nat));
        assert(front.push(steps.last()) =~= steps);
    }
}

/// The path to a spine item in the package document.
spec fn package_path(spine: nat) -> Seq<char> {
    seq!['/', '6', '/'] + decimal((spine + 1) * 2)
}

proof fn lemma_package_path(spine: usize)
    requires
        (spine + 1) * 2 <= usize::MAX,
    ensures
        spine_of(package_path(spine as nat)) == Some(spine),
        forall|i: int|
            0 <= i < package_path(spine as nat).len() ==> package_path(spine as nat)[i] != '!',
{
    let n = (spine + 1) * 2;
    let d = decimal(n as nat);
    let path = package_path(spine as nat);
    lemma_plain(n as nat, '!');
    lemma_plain(n as nat, '/');
    assert forall|i: int| 0 <= i < path.len() implies path[i] != '!' by {
        if i >= 3 {
            assert(path[i] == d[i - 3]);
        }
    }
    let none = Seq::<char>::empty();
    let six = seq!['6'];
    assert(path =~= none.push('/') + (six.push('/') + d));
    lemma_split_first(none, '/', six.push('/') + d);
    lemma_split_first(six, '/', d);
    lemma_split_none(d, '/');
    assert(split(path, '/') =~= seq![none, six, d]);
    lemma_piece(n as usize);
    assert(last_piece(seq![none, six, d]) == Some(d));
}

proof fn lemma_document_path(steps: Seq<usize>, offset: Option<usize>)
    requires
        steps.len() > 0,
    ensures
        document_path(steps_text(steps) + offset_text(offset)) == Some((steps, offset)),
{
    reveal_strlit(":");
    let body = steps_text(steps);
    let doc = body + offset_text(offset);
    let none = Seq::<char>::empty();
    lemma_steps_free(steps, ':');
    match offset {
        Some(o) => {
            assert(doc =~= body.push(':') + decimal(o as nat));
            lemma_split_first(body, ':', decimal(o as nat));
            assert(doc.take(body.len() as int) =~= body);
            assert(doc.skip(body.len() as int + 1) =~= decimal(o as nat));
            lemma_piece(o);
        },
        None => {
            assert(doc =~= body);
            lemma_split_none(body, ':');
        },
    }
    assert(none + body =~= body);
    lemma_steps_split(none, steps);
    lemma_step_numbers(steps);
}

/// A position survives being written down: reading a CFI's text gives back the
/// spine item, the steps and the offset.
pub proof fn law_cfi_round_trips_through_text(spine: usize, steps: Seq<usize>, offset: Option<usize>)
    requires
        steps.len() > 0,
        (spine + 1) * 2 <= usize::MAX,
    ensures
        parsed(cfi_text(spine as nat, steps, offset)) == Some((spine, steps, offset)),
{
    reveal_strlit("epubcfi(/6/");
    reveal_strlit("epubcfi(");
    reveal_strlit("!");
    reveal_strlit(")");
    let s = cfi_text(spine as nat, steps, offset);
    let path = package_path(spine as nat);
    let doc = steps_text(steps) + offset_text(offset);
    let tail = s.skip(8);
    assert(s.subrange(0, 8) =~= "epubcfi("@);
    assert(tail.last() == ')');
    let inner = tail.drop_last();
    assert(inner =~= path.push('!') + doc);
    lemma_package_path(spine);
    lemma_split_first(path, '!', doc);
    assert(inner.take(path.len() as int) =~= path);
    assert(inner.skip(path.len() as int + 1) =~= doc);
    lemma_document_path(steps, offset);
}

} // verus!
