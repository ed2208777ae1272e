//! A laid-out document as plain values.
//!
//! The nodes stand in document order, each behind its parent, the root first.
//! Boxes are relative to the parent's box; lengths are in thousandths of a CSS
//! pixel.
use crate::text::{
    byte_at, byte_count, bytes_len, chars_in, chars_of, equal, lemma_bytes_prefix, lower_all,
    lowered, number_to, owned, parse_count, string_of, text_in, trim, trimmed,
};
use vstd::prelude::*;
use vstd::slice::slice_subrange;

verus! {

/// A line of text in an element, relative to the top of its content box.
#[derive(Debug, Clone, Copy, PartialEq, Eq, Structural)]
pub struct LineBox {
    pub top: i64,
    pub bottom: i64,
    /// The byte of the element's text that the line starts at.
    pub start: usize,
}

/// The text an element lays out itself, and the lines it takes.
pub struct Inline {
    pub text: String,
    pub lines: Vec<LineBox>,
}

pub struct Element {
    pub tag: String,
    /// Names and values.
    pub attrs: Vec<(String, String)>,
    pub inline: Option<Inline>,
}

pub struct Node {
    pub parent: Option<usize>,
    pub element: Option<Element>,
    pub x: i64,
    pub y: i64,
    pub width: i64,
    pub height: i64,
    /// Left border and padding: where the content box starts.
    pub inset_x: i64,
    /// Top border and padding.
    pub inset_y: i64,
}

/// The largest length a document may hold. Lengths are 64 bits wide, and sums of a
/// few of them must be.
pub const LENGTH_MAX: i64 = 0x400_0000_0000_0000;

/// The farthest from the origin that a node may stand.
pub const REACH_MAX: i64 = 0x1000_0000_0000_0000;

pub open spec fn fits(n: i64) -> bool {
    -LENGTH_MAX <= n <= LENGTH_MAX
}

impl LineBox {
    pub open spec fn wf(&self) -> bool {
        fits(self.top) && fits(self.bottom)
    }
}

impl Node {
    pub open spec fn lines(&self) -> Seq<LineBox> {
        match self.element {
            Some(el) => match el.inline {
                Some(inline) => inline.lines@,
                None => seq![],
            },
            None => seq![],
        }
    }

    pub open spec fn wf(&self) -> bool {
        &&& fits(self.x) && fits(self.y) && fits(self.width) && fits(self.height)
        &&& fits(self.inset_x) && fits(self.inset_y)
        &&& forall|k: int| 0 <= k < self.lines().len() ==> (#[trigger] self.lines()[k]).wf()
    }
}

/// A laid-out document.
pub struct Dom {
    pub nodes: Vec<Node>,
}

/// Node `i` stands behind its parent, and only the root has none.
pub open spec fn placed(nodes: Seq<Node>, i: int) -> bool {
    match nodes[i].parent {
        Some(p) => p < i,
        None => i == 0,
    }
}

impl Dom {
    /// Every node stands behind its parent and within bounds. A node takes more than
    /// four bytes, so no machine holds more of them than are asked for here.
    pub open spec fn wf(&self) -> bool {
        &&& self.nodes@.len() <= usize::MAX / 4
        &&& forall|i: int| 0 <= i < self.nodes@.len() ==> #[trigger] placed(self.nodes@, i)
        &&& forall|i: int| 0 <= i < self.nodes@.len() ==> (#[trigger] self.nodes@[i]).wf()
        &&& forall|i: int| 0 <= i < self.nodes@.len() ==> #[trigger] near(self.nodes@, i)
    }

    /// A document of `nodes`, unless one stands before its parent, or a length or
    /// a distance from the origin is out of bounds.
    pub fn new(nodes: Vec<Node>) -> (r: Option<Dom>)
        ensures
            r is Some <==> (Dom { nodes }).wf(),
            r matches Some(d) ==> d.nodes@ == nodes@,
    {
        let dom = Dom { nodes };
        if dom.nodes.len() > usize::MAX / 4 {
            return None;
        }
        let mut xs: Vec<i64> = Vec::new();
        let mut ys: Vec<i64> = Vec::new();
        let mut i: usize = 0;
        while i < dom.nodes.len()
            invariant
                i <= dom.nodes.len(),
                dom.nodes == nodes,
                dom.nodes@.len() <= usize::MAX / 4,
                xs@.len() == i,
                ys@.len() == i,
                forall|k: int| 0 <= k < i ==> #[trigger] placed(dom.nodes@, k),
                forall|k: int| 0 <= k < i ==> (#[trigger] dom.nodes@[k]).wf(),
                forall|k: int| 0 <= k < i ==> #[trigger] near(dom.nodes@, k),
                forall|k: int| 0 <= k < i ==> #[trigger] xs@[k] == abs_x(dom.nodes@, k),
                forall|k: int| 0 <= k < i ==> #[trigger] ys@[k] == abs_y(dom.nodes@, k),
            decreases dom.nodes.len() - i,
        {
            let well = match dom.nodes[i].parent {
                Some(p) => p < i,
                None => i == 0,
            };
            if !well {
                assert(!placed(dom.nodes@, i as int));
                return None;
            }
            if !node_fits(&dom.nodes[i]) {
                assert(!dom.nodes@[i as int].wf());
                return None;
            }
            let (px, py): (i64, i64) = match dom.nodes[i].parent {
                Some(p) => {
                    assert(near(dom.nodes@, p as int));
                    (xs[p], ys[p])
                },
                None => (0, 0),
            };
            assert(dom.nodes@[i as int].wf());
            let x: i64 = px + dom.nodes[i].x;
            let y: i64 = py + dom.nodes[i].y;
            if x < -REACH_MAX || x > REACH_MAX || y < -REACH_MAX || y > REACH_MAX {
                assert(!near(dom.nodes@, i as int));
                return None;
            }
            xs.push(x);
            ys.push(y);
            i = i + 1;
        }
        Some(dom)
    }
}

fn length_fits(n: i64) -> (r: bool)
    ensures
        r == fits(n),
{
    -LENGTH_MAX <= n && n <= LENGTH_MAX
}

fn node_fits(node: &Node) -> (r: bool)
    ensures
        r == node.wf(),
{
    if !(length_fits(node.x) && length_fits(node.y) && length_fits(node.width) && length_fits(
        node.height,
    ) && length_fits(node.inset_x) && length_fits(node.inset_y)) {
        return false;
    }
    match &node.element {
        Some(el) => match &el.inline {
            Some(inline) => {
                let mut k: usize = 0;
                while k < inline.lines.len()
                    invariant
                        k <= inline.lines.len(),
                        inline.lines@ == node.lines(),
                        forall|j: int| 0 <= j < k ==> (#[trigger] inline.lines@[j]).wf(),
                    decreases inline.lines.len() - k,
                {
                    if !length_fits(inline.lines[k].top) || !length_fits(inline.lines[k].bottom) {
                        assert(!inline.lines@[k as int].wf());
                        assert(!node.lines()[k as int].wf());
                        return false;
                    }
                    k = k + 1;
                }
                true
            },
            None => true,
        },
        None => true,
    }
}

/// The sum of a length over a node and all its ancestors.
pub open spec fn abs_x(nodes: Seq<Node>, i: int) -> int
    decreases i,
{
    if 0 <= i < nodes.len() {
        nodes[i].x + match nodes[i].parent {
            Some(p) => if p < i {
                abs_x(nodes, p as int)
            } else {
                0
            },
            None => 0,
        }
    } else {
        0
    }
}

/// A node's distance from the top of the flow.
pub open spec fn abs_y(nodes: Seq<Node>, i: int) -> int
    decreases i,
{
    if 0 <= i < nodes.len() {
        nodes[i].y + match nodes[i].parent {
            Some(p) => if p < i {
                abs_y(nodes, p as int)
            } else {
                0
            },
            None => 0,
        }
    } else {
        0
    }
}

/// Node `i` stands no farther from the origin than a document may reach.
pub open spec fn near(nodes: Seq<Node>, i: int) -> bool {
    &&& -REACH_MAX <= abs_x(nodes, i) <= REACH_MAX
    &&& -REACH_MAX <= abs_y(nodes, i) <= REACH_MAX
}

/// Absolute offsets stay far from the limits of the machine.
pub proof fn lemma_abs(dom: Dom, i: int)
    requires
        dom.wf(),
        0 <= i < dom.nodes@.len(),
    ensures
        -0x1000_0000_0000_0000 <= abs_x(dom.nodes@, i) <= 0x1000_0000_0000_0000,
        -0x1000_0000_0000_0000 <= abs_y(dom.nodes@, i) <= 0x1000_0000_0000_0000,
{
    assert(near(dom.nodes@, i));
}

/// Is `i` the node `top`, or below it?
pub open spec fn within(nodes: Seq<Node>, i: int, top: int) -> bool
    decreases i,
{
    0 <= i < nodes.len() && (i == top || match nodes[i].parent {
        Some(p) => p < i && within(nodes, p as int, top),
        None => false,
    })
}

/// The first value that an element gives for an attribute.
pub open spec fn attr_in(attrs: Seq<(String, String)>, name: Seq<char>) -> Option<Seq<char>>
    decreases attrs.len(),
{
    if attrs.len() == 0 {
        None
    } else if attrs[0].0@ == name {
        Some(attrs[0].1@)
    } else {
        attr_in(attrs.drop_first(), name)
    }
}

impl Node {
    /// The first value this node gives for an attribute.
    pub open spec fn attr(&self, name: Seq<char>) -> Option<Seq<char>> {
        match self.element {
            Some(el) => attr_in(el.attrs@, name),
            None => None,
        }
    }

    pub open spec fn tag(&self) -> Option<Seq<char>> {
        match self.element {
            Some(el) => Some(el.tag@),
            None => None,
        }
    }

    /// The text the node lays out itself.
    pub open spec fn text(&self) -> Option<Seq<char>> {
        match self.element {
            Some(el) => match el.inline {
                Some(inline) => Some(inline.text@),
                None => None,
            },
            None => None,
        }
    }
}

/// The place of the first value given for an attribute.
fn attr_place(attrs: &Vec<(String, String)>, name: &str) -> (r: Option<usize>)
    ensures
        match r {
            Some(k) => k < attrs@.len() && attr_in(attrs@, name@) == Some(attrs@[k as int].1@),
            None => attr_in(attrs@, name@) is None,
        },
{
    let mut k: usize = 0;
    assert(attrs@.skip(0) =~= attrs@);
    while k < attrs.len()
        invariant
            k <= attrs.len(),
            attr_in(attrs@, name@) == attr_in(attrs@.skip(k as int), name@),
        decreases attrs.len() - k,
    {
        if equal(attrs[k].0.as_str(), name) {
            return Some(k);
        }
        proof {
            assert(attrs@.skip(k as int).drop_first() =~= attrs@.skip(k + 1));
        }
        k = k + 1;
    }
    None
}

/// The first value the node gives for an attribute.
pub fn attr_of(node: &Node, name: &str) -> (r: Option<String>)
    ensures
        r is Some == node.attr(name@) is Some,
        r matches Some(v) ==> node.attr(name@) == Some(v@),
{
    match &node.element {
        Some(el) => match attr_place(&el.attrs, name) {
            Some(k) => Some(owned(el.attrs[k].1.as_str())),
            None => None,
        },
        None => None,
    }
}

pub fn has_tag(node: &Node, tag: &str) -> (r: bool)
    ensures
        r == (node.tag() == Some(tag@)),
{
    match &node.element {
        Some(el) => equal(el.tag.as_str(), tag),
        None => false,
    }
}

impl Dom {
    /// The offsets of every node from the top of the flow.
    pub fn tops(&self) -> (r: Vec<i64>)
        requires
            self.wf(),
        ensures
            r@.len() == self.nodes@.len(),
            forall|i: int| 0 <= i < r@.len() ==> #[trigger] r@[i] == abs_y(self.nodes@, i),
    {
        let mut out: Vec<i64> = Vec::new();
        let mut i: usize = 0;
        while i < self.nodes.len()
            invariant
                self.wf(),
                i <= self.nodes.len(),
                out@.len() == i,
                forall|k: int| 0 <= k < i ==> #[trigger] out@[k] == abs_y(self.nodes@, k),
            decreases self.nodes.len() - i,
        {
            proof {
                lemma_abs(*self, i as int);
                assert(placed(self.nodes@, i as int));
            }
            let above: i64 = match self.nodes[i].parent {
                Some(p) => out[p],
                None => 0,
            };
            proof {
                assert(self.nodes@[i as int].wf());
                if let Some(p) = self.nodes@[i as int].parent {
                    lemma_abs(*self, p as int);
                }
            }
            out.push(self.nodes[i].y + above);
            i = i + 1;
        }
        out
    }

    /// Where a node's box starts.
    fn corner(&self, id: usize) -> (r: (i64, i64))
        requires
            self.wf(),
            id < self.nodes@.len(),
        ensures
            r.0 == abs_x(self.nodes@, id as int),
            r.1 == abs_y(self.nodes@, id as int),
        decreases id,
    {
        proof {
            assert(placed(self.nodes@, id as int));
            assert(self.nodes@[id as int].wf());
        }
        match self.nodes[id].parent {
            Some(p) => {
                let above = self.corner(p);
                proof {
                    lemma_abs(*self, p as int);
                }
                (self.nodes[id].x + above.0, self.nodes[id].y + above.1)
            },
            None => (self.nodes[id].x, self.nodes[id].y),
        }
    }

    /// The height of the laid-out flow: the lowest edge of any box.
    pub open spec fn flow_height(&self, n: int) -> int
        decreases n,
    {
        if n <= 0 {
            0
        } else {
            let edge = abs_y(self.nodes@, n - 1) + self.nodes@[n - 1].height;
            let rest = self.flow_height(n - 1);
            if rest < edge {
                edge
            } else {
                rest
            }
        }
    }

    /// Total height of the laid-out flow.
    pub fn content_height(&self) -> (h: i64)
        requires
            self.wf(),
        ensures
            h == self.flow_height(self.nodes@.len() as int),
    {
        let tops = self.tops();
        let mut max: i64 = 0;
        let mut i: usize = 0;
        while i < self.nodes.len()
            invariant
                self.wf(),
                i <= self.nodes.len(),
                tops@.len() == self.nodes@.len(),
                forall|k: int| 0 <= k < tops@.len() ==> #[trigger] tops@[k] == abs_y(self.nodes@, k),
                max == self.flow_height(i as int),
            decreases self.nodes.len() - i,
        {
            proof {
                lemma_abs(*self, i as int);
                assert(self.nodes@[i as int].wf());
            }
            let edge: i64 = tops[i] + self.nodes[i].height;
            if max < edge {
                max = edge;
            }
            i = i + 1;
        }
        max
    }

    /// The text of the first `n` nodes, in characters.
    pub open spec fn chars_to(&self, n: int) -> nat
        decreases n,
    {
        if n <= 0 {
            0
        } else {
            self.chars_to(n - 1) + match self.nodes@[n - 1].text() {
                Some(t) => t.len(),
                None => 0,
            }
        }
    }

    /// Lines of the first `n` nodes.
    pub open spec fn lines_to(&self, n: int) -> nat
        decreases n,
    {
        if n <= 0 {
            0
        } else {
            self.lines_to(n - 1) + self.nodes@[n - 1].lines().len()
        }
    }

    /// Line boxes across the document.
    pub fn line_count(&self) -> (n: usize)
        requires
            self.wf(),
            self.lines_to(self.nodes@.len() as int) <= usize::MAX,
        ensures
            n == self.lines_to(self.nodes@.len() as int),
    {
        let mut n: usize = 0;
        let mut i: usize = 0;
        while i < self.nodes.len()
            invariant
                i <= self.nodes.len(),
                n == self.lines_to(i as int),
                self.lines_to(self.nodes@.len() as int) <= usize::MAX,
            decreases self.nodes.len() - i,
        {
            proof {
                self.lemma_lines_grow(i + 1, self.nodes@.len() as int);
            }
            match &self.nodes[i].element {
                Some(el) => match &el.inline {
                    Some(inline) => {
                        n = n + inline.lines.len();
                    },
                    None => {},
                },
                None => {},
            }
            i = i + 1;
        }
        n
    }

    proof fn lemma_lines_grow(&self, lo: int, hi: int)
        requires
            0 <= lo <= hi <= self.nodes@.len(),
        ensures
            self.lines_to(lo) <= self.lines_to(hi),
        decreases hi,
    {
        if lo < hi {
            self.lemma_lines_grow(lo, hi - 1);
        }
    }

    proof fn lemma_chars_grow(&self, lo: int, hi: int)
        requires
            0 <= lo <= hi <= self.nodes@.len(),
        ensures
            self.chars_to(lo) <= self.chars_to(hi),
        decreases hi,
    {
        if lo < hi {
            self.lemma_chars_grow(lo, hi - 1);
        }
    }

    /// Total characters of laid-out text. Zero means nothing will paint.
    pub fn text_len(&self) -> (n: usize)
        requires
            self.wf(),
            self.chars_to(self.nodes@.len() as int) <= usize::MAX,
        ensures
            n == self.chars_to(self.nodes@.len() as int),
    {
        let mut n: usize = 0;
        let mut i: usize = 0;
        while i < self.nodes.len()
            invariant
                i <= self.nodes.len(),
                n == self.chars_to(i as int),
                self.chars_to(self.nodes@.len() as int) <= usize::MAX,
            decreases self.nodes.len() - i,
        {
            proof {
                self.lemma_chars_grow(i + 1, self.nodes@.len() as int);
            }
            match &self.nodes[i].element {
                Some(el) => match &el.inline {
                    Some(inline) => {
                        n = n + chars_of(inline.text.as_str()).len();
                    },
                    None => {},
                },
                None => {},
            }
            i = i + 1;
        }
        n
    }
}

/// Absolute offset of a node in the flow, for resolving a position to a page.
pub fn node_top(dom: &Dom, target: usize) -> (r: Option<i64>)
    requires
        dom.wf(),
    ensures
        r is Some == (target < dom.nodes@.len()),
        r matches Some(y) ==> y == abs_y(dom.nodes@, target as int),
{
    if target < dom.nodes.len() {
        Some(dom.corner(target).1)
    } else {
        None
    }
}

/// Absolute content-box origin of a node: the text inside an element starts at
/// its content box, not its border box.
pub fn node_origin(dom: &Dom, target: usize) -> (r: Option<(i64, i64)>)
    requires
        dom.wf(),
    ensures
        r is Some == (target < dom.nodes@.len()),
        r matches Some(at) ==> at.0 == abs_x(dom.nodes@, target as int) + dom.nodes@[target as int].inset_x
            && at.1 == abs_y(dom.nodes@, target as int) + dom.nodes@[target as int].inset_y,
{
    if target < dom.nodes.len() {
        let at = dom.corner(target);
        proof {
            lemma_abs(*dom, target as int);
            assert(dom.nodes@[target as int].wf());
        }
        Some((at.0 + dom.nodes[target].inset_x, at.1 + dom.nodes[target].inset_y))
    } else {
        None
    }
}

/// A box in the flow.
#[derive(Debug, Clone, Copy, PartialEq, Eq, Structural)]
pub struct Rect {
    pub x: i64,
    pub y: i64,
    pub width: i64,
    pub height: i64,
}

/// Absolute border box of a node.
pub open spec fn rect_at(nodes: Seq<Node>, i: int, r: Rect) -> bool {
    &&& r.x == abs_x(nodes, i)
    &&& r.y == abs_y(nodes, i)
    &&& r.width == nodes[i].width
    &&& r.height == nodes[i].height
}

/// Absolute border box of a node. Used to find out where a control was put, so
/// an icon can be drawn into it.
pub fn node_rect(dom: &Dom, target: usize) -> (r: Option<Rect>)
    requires
        dom.wf(),
    ensures
        r is Some == (target < dom.nodes@.len()),
        r matches Some(b) ==> rect_at(dom.nodes@, target as int, b),
{
    if target < dom.nodes.len() {
        let at = dom.corner(target);
        Some(Rect { x: at.0, y: at.1, width: dom.nodes[target].width, height: dom.nodes[target].height })
    } else {
        None
    }
}

/// The first node from `i` on that passes `p`.
pub open spec fn first_node(nodes: Seq<Node>, i: int, p: spec_fn(Node) -> bool) -> Option<int>
    decreases nodes.len() - i,
{
    if i < 0 || i >= nodes.len() {
        None
    } else if p(nodes[i]) {
        Some(i)
    } else {
        first_node(nodes, i + 1, p)
    }
}

/// Absolute box of the first element with the given tag.
pub fn element_rect(dom: &Dom, tag: &str) -> (r: Option<Rect>)
    requires
        dom.wf(),
    ensures
        match first_node(dom.nodes@, 0, |n: Node| n.tag() == Some(tag@)) {
            Some(i) => r matches Some(b) && rect_at(dom.nodes@, i, b),
            None => r is None,
        },
{
    let ghost p = |n: Node| n.tag() == Some(tag@);
    let mut i: usize = 0;
    while i < dom.nodes.len()
        invariant
            dom.wf(),
            i <= dom.nodes.len(),
            p == (|n: Node| n.tag() == Some(tag@)),
            first_node(dom.nodes@, 0, p) == first_node(dom.nodes@, i as int, p),
        decreases dom.nodes.len() - i,
    {
        if has_tag(&dom.nodes[i], tag) {
            return node_rect(dom, i);
        }
        i = i + 1;
    }
    None
}

/// Does an element give an attribute the value `value`?
pub open spec fn gives(n: Node, name: Seq<char>, value: Seq<char>) -> bool {
    n.element matches Some(el) && exists|k: int|
        0 <= k < el.attrs@.len() && (#[trigger] el.attrs@[k]).0@ == name && el.attrs@[k].1@ == value
}

fn has_attr_value(node: &Node, name: &str, value: &str) -> (r: bool)
    ensures
        r == gives(*node, name@, value@),
{
    match &node.element {
        Some(el) => {
            let mut k: usize = 0;
            while k < el.attrs.len()
                invariant
                    k <= el.attrs.len(),
                    node.element == Some(*el),
                    forall|j: int|
                        0 <= j < k ==> !((#[trigger] el.attrs@[j]).0@ == name@ && el.attrs@[j].1@ == value@),
                decreases el.attrs.len() - k,
            {
                if equal(el.attrs[k].0.as_str(), name) && equal(el.attrs[k].1.as_str(), value) {
                    assert(el.attrs@[k as int].0@ == name@ && el.attrs@[k as int].1@ == value@);
                    return true;
                }
                k = k + 1;
            }
            false
        },
        None => false,
    }
}

/// The first node from `i` on, at or below `top`, that gives an attribute the
/// value `value`.
pub open spec fn found_by_attr(
    nodes: Seq<Node>,
    top: int,
    name: Seq<char>,
    value: Seq<char>,
    i: int,
) -> Option<int>
    decreases nodes.len() - i,
{
    if i < 0 || i >= nodes.len() {
        None
    } else if within(nodes, i, top) && gives(nodes[i], name, value) {
        Some(i)
    } else {
        found_by_attr(nodes, top, name, value, i + 1)
    }
}

/// First element at or under `id` carrying `attr="value"`.
pub fn find_by_attr(dom: &Dom, id: usize, attr: &str, value: &str) -> (r: Option<usize>)
    requires
        dom.wf(),
    ensures
        match r {
            Some(i) => found_by_attr(dom.nodes@, id as int, attr@, value@, 0) == Some(i as int) && i
                < dom.nodes@.len(),
            None => found_by_attr(dom.nodes@, id as int, attr@, value@, 0) is None,
        },
{
    let mut i: usize = 0;
    while i < dom.nodes.len()
        invariant
            dom.wf(),
            i <= dom.nodes.len(),
            found_by_attr(dom.nodes@, id as int, attr@, value@, 0) == found_by_attr(
                dom.nodes@,
                id as int,
                attr@,
                value@,
                i as int,
            ),
        decreases dom.nodes.len() - i,
    {
        if has_attr_value(&dom.nodes[i], attr, value) && is_within(dom, i, id) {
            return Some(i);
        }
        i = i + 1;
    }
    None
}

/// The nearest node from `i` up that passes `p`.
pub open spec fn nearest(nodes: Seq<Node>, i: int, p: spec_fn(Node) -> bool) -> Option<int>
    decreases i,
{
    if i < 0 || i >= nodes.len() {
        None
    } else if p(nodes[i]) {
        Some(i)
    } else {
        match nodes[i].parent {
            Some(q) => if q < i {
                nearest(nodes, q as int, p)
            } else {
                None
            },
            None => None,
        }
    }
}

/// Nearest ancestor, or the node itself, that lays out text.
///
/// A selection lives in one text layout, and only the element that establishes
/// an inline formatting context has one.
pub fn text_element(dom: &Dom, id: usize) -> (r: Option<usize>)
    requires
        dom.wf(),
    ensures
        match nearest(dom.nodes@, id as int, |n: Node| n.text() is Some) {
            Some(i) => r == Some(i as usize) && 0 <= i < dom.nodes@.len(),
            None => r is None,
        },
{
    let ghost p = |n: Node| n.text() is Some;
    if id >= dom.nodes.len() {
        return None;
    }
    let mut at: usize = id;
    loop
        invariant
            dom.wf(),
            at < dom.nodes@.len(),
            p == (|n: Node| n.text() is Some),
            nearest(dom.nodes@, id as int, p) == nearest(dom.nodes@, at as int, p),
        decreases at,
    {
        proof {
            assert(placed(dom.nodes@, at as int));
        }
        let found = match &dom.nodes[at].element {
            Some(el) => el.inline.is_some(),
            None => false,
        };
        assert(found == p(dom.nodes@[at as int]));
        if found {
            return Some(at);
        }
        match dom.nodes[at].parent {
            Some(q) => {
                at = q;
            },
            None => {
                return None;
            },
        }
    }
}

/// The value that the nearest ancestor, or the node itself, gives an attribute.
pub open spec fn inherited(nodes: Seq<Node>, id: int, name: Seq<char>) -> Option<Seq<char>> {
    match nearest(nodes, id, |n: Node| n.attr(name) is Some) {
        Some(i) => nodes[i].attr(name),
        None => None,
    }
}

/// Walk up from a node to the nearest that carries an attribute.
pub fn ancestor_attr(dom: &Dom, id: usize, name: &str) -> (r: Option<String>)
    requires
        dom.wf(),
    ensures
        text_in(r) == inherited(dom.nodes@, id as int, name@),
{
    let ghost p = |n: Node| n.attr(name@) is Some;
    if id >= dom.nodes.len() {
        return None;
    }
    let mut at: usize = id;
    loop
        invariant
            dom.wf(),
            at < dom.nodes@.len(),
            p == (|n: Node| n.attr(name@) is Some),
            nearest(dom.nodes@, id as int, p) == nearest(dom.nodes@, at as int, p),
        decreases at,
    {
        proof {
            assert(placed(dom.nodes@, at as int));
        }
        let got = attr_of(&dom.nodes[at], name);
        assert(got is Some == p(dom.nodes@[at as int]));
        if got.is_some() {
            return got;
        }
        match dom.nodes[at].parent {
            Some(q) => {
                at = q;
            },
            None => {
                return None;
            },
        }
    }
}

/// An element's tag, lowercase.
pub fn tag_of(dom: &Dom, id: usize) -> (r: Option<String>)
    requires
        dom.wf(),
    ensures
        match r {
            Some(t) => id < dom.nodes@.len() && (dom.nodes@[id as int].tag() matches Some(tag) && t@ == lowered(tag)),
            None => id >= dom.nodes@.len() || dom.nodes@[id as int].tag() is None,
        },
{
    if id >= dom.nodes.len() {
        return None;
    }
    match &dom.nodes[id].element {
        Some(el) => {
            let t = chars_of(el.tag.as_str());
            let low = lower_all(&t);
            Some(string_of(&low))
        },
        None => None,
    }
}

/// The text under `top` in the nodes before `n`: each element's own, trimmed,
/// with a space before all but the first that is not empty.
pub open spec fn text_under(nodes: Seq<Node>, top: int, n: int) -> Seq<char>
    decreases n,
{
    if n <= 0 {
        seq![]
    } else {
        let before = text_under(nodes, top, n - 1);
        match nodes[n - 1].text() {
            Some(t) => if within(nodes, n - 1, top) {
                (if before.len() == 0 {
                    before
                } else {
                    before.push(' ')
                }) + trimmed(t)
            } else {
                before
            },
            None => before,
        }
    }
}

fn is_within(dom: &Dom, id: usize, top: usize) -> (r: bool)
    requires
        dom.wf(),
        id < dom.nodes@.len(),
    ensures
        r == within(dom.nodes@, id as int, top as int),
    decreases id,
{
    if id == top {
        return true;
    }
    proof {
        assert(placed(dom.nodes@, id as int));
    }
    match dom.nodes[id].parent {
        Some(p) => is_within(dom, p, top),
        None => false,
    }
}

/// All the laid-out text under a node, as one string.
pub fn text_of(dom: &Dom, id: usize) -> (r: String)
    requires
        dom.wf(),
    ensures
        r@ == trimmed(text_under(dom.nodes@, id as int, dom.nodes@.len() as int)),
{
    let mut out: Vec<char> = Vec::new();
    let mut i: usize = 0;
    assert(out@ =~= seq![]);
    while i < dom.nodes.len()
        invariant
            dom.wf(),
            i <= dom.nodes.len(),
            out@ == text_under(dom.nodes@, id as int, i as int),
        decreases dom.nodes.len() - i,
    {
        let ghost before = out@;
        match &dom.nodes[i].element {
            Some(el) => match &el.inline {
                Some(inline) => if is_within(dom, i, id) {
                    if out.len() > 0 {
                        out.push(' ');
                    }
                    let t = chars_of(inline.text.as_str());
                    let cut = trim(&t);
                    let ghost head = out@;
                    let mut k: usize = 0;
                    while k < cut.len()
                        invariant
                            k <= cut.len(),
                            out@ =~= head + cut@.take(k as int),
                        decreases cut.len() - k,
                    {
                        out.push(cut[k]);
                        k = k + 1;
                    }
                    assert(cut@.take(k as int) =~= cut@);
                },
                None => {},
            },
            None => {},
        }
        i = i + 1;
    }
    let cut = trim(&out);
    string_of(cut)
}

/// The marked elements among the nodes before `n`, each with its offset: those
/// whose `data-index` is a number.
pub open spec fn indexed_to(nodes: Seq<Node>, n: int) -> Seq<(int, int)>
    decreases n,
{
    if n <= 0 {
        seq![]
    } else {
        let before = indexed_to(nodes, n - 1);
        match nodes[n - 1].attr("data-index"@) {
            Some(v) => match number_to(v, 10, usize::MAX as nat) {
                Some(k) => before.push((k as int, abs_y(nodes, n - 1))),
                None => before,
            },
            None => before,
        }
    }
}

/// Every `data-index` element with its absolute top, in one walk.
pub fn indexed_tops(dom: &Dom) -> (r: Vec<(usize, i64)>)
    requires
        dom.wf(),
    ensures
        r@.map_values(|e: (usize, i64)| (e.0 as int, e.1 as int)) == indexed_to(
            dom.nodes@,
            dom.nodes@.len() as int,
        ),
{
    let tops = dom.tops();
    let mut out: Vec<(usize, i64)> = Vec::new();
    let mut i: usize = 0;
    let ghost f = |e: (usize, i64)| (e.0 as int, e.1 as int);
    assert(out@.map_values(f) =~= seq![]);
    while i < dom.nodes.len()
        invariant
            dom.wf(),
            i <= dom.nodes.len(),
            tops@.len() == dom.nodes@.len(),
            forall|k: int| 0 <= k < tops@.len() ==> #[trigger] tops@[k] == abs_y(dom.nodes@, k),
            f == (|e: (usize, i64)| (e.0 as int, e.1 as int)),
            out@.map_values(f) == indexed_to(dom.nodes@, i as int),
        decreases dom.nodes.len() - i,
    {
        let ghost before = out@.map_values(f);
        if let Some(v) = attr_of(&dom.nodes[i], "data-index") {
            let cs = chars_of(v.as_str());
            if let Some(k) = parse_count(&cs) {
                out.push((k, tops[i]));
                assert(out@.map_values(f) =~= before.push((k as int, tops@[i as int] as int)));
            }
        }
        i = i + 1;
    }
    out
}

/// The bytes that `len` characters from character `start` take in an element's
/// text: a stored highlight counts characters, a text layout counts bytes.
/// `None` where that is nothing.
pub fn highlight_bytes(dom: &Dom, id: usize, start: usize, len: usize) -> (r: Option<(usize, usize)>)
    requires
        dom.wf(),
        id < dom.nodes@.len() ==> (dom.nodes@[id as int].text() matches Some(t) ==> bytes_len(t)
            <= usize::MAX),
    ensures
        match r {
            Some(b) => id < dom.nodes@.len() && (dom.nodes@[id as int].text() matches Some(t) && b.0
                == byte_at(t, start as int) && b.1 == byte_at(t, start + len) && b.0 < b.1),
            None => id >= dom.nodes@.len() || dom.nodes@[id as int].text() is None || byte_at(
                dom.nodes@[id as int].text()->0,
                start + len,
            ) <= byte_at(dom.nodes@[id as int].text()->0, start as int),
        },
{
    if id >= dom.nodes.len() {
        return None;
    }
    match &dom.nodes[id].element {
        Some(el) => match &el.inline {
            Some(inline) => {
                let t = chars_of(inline.text.as_str());
                let from: usize = if start <= t.len() {
                    start
                } else {
                    t.len()
                };
                let to: usize = if len <= t.len() - from {
                    from + len
                } else {
                    t.len()
                };
                proof {
                    assert(t@.take(t@.len() as int) =~= t@);
                    lemma_bytes_prefix(t@, from as int, t@.len() as int);
                    lemma_bytes_prefix(t@, to as int, t@.len() as int);
                }
                let head = slice_subrange(t.as_slice(), 0, from);
                let both = slice_subrange(t.as_slice(), 0, to);
                proof {
                    assert(head@ =~= t@.take(from as int));
                    assert(both@ =~= t@.take(to as int));
                }
                let b0: usize = byte_count(head);
                let b1: usize = byte_count(both);
                if b1 <= b0 {
                    None
                } else {
                    Some((b0, b1))
                }
            },
            None => None,
        },
        None => None,
    }
}

/// Character offset and count for a range of bytes in an element's text, plus
/// the text itself: what a highlight has to store. `None` where the range does
/// not lie on characters of the text.
pub fn char_span(dom: &Dom, id: usize, from: usize, to: usize) -> (r: Option<(usize, usize, String)>)
    requires
        dom.wf(),
    ensures
        match r {
            Some(span) => {
                &&& id < dom.nodes@.len()
                &&& dom.nodes@[id as int].text() matches Some(t)
                &&& span.0 + span.1 <= t.len()
                &&& bytes_len(t.take(span.0 as int)) == from
                &&& bytes_len(t.take(span.0 + span.1)) == to
                &&& span.2@ == t.subrange(span.0 as int, span.0 + span.1)
            },
            None => id >= dom.nodes@.len() || (dom.nodes@[id as int].text() matches Some(t) ==> from > to
                || (forall|n: int| 0 <= n <= t.len() ==> bytes_len(#[trigger] t.take(n)) != from) || (
            forall|n: int| 0 <= n <= t.len() ==> bytes_len(#[trigger] t.take(n)) != to)),
        },
{
    if id >= dom.nodes.len() {
        return None;
    }
    match &dom.nodes[id].element {
        Some(el) => match &el.inline {
            Some(inline) => {
                let t = chars_of(inline.text.as_str());
                if from > to {
                    return None;
                }
                match (chars_in(&t, from), chars_in(&t, to)) {
                    (Some(a), Some(b)) => {
                        proof {
                            if b < a {
                                lemma_bytes_prefix(t@, b as int, a as int);
                            }
                        }
                        Some((a, b - a, string_of(slice_subrange(t.as_slice(), a, b))))
                    },
                    _ => None,
                }
            },
            None => None,
        },
        None => None,
    }
}

/// The first line that reaches below `y`.
pub open spec fn line_below(lines: Seq<LineBox>, y: int) -> Option<LineBox>
    decreases lines.len(),
{
    if lines.len() == 0 {
        None
    } else if lines[0].bottom > y {
        Some(lines[0])
    } else {
        line_below(lines.drop_first(), y)
    }
}

/// Character offset within `id` of the first character at or below `y`.
///
/// A page rarely begins where a paragraph does, so the paragraph alone can only
/// say where it started. This is the rest of the address.
pub fn char_at(dom: &Dom, id: usize, y: i64) -> (r: Option<usize>)
    requires
        dom.wf(),
    ensures
        match r {
            Some(n) => {
                &&& id < dom.nodes@.len()
                &&& dom.nodes@[id as int].text() matches Some(t)
                &&& n <= t.len()
                &&& line_below(
                    dom.nodes@[id as int].lines(),
                    y - (abs_y(dom.nodes@, id as int) + dom.nodes@[id as int].inset_y),
                ) matches Some(line)
                &&& bytes_len(t.take(n as int)) == line.start
            },
            None => id >= dom.nodes@.len() || (dom.nodes@[id as int].text() matches Some(t) ==> (
            line_below(
                dom.nodes@[id as int].lines(),
                y - (abs_y(dom.nodes@, id as int) + dom.nodes@[id as int].inset_y),
            ) matches Some(line) ==> forall|n: int|
                0 <= n <= t.len() ==> bytes_len(#[trigger] t.take(n)) != line.start)),
        },
{
    if id >= dom.nodes.len() {
        return None;
    }
    match &dom.nodes[id].element {
        Some(el) => match &el.inline {
            Some(inline) => {
                let at = dom.corner(id);
                proof {
                    lemma_abs(*dom, id as int);
                    assert(dom.nodes@[id as int].wf());
                }
                let top: i64 = at.1 + dom.nodes[id].inset_y;
                let local: i128 = (y as i128) - (top as i128);
                let mut k: usize = 0;
                assert(inline.lines@.skip(0) =~= inline.lines@);
                while k < inline.lines.len()
                    invariant
                        k <= inline.lines.len(),
                        line_below(inline.lines@, local as int) == line_below(
                            inline.lines@.skip(k as int),
                            local as int,
                        ),
                    ensures
                        k <= inline.lines.len(),
                        k < inline.lines.len() ==> line_below(inline.lines@, local as int) == Some(
                            inline.lines@[k as int],
                        ),
                        k == inline.lines.len() ==> line_below(inline.lines@, local as int) is None,
                    decreases inline.lines.len() - k,
                {
                    if (inline.lines[k].bottom as i128) > local {
                        break;
                    }
                    proof {
                        assert(inline.lines@.skip(k as int).drop_first() =~= inline.lines@.skip(k + 1));
                    }
                    k = k + 1;
                }
                if k == inline.lines.len() {
                    return None;
                }
                let t = chars_of(inline.text.as_str());
                chars_in(&t, inline.lines[k].start)
            },
            None => None,
        },
        None => None,
    }
}

} // verus!
