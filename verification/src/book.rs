//! An open book: its spine, its name and its contents.
//!
//! Spine references are absolute, slash-prefixed archive paths; the leading
//! slash is kept end to end.
use crate::text::{chars_of, decimal, owned, push_count, trim, trimmed};
use crate::readout::{percent, rounded_percent};
use vstd::prelude::*;

verus! {

/// An entry of a list that leads into a book: a contents entry, a search hit or
/// a mark.
#[derive(Debug, Clone)]
pub struct TocEntry {
    pub label: String,
    pub depth: usize,
    /// The spine item it leads to.
    pub spine: usize,
    /// An element of that item to go to.
    pub fragment: Option<String>,
    /// A text in that item to go to.
    pub find: Option<String>,
    /// A position to go to.
    pub cfi: Option<String>,
}

/// A book without its archive.
pub struct Book {
    /// Spine references, in reading order.
    pub spine: Vec<String>,
    /// The length in bytes of each spine item.
    pub weights: Vec<u64>,
    pub title: String,
    pub author: String,
    pub language: String,
    pub toc: Vec<TocEntry>,
}

/// Why a book cannot be read.
#[derive(Debug, Clone, Copy, PartialEq, Eq, Structural)]
pub enum BookError {
    /// Nothing in it is meant to be read.
    EmptySpine,
    /// It has no such spine item.
    NoSpineItem(usize),
}

impl BookError {
    pub open spec fn text(self) -> Seq<char> {
        match self {
            BookError::EmptySpine => "epub has an empty spine"@,
            BookError::NoSpineItem(i) => "no spine item "@ + decimal(i as nat),
        }
    }

    /// The error in words.
    pub fn message(self) -> (r: String)
        ensures
            r@ == self.text(),
    {
        match self {
            BookError::EmptySpine => owned("epub has an empty spine"),
            BookError::NoSpineItem(i) => {
                let mut out = owned("no spine item ");
                push_count(&mut out, i);
                out
            },
        }
    }
}

/// A book's name: its title, else the name of its file, else "Untitled".
pub open spec fn named(title: Option<String>, stem: Option<String>) -> Seq<char> {
    match title {
        Some(t) => t@,
        None => match stem {
            Some(s) => s@,
            None => "Untitled"@,
        },
    }
}

/// A book's name: its title, else the name of its file, else "Untitled".
pub fn name_book(title: Option<String>, stem: Option<String>) -> (r: String)
    ensures
        r@ == named(title, stem),
{
    match title {
        Some(t) => t,
        None => match stem {
            Some(s) => s,
            None => owned("Untitled"),
        },
    }
}

/// A title that says something.
pub open spec fn worded(title: Option<String>) -> Option<String> {
    match title {
        Some(t) => if trimmed(t@).len() > 0 {
            Some(t)
        } else {
            None
        },
        None => None,
    }
}

/// The name a book is catalogued under: a blank title does not count as one.
pub fn catalogue_title(title: Option<String>, stem: Option<String>) -> (r: String)
    ensures
        r@ == named(worded(title), stem),
{
    let said = match title {
        Some(t) => {
            let chars = chars_of(t.as_str());
            if trim(&chars).len() > 0 {
                Some(t)
            } else {
                None
            }
        },
        None => None,
    };
    name_book(said, stem)
}

/// The sum of the first `n` weights.
pub open spec fn weight_to(weights: Seq<u64>, n: int) -> nat
    decreases n,
{
    if n <= 0 || n > weights.len() {
        0
    } else {
        weight_to(weights, n - 1) + weights[n - 1] as nat
    }
}

/// How far through the book a place is, as a fraction: the items before it and
/// its part of its own, weighted by their length in bytes. The place is `top` of a
/// flow `content` high; a flow without height is at its head.
pub open spec fn share(weights: Seq<u64>, index: int, top: int, content: int) -> (int, int) {
    let total = weight_to(weights, weights.len() as int) as int;
    if total == 0 || index >= weights.len() {
        (0, 1)
    } else if content <= 0 {
        (weight_to(weights, index) as int, total)
    } else {
        (weight_to(weights, index) * content + weights[index] * top, total * content)
    }
}

/// A fraction in whole parts, of which there are `parts` to one.
pub open spec fn in_parts(fraction: (int, int), parts: int) -> int {
    fraction.0 * parts / fraction.1
}

/// A fraction as a percentage, rounded once; a half goes up.
pub open spec fn rounded(fraction: (int, int)) -> int {
    (fraction.0 * 200 + fraction.1) / (2 * fraction.1)
}

proof fn lemma_weight_grow(weights: Seq<u64>, lo: int, hi: int)
    requires
        0 <= lo <= hi <= weights.len(),
    ensures
        weight_to(weights, lo) <= weight_to(weights, hi),
    decreases hi,
{
    if lo < hi {
        lemma_weight_grow(weights, lo, hi - 1);
    }
}

impl Book {
    /// A book of a spine, under its title or the name of its file.
    pub fn new(title: Option<String>, stem: Option<String>, spine: Vec<String>) -> (r: Result<
        Book,
        BookError,
    >)
        ensures
            match r {
                Ok(b) => spine@.len() > 0 && b.spine@ == spine@ && b.title@ == named(title, stem)
                    && b.author@.len() == 0 && b.language@.len() == 0 && b.weights@.len() == 0
                    && b.toc@.len() == 0,
                Err(e) => spine@.len() == 0 && e == BookError::EmptySpine,
            },
    {
        if spine.len() == 0 {
            return Err(BookError::EmptySpine);
        }
        Ok(
            Book {
                spine,
                weights: Vec::new(),
                title: name_book(title, stem),
                author: String::new(),
                language: String::new(),
                toc: Vec::new(),
            },
        )
    }

    pub fn chapter_count(&self) -> (n: usize)
        ensures
            n == self.spine@.len(),
    {
        self.spine.len()
    }

    /// Reference of the nth spine item.
    pub fn chapter_href(&self, index: usize) -> (r: Option<&str>)
        ensures
            match r {
                Some(h) => index < self.spine@.len() && h@ == self.spine@[index as int]@,
                None => index >= self.spine@.len(),
            },
    {
        if index < self.spine.len() {
            Some(self.spine[index].as_str())
        } else {
            None
        }
    }

    /// Reference of the nth spine item, to read it by.
    pub fn spine_item(&self, index: usize) -> (r: Result<String, BookError>)
        ensures
            match r {
                Ok(h) => index < self.spine@.len() && h@ == self.spine@[index as int]@,
                Err(e) => index >= self.spine@.len() && e == BookError::NoSpineItem(index),
            },
    {
        match self.chapter_href(index) {
            Some(h) => Ok(owned(h)),
            None => Err(BookError::NoSpineItem(index)),
        }
    }

    /// How far through the book a place is, as a fraction that is no more than one.
    fn fraction(&self, index: usize, top: i64, content: i64) -> (r: (u128, u128))
        requires
            weight_to(self.weights@, self.weights@.len() as int) <= u64::MAX,
            content > 0 ==> 0 <= top <= content,
        ensures
            (r.0 as int, r.1 as int) == share(self.weights@, index as int, top as int, content as int),
            r.0 <= r.1,
            0 < r.1 < 0x8000_0000_0000_0000_0000_0000_0000_0000,
    {
        let mut total: u64 = 0;
        let mut before: u64 = 0;
        let mut i: usize = 0;
        while i < self.weights.len()
            invariant
                i <= self.weights.len(),
                weight_to(self.weights@, self.weights@.len() as int) <= u64::MAX,
                total == weight_to(self.weights@, i as int),
                before == weight_to(
                    self.weights@,
                    if i < index {
                        i as int
                    } else {
                        index as int
                    },
                ),
            decreases self.weights.len() - i,
        {
            proof {
                lemma_weight_grow(self.weights@, i + 1, self.weights@.len() as int);
            }
            total = total + self.weights[i];
            i = i + 1;
            if i <= index {
                before = total;
            }
        }
        if total == 0 || index >= self.weights.len() {
            return (0, 1);
        }
        proof {
            lemma_weight_grow(self.weights@, index + 1, self.weights@.len() as int);
        }
        if content <= 0 {
            return (before as u128, total as u128);
        }
        let w: u64 = self.weights[index];
        proof {
            let (b, w, s) = (before as int, w as int, total as int);
            let (t, c) = (top as int, content as int);
            assert(0 <= b * c <= 0xffff_ffff_ffff_ffff * 0x7fff_ffff_ffff_ffff) by (nonlinear_arith)
                requires
                    0 <= b <= 0xffff_ffff_ffff_ffff,
                    0 < c <= 0x7fff_ffff_ffff_ffff,
            ;
            assert(0 <= w * t <= w * c) by (nonlinear_arith)
                requires
                    0 <= t <= c,
                    w >= 0,
            ;
            assert(b * c + w * c <= s * c) by (nonlinear_arith)
                requires
                    b + w <= s,
                    c > 0,
            ;
            assert(0 < s * c <= 0xffff_ffff_ffff_ffff * 0x7fff_ffff_ffff_ffff) by (nonlinear_arith)
                requires
                    0 < s <= 0xffff_ffff_ffff_ffff,
                    0 < c <= 0x7fff_ffff_ffff_ffff,
            ;
        }
        (
            before as u128 * content as u128 + w as u128 * top as u128,
            total as u128 * content as u128,
        )
    }

    /// How far through the book a place is, in whole thousandths. The place is
    /// `top` of a flow `content` high.
    pub fn progress(&self, index: usize, top: i64, content: i64) -> (r: u64)
        requires
            weight_to(self.weights@, self.weights@.len() as int) <= u64::MAX,
            content > 0 ==> 0 <= top <= content,
        ensures
            r == in_parts(share(self.weights@, index as int, top as int, content as int), 1000),
            r <= 1000,
    {
        let (n, d) = self.fraction(index, top, content);
        parts_of(n, d, 1000)
    }

    /// How far through the book a place is, as a percentage: the place is carried
    /// as it is, and rounded once.
    pub fn percent(&self, index: usize, top: i64, content: i64) -> (r: u64)
        requires
            weight_to(self.weights@, self.weights@.len() as int) <= u64::MAX,
            content > 0 ==> 0 <= top <= content,
        ensures
            r == rounded(share(self.weights@, index as int, top as int, content as int)),
            r <= 100,
    {
        let (n, d) = self.fraction(index, top, content);
        proof {
            law_a_percentage_is_rounded_once((n as int, d as int));
        }
        percent(parts_of(n, d, 1000))
    }
}

/// How many of `parts` parts are in `n` of `d`.
fn parts_of(n: u128, d: u128, parts: u64) -> (r: u64)
    requires
        n <= d,
        0 < d < 0x8000_0000_0000_0000_0000_0000_0000_0000,
    ensures
        r == in_parts((n as int, d as int), parts as int),
        r <= parts,
{
    let mut q: u64 = 0;
    let mut rest: u128 = 0;
    let mut i: u64 = 0;
    while i < parts
        invariant
            i <= parts,
            n <= d,
            0 < d < 0x8000_0000_0000_0000_0000_0000_0000_0000,
            rest < d,
            q <= i,
            n * i == q * d + rest,
        decreases parts - i,
    {
        proof {
            assert(n * (i + 1) == n * i + n) by (nonlinear_arith);
            assert((q + 1) * d == q * d + d) by (nonlinear_arith);
        }
        rest = rest + n;
        if rest >= d {
            rest = rest - d;
            q = q + 1;
        }
        i = i + 1;
    }
    proof {
        let (n, d, q, rest, parts) = (n as int, d as int, q as int, rest as int, parts as int);
        assert(n * parts / d == q) by (nonlinear_arith)
            requires
                n * parts == q * d + rest,
                0 <= rest < d,
        ;
    }
    q
}

/// Thousandths that were cut down once give the percentage that rounding the
/// fraction itself gives.
pub proof fn law_a_percentage_is_rounded_once(fraction: (int, int))
    requires
        0 <= fraction.0,
        0 < fraction.1,
    ensures
        rounded_percent(in_parts(fraction, 1000)) == rounded(fraction),
{
    let (n, d) = fraction;
    let q = n * 1000 / d;
    let r = n * 1000 - q * d;
    assert(0 <= r < d) by (nonlinear_arith)
        requires
            q == n * 1000 / d,
            r == n * 1000 - q * d,
            d > 0,
    ;
    let p = (q + 5) / 10;
    let k = q + 5 - 10 * p;
    assert(0 <= k < 10);
    // 200n + d is 2dp and something less than 2d.
    let over = n * 200 + d - p * (2 * d);
    assert(5 * over == k * d + r) by (nonlinear_arith)
        requires
            over == n * 200 + d - p * (2 * d),
            r == n * 1000 - q * d,
            k == q + 5 - 10 * p,
    ;
    assert(0 <= k * d <= 9 * d) by (nonlinear_arith)
        requires
            0 <= k <= 9,
            d > 0,
    ;
    assert((n * 200 + d) / (2 * d) == p) by (nonlinear_arith)
        requires
            over == n * 200 + d - p * (2 * d),
            0 <= over < 2 * d,
    ;
}

proof fn lemma_fractions(a: (int, int), b: (int, int), parts: int)
    requires
        0 <= a.0 && 0 < a.1 && 0 <= b.0 && 0 < b.1 && 0 <= parts,
        a.0 * b.1 <= b.0 * a.1,
    ensures
        in_parts(a, parts) <= in_parts(b, parts),
{
    let (n, d) = a;
    let (m, e) = b;
    let q = n * parts / d;
    assert(q * d <= n * parts) by (nonlinear_arith)
        requires
            q == n * parts / d,
            d > 0,
    ;
    assert(q * e <= m * parts) by (nonlinear_arith)
        requires
            q * d <= n * parts,
            n * e <= m * d,
            parts >= 0,
            d > 0,
            e > 0,
    ;
    assert(q <= m * parts / e) by (nonlinear_arith)
        requires
            q * e <= m * parts,
            e > 0,
    ;
}

/// Reading on never moves progress back: a later place in an item, or any place
/// in a later item, is no less far through the book.
pub proof fn law_progress_never_runs_back(
    weights: Seq<u64>,
    a: int,
    top_a: int,
    content_a: int,
    b: int,
    top_b: int,
    content_b: int,
)
    requires
        0 <= a <= b < weights.len(),
        0 <= top_a <= content_a,
        0 <= top_b <= content_b,
        a == b ==> content_a == content_b && top_a <= top_b,
    ensures
        in_parts(share(weights, a, top_a, content_a), 1000) <= in_parts(
            share(weights, b, top_b, content_b),
            1000,
        ),
{
    let total = weight_to(weights, weights.len() as int) as int;
    if total > 0 {
        lemma_weight_grow(weights, a, b);
        let x = share(weights, a, top_a, content_a);
        let y = share(weights, b, top_b, content_b);
        lemma_share(weights, a, top_a, content_a);
        lemma_share(weights, b, top_b, content_b);
        if a < b {
            lemma_weight_grow(weights, a + 1, b);
            let upto = weight_to(weights, a + 1) as int;
            let from = weight_to(weights, b) as int;
            assert(x.0 * y.1 <= y.0 * x.1) by (nonlinear_arith)
                requires
                    x.0 * total <= upto * x.1,
                    from * y.1 <= y.0 * total,
                    upto <= from,
                    total > 0,
                    x.1 > 0,
                    y.1 > 0,
            ;
        } else if content_a > 0 {
            let (w, before) = (weights[a] as int, weight_to(weights, a) as int);
            assert(w * top_a <= w * top_b) by (nonlinear_arith)
                requires
                    top_a <= top_b,
                    w >= 0,
            ;
            assert(x.0 * y.1 <= y.0 * x.1) by (nonlinear_arith)
                requires
                    x.0 <= y.0,
                    x.1 == y.1,
                    x.1 > 0,
            ;
        }
        lemma_fractions(x, y, 1000);
    }
}

/// A place in an item lies between the item's two ends.
proof fn lemma_share(weights: Seq<u64>, index: int, top: int, content: int)
    requires
        0 <= index < weights.len(),
        0 <= top <= content,
        weight_to(weights, weights.len() as int) > 0,
    ensures
        ({
            let total = weight_to(weights, weights.len() as int) as int;
            let x = share(weights, index, top, content);
            &&& 0 <= x.0 && 0 < x.1
            &&& weight_to(weights, index) * x.1 <= x.0 * total
            &&& x.0 * total <= weight_to(weights, index + 1) * x.1
        }),
{
    let total = weight_to(weights, weights.len() as int) as int;
    let (b, w) = (weight_to(weights, index) as int, weights[index] as int);
    let x = share(weights, index, top, content);
    if content > 0 {
        assert(0 <= w * top <= w * content) by (nonlinear_arith)
            requires
                0 <= top <= content,
                w >= 0,
        ;
        assert(b * content >= 0) by (nonlinear_arith)
            requires
                b >= 0,
                content > 0,
        ;
        assert(total * content > 0) by (nonlinear_arith)
            requires
                total > 0,
                content > 0,
        ;
        assert(b * (total * content) <= (b * content + w * top) * total) by (nonlinear_arith)
            requires
                w * top >= 0,
                total > 0,
        ;
        assert((b * content + w * top) * total <= (b + w) * (total * content)) by (nonlinear_arith)
            requires
                w * top <= w * content,
                total > 0,
        ;
    } else {
        assert(b * total <= (b + w) * total) by (nonlinear_arith)
            requires
                w >= 0,
                total > 0,
        ;
    }
}

} // verus!
