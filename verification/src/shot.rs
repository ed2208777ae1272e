//! One page as an image: what a headless render is asked for, and the file it
//! writes.
use crate::chapter::{located, node_containing_text, node_top};
use crate::dom::{abs_y, Dom};
use crate::paginate::{page_at, Pages};
use crate::search::folded;
use crate::style::Theme;
use crate::text::{
    chars_of, decimal, equal, number_to, owned, parse_count, parse_number, push_decimal, trim,
    trimmed,
};
use vstd::prelude::*;
use vstd::slice::slice_subrange;

verus! {

/// Where `s` first has an x, large or small.
pub open spec fn cross(s: Seq<char>) -> Option<int>
    decreases s.len(),
{
    if s.len() == 0 {
        None
    } else if s[0] == 'x' || s[0] == 'X' {
        Some(0)
    } else {
        match cross(s.drop_first()) {
            Some(i) => Some(i + 1),
            None => None,
        }
    }
}

fn find_cross(s: &[char]) -> (r: Option<usize>)
    ensures
        match r {
            Some(i) => cross(s@) == Some(i as int) && i < s@.len(),
            None => cross(s@) is None,
        },
{
    let mut i: usize = 0;
    assert(s@.skip(0) =~= s@);
    while i < s.len()
        invariant
            i <= s.len(),
            cross(s@) == match cross(s@.skip(i as int)) {
                Some(k) => Some(k + i),
                None => None,
            },
        decreases s.len() - i,
    {
        assert(s@.skip(i as int)[0] == s@[i as int]);
        if s[i] == 'x' || s[i] == 'X' {
            return Some(i);
        }
        assert(s@.skip(i as int).drop_first() =~= s@.skip(i + 1));
        i = i + 1;
    }
    None
}

/// One side of a size: a number of pixels, at least one.
pub open spec fn side(s: Seq<char>) -> Option<int> {
    match number_to(trimmed(s), 10, u32::MAX as nat) {
        Some(n) => Some(if n < 1 {
            1
        } else {
            n as int
        }),
        None => None,
    }
}

fn read_side(s: &[char]) -> (r: Option<u32>)
    ensures
        match r {
            Some(n) => side(s@) == Some(n as int),
            None => side(s@) is None,
        },
{
    match parse_number(trim(s), 10, u32::MAX as u64) {
        Some(n) => Some(
            if n < 1 {
                1
            } else {
                n as u32
            },
        ),
        None => None,
    }
}

/// The size that a text such as `900x1000` asks for, if it asks for one.
pub open spec fn size_in(spec: Seq<char>) -> Option<(int, int)> {
    match cross(spec) {
        Some(i) => match (side(spec.take(i)), side(spec.skip(i + 1))) {
            (Some(w), Some(h)) => Some((w, h)),
            _ => None,
        },
        None => None,
    }
}

/// The size that the image has.
pub open spec fn image_size(spec: Seq<char>) -> (int, int) {
    match size_in(spec) {
        Some(s) => s,
        None => (900, 1000),
    }
}

/// The size of the image, in pixels: what `spec` asks for, else 900 by 1000.
pub fn size(spec: &str) -> (r: (u32, u32))
    ensures
        (r.0 as int, r.1 as int) == image_size(spec@),
{
    let s = chars_of(spec);
    match find_cross(&s) {
        Some(i) => {
            assert(i < s.len());
            let w = slice_subrange(s.as_slice(), 0, i);
            let h = slice_subrange(s.as_slice(), i + 1, s.len());
            proof {
                assert(w@ =~= s@.take(i as int));
                assert(h@ =~= s@.skip(i + 1));
            }
            match (read_side(w), read_side(h)) {
                (Some(w), Some(h)) => (w, h),
                _ => (900, 1000),
            }
        },
        None => (900, 1000),
    }
}

/// The number of columns that is asked for: one or two, one if nobody says.
pub open spec fn columns_in(spec: Seq<char>) -> int {
    match number_to(spec, 10, u32::MAX as nat) {
        Some(n) => if n >= 2 {
            2
        } else {
            1
        },
        None => 1,
    }
}

pub fn columns(spec: Option<&str>) -> (r: u32)
    ensures
        r == match spec {
            Some(s) => columns_in(s@),
            None => 1,
        },
{
    match spec {
        Some(s) => {
            let chars = chars_of(s);
            match parse_number(&chars, 10, u32::MAX as u64) {
                Some(n) => if n >= 2 {
                    2
                } else {
                    1
                },
                None => 1,
            }
        },
        None => 1,
    }
}

/// Is one of the arguments `word`?
pub fn asks(args: &[String], word: &str) -> (r: bool)
    ensures
        r == exists|i: int| 0 <= i < args@.len() && (#[trigger] args@[i])@ == word@,
{
    let mut i: usize = 0;
    while i < args.len()
        invariant
            i <= args.len(),
            forall|k: int| 0 <= k < i ==> (#[trigger] args@[k])@ != word@,
        decreases args.len() - i,
    {
        if equal(args[i].as_str(), word) {
            assert(args@[i as int]@ == word@);
            return true;
        }
        i = i + 1;
    }
    false
}

/// The theme that a word names; white for any other.
pub open spec fn theme_named(word: Seq<char>) -> Theme {
    if word == "sepia"@ {
        Theme::Sepia
    } else if word == "grey"@ {
        Theme::Grey
    } else if word == "night"@ {
        Theme::Night
    } else {
        Theme::White
    }
}

/// The theme that the first argument other than `hud` names.
pub open spec fn theme_in(args: Seq<String>) -> Theme
    decreases args.len(),
{
    if args.len() == 0 {
        Theme::White
    } else if args[0]@ == "hud"@ {
        theme_in(args.drop_first())
    } else {
        theme_named(args[0]@)
    }
}

pub fn theme(args: &[String]) -> (r: Theme)
    ensures
        r == theme_in(args@),
{
    let mut i: usize = 0;
    assert(args@.skip(0) =~= args@);
    while i < args.len()
        invariant
            i <= args.len(),
            theme_in(args@) == theme_in(args@.skip(i as int)),
        decreases args.len() - i,
    {
        assert(args@.skip(i as int)[0] == args@[i as int]);
        let arg = args[i].as_str();
        if !equal(arg, "hud") {
            return if equal(arg, "sepia") {
                Theme::Sepia
            } else if equal(arg, "grey") {
                Theme::Grey
            } else if equal(arg, "night") {
                Theme::Night
            } else {
                Theme::White
            };
        }
        assert(args@.skip(i as int).drop_first() =~= args@.skip(i + 1));
        i = i + 1;
    }
    Theme::White
}

/// The chapter that is asked for, counted from nought; the first if the argument
/// is no number.
pub open spec fn chapter_in(arg: Seq<char>) -> int {
    match number_to(arg, 10, usize::MAX as nat) {
        Some(n) if n > 0 => n - 1,
        _ => 0,
    }
}

pub fn chapter(arg: &str) -> (r: usize)
    ensures
        r == chapter_in(arg@),
{
    let chars = chars_of(arg);
    match parse_count(&chars) {
        Some(n) => if n > 0 {
            n - 1
        } else {
            0
        },
        None => 0,
    }
}

/// The page an argument asks for: a number is a page, counted from one; anything
/// else is text to land on, the way following a search hit does. Never past the
/// last page.
pub open spec fn page_in(dom: Dom, tops: Seq<i64>, arg: Seq<char>) -> int {
    let wanted = match number_to(arg, 10, usize::MAX as nat) {
        Some(n) => if n > 0 {
            n - 1
        } else {
            0
        },
        None => match located(dom.nodes@, trimmed(folded(arg))) {
            Some(i) => page_at(tops, abs_y(dom.nodes@, i)),
            None => 0,
        },
    };
    let last = if tops.len() > 0 {
        tops.len() - 1
    } else {
        0
    };
    if wanted < last {
        wanted
    } else {
        last
    }
}

pub fn page(dom: &Dom, pages: &Pages, arg: &str) -> (r: usize)
    requires
        dom.wf(),
    ensures
        r == page_in(*dom, pages.tops@, arg@),
{
    let chars = chars_of(arg);
    let wanted: usize = match parse_count(&chars) {
        Some(n) => if n > 0 {
            n - 1
        } else {
            0
        },
        None => match node_containing_text(dom, arg) {
            Some(node) => match node_top(dom, node) {
                Some(y) => pages.page_containing(y),
                None => 0,
            },
            None => 0,
        },
    };
    let count: usize = pages.count();
    if count == 0 {
        0
    } else if wanted < count - 1 {
        wanted
    } else {
        count - 1
    }
}

/// The words before the pixels of a binary PPM.
pub open spec fn ppm_header(w: nat, h: nat) -> Seq<char> {
    "P6\n"@ + decimal(w) + " "@ + decimal(h) + "\n255\n"@
}

/// The first three of every four bytes: a pixel's colour without its opacity.
pub open spec fn colours(rgba: Seq<u8>) -> Seq<u8>
    decreases rgba.len(),
{
    if rgba.len() < 4 {
        Seq::empty()
    } else {
        rgba.take(3) + colours(rgba.skip(4))
    }
}

pub open spec fn ppm_bytes(rgba: Seq<u8>, w: nat, h: nat) -> Seq<u8> {
    ppm_header(w, h).map_values(|c: char| c as u8) + colours(rgba)
}

/// An image as a binary PPM: a header and the red, green and blue of each pixel.
pub fn ppm(rgba: &[u8], w: u32, h: u32) -> (r: Vec<u8>)
    ensures
        r@ == ppm_bytes(rgba@, w as nat, h as nat),
{
    let mut head = owned("P6\n");
    push_decimal(&mut head, w as u64);
    head.append(" ");
    push_decimal(&mut head, h as u64);
    head.append("\n255\n");
    let chars = chars_of(head.as_str());
    let ghost words = chars@.map_values(|c: char| c as u8);
    let mut out: Vec<u8> = Vec::new();
    let mut k: usize = 0;
    while k < chars.len()
        invariant
            k <= chars.len(),
            words == chars@.map_values(|c: char| c as u8),
            out@ =~= words.take(k as int),
        decreases chars.len() - k,
    {
        out.push(chars[k] as u8);
        k = k + 1;
    }
    assert(out@ =~= words);
    let mut i: usize = 0;
    assert(rgba@.skip(0) =~= rgba@);
    while rgba.len() - i >= 4
        invariant
            i <= rgba.len(),
            words + colours(rgba@) == out@ + colours(rgba@.skip(i as int)),
        decreases rgba.len() - i,
    {
        let ghost was = out@;
        out.push(rgba[i]);
        out.push(rgba[i + 1]);
        out.push(rgba[i + 2]);
        proof {
            let rest = rgba@.skip(i as int);
            assert(rest.skip(4) =~= rgba@.skip(i + 4));
            assert(out@ =~= was + rest.take(3));
            assert(out@ + colours(rest.skip(4)) =~= was + (rest.take(3) + colours(rest.skip(4))));
        }
        i = i + 4;
    }
    assert(out@ + Seq::<u8>::empty() =~= out@);
    out
}

/// An image file holds its header and three bytes for each pixel.
pub proof fn law_images_hold_every_pixel(rgba: Seq<u8>, w: nat, h: nat)
    requires
        rgba.len() == 4 * (w * h),
    ensures
        ppm_bytes(rgba, w, h).len() == ppm_header(w, h).len() + 3 * (w * h),
{
    lemma_colours_len(rgba);
}

proof fn lemma_colours_len(rgba: Seq<u8>)
    ensures
        colours(rgba).len() == 3 * (rgba.len() / 4),
    decreases rgba.len(),
{
    if rgba.len() >= 4 {
        lemma_colours_len(rgba.skip(4));
    }
}

} // verus!
