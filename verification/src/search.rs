//! Full-text search: getting text out of a chapter, and queries into FTS5.
//!
//! Extraction reads the raw XHTML rather than a laid-out document on purpose:
//! indexing must not cost a full layout pass per chapter.
use crate::grid::{escaped, escaped_char, law_escaped_text_is_inert};
use crate::hyphen::{drop_soft, without_soft, SOFT};
use crate::markup::{
    find_tag_end, lemma_tag_end, lemma_whole_tag_end, name_of_tag, tag_end, tag_name, whole_tag,
};
use crate::text::{
    alphanumeric, begins, bytes_len, chars_of, ends, extend, find, find_char, find_word, finishes,
    holds, is_alphanumeric, is_white, join, joined, lemma_no_spot, lemma_place, lemma_spot,
    lemma_spot_is, lower_all, lowercase, lowered, number_to, parse_number, place, same, spot,
    stands_at, string_of, to_lowercase, trim, trim_end, trimmed, trimmed_end, views, white,
    within_bytes,
};
use vstd::prelude::*;
use vstd::slice::slice_subrange;

verus! {

/// `char::from_u32`: the character with a code point, if there is one: every
/// number up to 0x10FFFF that is no surrogate.
pub assume_specification[ char::from_u32 ](i: u32) -> (r: Option<char>)
    ensures
        r == if i < 0xd800 || 0xe000 <= i <= 0x10ffff {
            Some(i as char)
        } else {
            None
        },
;

/// Elements whose text is not prose and must not be indexed.
pub open spec fn not_prose(name: Seq<char>) -> bool {
    name == "script"@ || name == "style"@ || name == "head"@ || name == "title"@
}

fn is_not_prose(name: &[char]) -> (r: bool)
    ensures
        r == not_prose(name@),
{
    same(name, "script") || same(name, "style") || same(name, "head") || same(name, "title")
}

/// Elements that sit inside a word: any other separates words.
pub open spec fn inside_words(name: Seq<char>) -> bool {
    name == "a"@ || name == "b"@ || name == "i"@ || name == "em"@ || name == "strong"@ || name
        == "span"@ || name == "small"@ || name == "sub"@ || name == "sup"@ || name == "u"@ || name
        == "abbr"@
}

/// Does this element separate words? Without it, `<p>one</p><p>two</p>` indexes
/// as "onetwo" and neither word is findable.
fn is_break(name: &[char]) -> (r: bool)
    ensures
        r == !inside_words(name@),
{
    !(same(name, "a") || same(name, "b") || same(name, "i") || same(name, "em") || same(
        name,
        "strong",
    ) || same(name, "span") || same(name, "small") || same(name, "sub") || same(name, "sup")
        || same(name, "u") || same(name, "abbr"))
}

/// `out` with a space at its end, unless it is empty or has one.
pub open spec fn spaced(out: Seq<char>) -> Seq<char> {
    if out.len() > 0 && out.last() != ' ' {
        out.push(' ')
    } else {
        out
    }
}

fn push_space(out: &mut Vec<char>)
    ensures
        final(out)@ == spaced(old(out)@),
{
    if out.len() > 0 && out[out.len() - 1] != ' ' {
        out.push(' ');
    }
}

/// `out` with `raw` behind it, runs of white space made one space.
pub open spec fn with_words(out: Seq<char>, raw: Seq<char>) -> Seq<char>
    decreases raw.len(),
{
    if raw.len() == 0 {
        out
    } else if white(raw[0]) {
        with_words(spaced(out), raw.drop_first())
    } else {
        with_words(out.push(raw[0]), raw.drop_first())
    }
}

/// Whitespace is collapsed to single spaces: the index has no use for the
/// publisher's indentation.
fn push_ws(out: &mut Vec<char>, raw: &[char])
    ensures
        final(out)@ == with_words(old(out)@, raw@),
{
    let mut i: usize = 0;
    let ghost start = out@;
    assert(raw@.skip(0) =~= raw@);
    while i < raw.len()
        invariant
            i <= raw.len(),
            with_words(start, raw@) == with_words(out@, raw@.skip(i as int)),
        decreases raw.len() - i,
    {
        proof {
            assert(raw@.skip(i as int).drop_first() =~= raw@.skip(i + 1));
        }
        if is_white(raw[i]) {
            push_space(out);
        } else {
            out.push(raw[i]);
        }
        i = i + 1;
    }
}

/// The character that a number names, if it names one.
pub open spec fn scalar(n: nat) -> Option<char> {
    if n < 0xd800 || 0xe000 <= n <= 0x10ffff {
        Some((n as u32) as char)
    } else {
        None
    }
}

/// The character that a numeric reference names: decimal, or hexadecimal behind
/// an `x`.
pub open spec fn numeric_entity(name: Seq<char>) -> Option<char> {
    if name.len() == 0 || name[0] != '#' {
        None
    } else {
        let d = name.drop_first();
        let n = if d.len() > 0 && (d[0] == 'x' || d[0] == 'X') {
            number_to(d.drop_first(), 16, u32::MAX as nat)
        } else {
            number_to(d, 10, u32::MAX as nat)
        };
        match n {
            Some(n) => scalar(n),
            None => None,
        }
    }
}

/// What an entity stands for; one that is not known stays as it is written.
pub open spec fn entity_text(name: Seq<char>) -> Seq<char> {
    if name == "amp"@ {
        "&"@
    } else if name == "lt"@ {
        "<"@
    } else if name == "gt"@ {
        ">"@
    } else if name == "quot"@ {
        "\""@
    } else if name == "apos"@ {
        "'"@
    } else if name == "nbsp"@ {
        " "@
    } else if name == "mdash"@ {
        "—"@
    } else if name == "ndash"@ {
        "–"@
    } else if name == "hellip"@ {
        "…"@
    } else if name == "shy"@ {
        seq![]
    } else {
        match numeric_entity(name) {
            Some(c) => seq![c],
            None => seq!['&'] + name + seq![';'],
        }
    }
}

fn entity_number(name: &[char]) -> (r: Option<char>)
    ensures
        r == numeric_entity(name@),
{
    if name.len() == 0 || name[0] != '#' {
        return None;
    }
    let d = slice_subrange(name, 1, name.len());
    assert(d@ =~= name@.drop_first());
    let n = if d.len() > 0 && (d[0] == 'x' || d[0] == 'X') {
        let h = slice_subrange(d, 1, d.len());
        assert(h@ =~= d@.drop_first());
        parse_number(h, 16, u32::MAX as u64)
    } else {
        parse_number(d, 10, u32::MAX as u64)
    };
    match n {
        Some(v) => char::from_u32(v as u32),
        None => None,
    }
}

fn entity(name: &[char]) -> (r: Vec<char>)
    ensures
        r@ == entity_text(name@),
{
    if same(name, "amp") {
        chars_of("&")
    } else if same(name, "lt") {
        chars_of("<")
    } else if same(name, "gt") {
        chars_of(">")
    } else if same(name, "quot") {
        chars_of("\"")
    } else if same(name, "apos") {
        chars_of("'")
    } else if same(name, "nbsp") {
        chars_of(" ")
    } else if same(name, "mdash") {
        chars_of("—")
    } else if same(name, "ndash") {
        chars_of("–")
    } else if same(name, "hellip") {
        chars_of("…")
    } else if same(name, "shy") {
        Vec::new()
    } else {
        let mut out: Vec<char> = Vec::new();
        match entity_number(name) {
            Some(c) => {
                out.push(c);
                assert(out@ =~= seq![c]);
            },
            None => {
                // Not an entity we know: leave it as written rather than eat it.
                out.push('&');
                extend(&mut out, name);
                out.push(';');
                assert(out@ =~= seq!['&'] + name@ + seq![';']);
            },
        }
        out
    }
}

/// `out` with the text `raw` behind it: entities resolved, white space
/// collapsed. An entity ends within ten bytes; any other `&` is a character.
pub open spec fn with_text(out: Seq<char>, raw: Seq<char>) -> Seq<char>
    decreases raw.len(),
{
    match spot(raw, '&') {
        None => with_words(out, raw),
        Some(amp) => {
            let head = with_words(out, raw.take(amp));
            let tail = raw.skip(amp);
            proof {
                lemma_spot(raw, '&');
                lemma_spot(tail, ';');
            }
            match spot(tail, ';') {
                Some(end) if bytes_len(tail.take(end)) <= 10 => with_text(
                    with_words(head, entity_text(tail.subrange(1, end))),
                    tail.skip(end + 1),
                ),
                _ => with_text(head.push('&'), tail.skip(1)),
            }
        },
    }
}

fn push_text(out: &mut Vec<char>, raw: &[char])
    ensures
        final(out)@ == with_text(old(out)@, raw@),
{
    let ghost start = out@;
    let mut rest: &[char] = raw;
    loop
        invariant
            start == old(out)@,
            with_text(start, raw@) == with_text(out@, rest@),
        decreases rest.len(),
    {
        match find_char(rest, '&') {
            None => {
                push_ws(out, rest);
                return;
            },
            Some(amp) => {
                let head = slice_subrange(rest, 0, amp);
                let tail = slice_subrange(rest, amp, rest.len());
                proof {
                    assert(head@ =~= rest@.take(amp as int));
                    assert(tail@ =~= rest@.skip(amp as int));
                }
                push_ws(out, head);
                let end = match find_char(tail, ';') {
                    Some(e) => {
                        let upto = slice_subrange(tail, 0, e);
                        assert(upto@ =~= tail@.take(e as int));
                        if within_bytes(upto, 10) {
                            Some(e)
                        } else {
                            None
                        }
                    },
                    None => None,
                };
                match end {
                    Some(e) => {
                        proof {
                            assert(tail@[0] == '&');
                        }
                        let name = slice_subrange(tail, 1, e);
                        let text = entity(name);
                        push_ws(out, &text);
                        let next = slice_subrange(tail, e + 1, tail.len());
                        assert(next@ =~= tail@.skip(e + 1));
                        rest = next;
                    },
                    None => {
                        out.push('&');
                        let next = slice_subrange(tail, 1, tail.len());
                        assert(next@ =~= tail@.skip(1));
                        rest = next;
                    },
                }
            },
        }
    }
}

/// What follows a span that begins with `open` and ends with the first `close`
/// behind it; nothing where it never closes.
pub open spec fn behind(tail: Seq<char>, open: Seq<char>, close: Seq<char>) -> Seq<char> {
    let body = tail.skip(open.len() as int);
    match place(body, close) {
        Some(i) => body.skip(i + close.len()),
        None => seq![],
    }
}

/// What follows a comment or a CDATA section that `tail` begins with; both may
/// contain `>` freely.
pub open spec fn behind_bracketed(tail: Seq<char>) -> Option<Seq<char>> {
    if stands_at(tail, "<!--"@, 0) {
        Some(behind(tail, "<!--"@, "-->"@))
    } else if stands_at(tail, "<![CDATA["@, 0) {
        Some(behind(tail, "<![CDATA["@, "]]>"@))
    } else {
        None
    }
}

pub proof fn lemma_behind_bracketed(tail: Seq<char>)
    ensures
        behind_bracketed(tail) matches Some(r) ==> r.len() < tail.len() && r == tail.skip(
            tail.len() - r.len(),
        ),
{
    reveal_strlit("<!--");
    reveal_strlit("<![CDATA[");
    reveal_strlit("-->");
    reveal_strlit("]]>");
    lemma_place(tail.skip(4), "-->"@);
    lemma_place(tail.skip(9), "]]>"@);
}

fn skip_span<'a>(tail: &'a [char], open: &str, close: &str) -> (r: &'a [char])
    requires
        open@.len() <= tail@.len(),
    ensures
        r@ == behind(tail@, open@, close@),
{
    let n: usize = chars_of(open).len();
    let body = slice_subrange(tail, n, tail.len());
    assert(body@ =~= tail@.skip(open@.len() as int));
    match find_word(body, close) {
        Some(i) => {
            let m: usize = chars_of(close).len();
            let r = slice_subrange(body, i + m, body.len());
            assert(r@ =~= body@.skip(i + close@.len()));
            r
        },
        None => {
            let r = slice_subrange(body, 0, 0);
            assert(r@ =~= seq![]);
            r
        },
    }
}

/// A comment or a CDATA section: returns what follows, or `None` if this is an
/// ordinary tag.
pub fn skip_bracketed<'a>(tail: &'a [char]) -> (r: Option<&'a [char]>)
    ensures
        match r {
            Some(after) => behind_bracketed(tail@) == Some(after@),
            None => behind_bracketed(tail@) is None,
        },
{
    if begins(tail, "<!--") {
        Some(skip_span(tail, "<!--", "-->"))
    } else if begins(tail, "<![CDATA[") {
        Some(skip_span(tail, "<![CDATA[", "]]>"))
    } else {
        None
    }
}

/// Everything after the close tag of the element `name`; nothing if it never
/// closes, which is a malformed chapter and not worth indexing past.
pub open spec fn behind_element(rest: Seq<char>, name: Seq<char>) -> Seq<char> {
    match place(lowered(rest), "</"@ + name) {
        Some(at) => match spot(rest.skip(at), '>') {
            Some(gt) => rest.skip(at + gt + 1),
            None => seq![],
        },
        None => seq![],
    }
}

pub proof fn lemma_behind_element(rest: Seq<char>, name: Seq<char>)
    ensures
        behind_element(rest, name).len() <= rest.len(),
{
    lemma_place(lowered(rest), "</"@ + name);
    if let Some(at) = place(lowered(rest), "</"@ + name) {
        lemma_spot(rest.skip(at), '>');
    }
}

fn skip_element<'a>(rest: &'a [char], name: &[char]) -> (r: &'a [char])
    ensures
        r@ == behind_element(rest@, name@),
{
    let low = lower_all(rest);
    let mut close = chars_of("</");
    extend(&mut close, name);
    match find(&low, &close) {
        Some(at) => {
            let tail = slice_subrange(rest, at, rest.len());
            assert(tail@ =~= rest@.skip(at as int));
            match find_char(tail, '>') {
                Some(gt) => {
                    let r = slice_subrange(rest, at + gt + 1, rest.len());
                    assert(r@ =~= rest@.skip(at + gt + 1));
                    r
                },
                None => {
                    let r = slice_subrange(rest, 0, 0);
                    assert(r@ =~= seq![]);
                    r
                },
            }
        },
        None => {
            let r = slice_subrange(rest, 0, 0);
            assert(r@ =~= seq![]);
            r
        },
    }
}

/// `out` with the prose of `rest` behind it.
///
/// Text is taken up to each tag. A comment or a CDATA section is left out; so is
/// a tag that never ends, with all behind it. An element that is not prose is
/// left out up to its close tag. A tag separates words unless it sits inside
/// them.
pub open spec fn with_prose(out: Seq<char>, rest: Seq<char>) -> Seq<char>
    decreases rest.len(),
{
    match spot(rest, '<') {
        None => with_text(out, rest),
        Some(lt) => {
            let head = with_text(out, rest.take(lt));
            let tail = rest.skip(lt);
            proof {
                lemma_spot(rest, '<');
                lemma_tag_end(tail);
                lemma_behind_bracketed(tail);
            }
            match behind_bracketed(tail) {
                Some(after) => with_prose(head, after),
                None => match tag_end(tail) {
                    None => head,
                    Some(gt) => {
                        let tag = tail.take(gt + 1);
                        let next = tail.skip(gt + 1);
                        let name = name_of_tag(tag);
                        proof {
                            lemma_behind_element(next, name);
                        }
                        if name.len() == 0 {
                            with_prose(head, next)
                        } else if not_prose(name) && !stands_at(tag, "</"@, 0) && !ends(tag, "/>"@) {
                            with_prose(spaced(head), behind_element(next, name))
                        } else if inside_words(name) {
                            with_prose(head, next)
                        } else {
                            with_prose(spaced(head), next)
                        }
                    },
                },
            }
        },
    }
}

/// The prose of a chapter's markup.
pub open spec fn prose(html: Seq<char>) -> Seq<char> {
    trimmed_end(with_prose(seq![], html))
}

/// White space is collapsed: none but single spaces, and none at the head.
pub open spec fn collapsed(s: Seq<char>) -> bool {
    &&& forall|i: int| 0 <= i < s.len() ==> white(#[trigger] s[i]) ==> s[i] == ' '
    &&& forall|i: int| 1 <= i < s.len() ==> #[trigger] s[i] == ' ' ==> s[i - 1] != ' '
    &&& s.len() > 0 ==> s[0] != ' '
}

proof fn lemma_spaced(out: Seq<char>)
    requires
        collapsed(out),
    ensures
        collapsed(spaced(out)),
{
    let r = spaced(out);
    assert forall|i: int| 1 <= i < r.len() && #[trigger] r[i] == ' ' implies r[i - 1] != ' ' by {
        if i < out.len() {
            assert(out[i] == ' ');
        }
    }
    assert forall|i: int| 0 <= i < r.len() && white(#[trigger] r[i]) implies r[i] == ' ' by {
        if i < out.len() {
            assert(white(out[i]));
        }
    }
}

proof fn lemma_pushed(out: Seq<char>, c: char)
    requires
        collapsed(out),
        !white(c),
    ensures
        collapsed(out.push(c)),
{
    let r = out.push(c);
    assert forall|i: int| 1 <= i < r.len() && #[trigger] r[i] == ' ' implies r[i - 1] != ' ' by {
        assert(out[i] == ' ');
    }
    assert forall|i: int| 0 <= i < r.len() && white(#[trigger] r[i]) implies r[i] == ' ' by {
        assert(white(out[i]));
    }
}

proof fn lemma_with_words(out: Seq<char>, raw: Seq<char>)
    requires
        collapsed(out),
    ensures
        collapsed(with_words(out, raw)),
    decreases raw.len(),
{
    if raw.len() > 0 {
        if white(raw[0]) {
            lemma_spaced(out);
            lemma_with_words(spaced(out), raw.drop_first());
        } else {
            lemma_pushed(out, raw[0]);
            lemma_with_words(out.push(raw[0]), raw.drop_first());
        }
    }
}

proof fn lemma_with_text(out: Seq<char>, raw: Seq<char>)
    requires
        collapsed(out),
    ensures
        collapsed(with_text(out, raw)),
    decreases raw.len(),
{
    lemma_spot(raw, '&');
    match spot(raw, '&') {
        None => {
            lemma_with_words(out, raw);
        },
        Some(amp) => {
            let head = with_words(out, raw.take(amp));
            let tail = raw.skip(amp);
            lemma_spot(tail, ';');
            lemma_with_words(out, raw.take(amp));
            match spot(tail, ';') {
                Some(end) if bytes_len(tail.take(end)) <= 10 => {
                    let text = entity_text(tail.subrange(1, end));
                    lemma_with_words(head, text);
                    lemma_with_text(with_words(head, text), tail.skip(end + 1));
                },
                _ => {
                    lemma_pushed(head, '&');
                    lemma_with_text(head.push('&'), tail.skip(1));
                },
            }
        },
    }
}

proof fn lemma_with_prose(out: Seq<char>, rest: Seq<char>)
    requires
        collapsed(out),
    ensures
        collapsed(with_prose(out, rest)),
    decreases rest.len(),
{
    lemma_spot(rest, '<');
    match spot(rest, '<') {
        None => {
            lemma_with_text(out, rest);
        },
        Some(lt) => {
            let head = with_text(out, rest.take(lt));
            let tail = rest.skip(lt);
            lemma_with_text(out, rest.take(lt));
            lemma_spaced(head);
            lemma_tag_end(tail);
            lemma_behind_bracketed(tail);
            match behind_bracketed(tail) {
                Some(after) => {
                    lemma_with_prose(head, after);
                },
                None => if let Some(gt) = tag_end(tail) {
                    let next = tail.skip(gt + 1);
                    let name = name_of_tag(tail.take(gt + 1));
                    lemma_behind_element(next, name);
                    lemma_with_prose(head, next);
                    lemma_with_prose(spaced(head), next);
                    lemma_with_prose(spaced(head), behind_element(next, name));
                },
            }
        },
    }
}

proof fn lemma_trimmed_end_collapsed(s: Seq<char>)
    requires
        collapsed(s),
    ensures
        collapsed(trimmed_end(s)),
    decreases s.len(),
{
    if s.len() > 0 && white(s.last()) {
        let front = s.drop_last();
        assert forall|i: int| 1 <= i < front.len() && #[trigger] front[i] == ' ' implies front[i - 1]
            != ' ' by {
            assert(s[i] == ' ');
        }
        assert forall|i: int| 0 <= i < front.len() && white(#[trigger] front[i]) implies front[i]
            == ' ' by {
            assert(white(s[i]));
        }
        lemma_trimmed_end_collapsed(front);
    }
}

/// Extracted text holds no two spaces side by side, no other white space, and
/// none at its head.
pub proof fn law_prose_is_collapsed(html: Seq<char>)
    ensures
        collapsed(prose(html)),
{
    let none: Seq<char> = seq![];
    lemma_with_prose(none, html);
    lemma_trimmed_end_collapsed(with_prose(none, html));
}

/// Plain text of a chapter's XHTML, whitespace collapsed.
///
/// A tag scanner, not a parser. It is wrong on `<` inside an attribute value,
/// which is illegal in XML anyway, and it does not care about nesting beyond
/// the elements it leaves out. For feeding a tokeniser that is enough.
pub fn text_of_html(html: &str) -> (r: String)
    ensures
        r@ == prose(html@),
        collapsed(r@),
{
    proof {
        law_prose_is_collapsed(html@);
    }
    let chars = chars_of(html);
    let mut out: Vec<char> = Vec::new();
    let mut rest: &[char] = chars.as_slice();
    assert(out@ =~= seq![]);
    loop
        invariant
            with_prose(seq![], html@) == with_prose(out@, rest@),
            collapsed(prose(html@)),
        decreases rest.len(),
    {
        match find_char(rest, '<') {
            None => {
                push_text(&mut out, rest);
                return string_of(trim_end(&out));
            },
            Some(lt) => {
                let head = slice_subrange(rest, 0, lt);
                let tail = slice_subrange(rest, lt, rest.len());
                proof {
                    assert(head@ =~= rest@.take(lt as int));
                    assert(tail@ =~= rest@.skip(lt as int));
                    lemma_behind_bracketed(tail@);
                }
                push_text(&mut out, head);
                match skip_bracketed(tail) {
                    Some(after) => {
                        rest = after;
                    },
                    None => match find_tag_end(tail) {
                        // An unterminated tag at the end of the input is markup,
                        // not prose.
                        None => {
                            return string_of(trim_end(&out));
                        },
                        Some(gt) => {
                            let tag = slice_subrange(tail, 0, gt + 1);
                            let next = slice_subrange(tail, gt + 1, tail.len());
                            proof {
                                assert(tag@ =~= tail@.take(gt + 1));
                                assert(next@ =~= tail@.skip(gt + 1));
                            }
                            match tag_name(tag) {
                                None => {
                                    rest = next;
                                },
                                Some(name) => {
                                    // The content of a script is not markup, so
                                    // jump to the close tag by name.
                                    if is_not_prose(&name) && !begins(tag, "</") && !finishes(
                                        tag,
                                        "/>",
                                    ) {
                                        proof {
                                            lemma_behind_element(next@, name@);
                                        }
                                        rest = skip_element(next, &name);
                                        push_space(&mut out);
                                    } else {
                                        if is_break(&name) {
                                            push_space(&mut out);
                                        }
                                        rest = next;
                                    }
                                },
                            }
                        },
                    },
                }
            },
        }
    }
}

/// A character that belongs to a search term.
pub open spec fn term_char(c: char) -> bool {
    alphanumeric(c) || c == '\''
}

/// The terms of `s` when `term` has been read just before it: its longest
/// stretches of term characters.
pub open spec fn terms_from(s: Seq<char>, term: Seq<char>) -> Seq<Seq<char>>
    decreases s.len(),
{
    if s.len() == 0 {
        if term.len() == 0 {
            seq![]
        } else {
            seq![term]
        }
    } else if term_char(s[0]) {
        terms_from(s.drop_first(), term.push(s[0]))
    } else if term.len() == 0 {
        terms_from(s.drop_first(), seq![])
    } else {
        seq![term] + terms_from(s.drop_first(), seq![])
    }
}

/// `s` without its double quotes.
pub open spec fn unquoted(s: Seq<char>) -> Seq<char>
    decreases s.len(),
{
    if s.len() == 0 {
        s
    } else if s.last() == '"' {
        unquoted(s.drop_last())
    } else {
        unquoted(s.drop_last()).push(s.last())
    }
}

/// The terms without double quotes, those that are empty then left out.
pub open spec fn clean_terms(terms: Seq<Seq<char>>) -> Seq<Seq<char>>
    decreases terms.len(),
{
    if terms.len() == 0 {
        seq![]
    } else {
        let t = unquoted(terms.last());
        if t.len() == 0 {
            clean_terms(terms.drop_last())
        } else {
            clean_terms(terms.drop_last()).push(t)
        }
    }
}

/// What someone typed, as search terms.
pub open spec fn search_terms(input: Seq<char>) -> Seq<Seq<char>> {
    clean_terms(terms_from(input, seq![]))
}

/// A term between double quotes.
pub open spec fn in_quotes(t: Seq<char>) -> Seq<char> {
    seq!['"'] + t + seq!['"']
}

/// Every term between double quotes, a space between two, an asterisk at the end.
pub open spec fn match_expression(terms: Seq<Seq<char>>) -> Seq<char> {
    joined(terms.map_values(|t: Seq<char>| in_quotes(t)), " "@) + seq!['*']
}

fn drop_quotes(s: &[char]) -> (r: Vec<char>)
    ensures
        r@ == unquoted(s@),
{
    let mut out: Vec<char> = Vec::new();
    let mut i: usize = 0;
    assert(s@.take(0) =~= seq![]);
    assert(out@ =~= seq![]);
    while i < s.len()
        invariant
            i <= s.len(),
            out@ == unquoted(s@.take(i as int)),
        decreases s.len() - i,
    {
        proof {
            assert(s@.take(i + 1).drop_last() =~= s@.take(i as int));
        }
        if s[i] != '"' {
            out.push(s[i]);
        }
        i = i + 1;
    }
    assert(s@.take(i as int) =~= s@);
    out
}

fn terms_of(s: &[char]) -> (r: Vec<Vec<char>>)
    ensures
        views(r@) == terms_from(s@, seq![]),
{
    let mut out: Vec<Vec<char>> = Vec::new();
    let mut term: Vec<char> = Vec::new();
    let mut i: usize = 0;
    proof {
        assert(s@.skip(0) =~= s@);
        assert(views(out@) =~= seq![]);
        assert(term@ =~= seq![]);
        assert(seq![] + terms_from(s@, seq![]) =~= terms_from(s@, seq![]));
    }
    while i < s.len()
        invariant
            i <= s.len(),
            terms_from(s@, seq![]) == views(out@) + terms_from(s@.skip(i as int), term@),
        decreases s.len() - i,
    {
        let ghost sofar = views(out@);
        let ghost before = term@;
        proof {
            assert(s@.skip(i as int).drop_first() =~= s@.skip(i + 1));
        }
        if is_alphanumeric(s[i]) || s[i] == '\'' {
            term.push(s[i]);
        } else {
            if term.len() > 0 {
                out.push(term);
                term = Vec::new();
                proof {
                    assert(views(out@) =~= sofar.push(before));
                    assert(terms_from(s@, seq![]) =~= views(out@) + terms_from(s@.skip(i + 1), seq![]));
                }
            }
            assert(term@ =~= seq![]);
        }
        i = i + 1;
    }
    let ghost sofar = views(out@);
    let ghost before = term@;
    if term.len() > 0 {
        out.push(term);
        proof {
            assert(views(out@) =~= sofar.push(before));
        }
    }
    assert(terms_from(s@, seq![]) =~= views(out@));
    out
}

/// Turn what someone typed into an FTS5 MATCH expression.
///
/// User input is never an FTS expression: a bare `"` or a stray `NEAR` is a
/// syntax error, and an error here would look like "no results". Every token is
/// quoted, which strips all operator meaning, and the last one gets a `*` so
/// results appear while you are still typing.
///
/// Returns `None` when there is nothing to search for.
pub fn fts_query(input: &str) -> (r: Option<String>)
    ensures
        match r {
            Some(q) => search_terms(input@).len() > 0 && q@ == match_expression(search_terms(input@)),
            None => search_terms(input@).len() == 0,
        },
{
    let chars = chars_of(input);
    let raw = terms_of(&chars);
    let ghost all = views(raw@);
    let ghost quote = |t: Seq<char>| in_quotes(t);
    let mut quoted: Vec<Vec<char>> = Vec::new();
    let mut i: usize = 0;
    proof {
        assert(all.take(0) =~= seq![]);
        assert(views(quoted@) =~= clean_terms(all.take(0)).map_values(quote));
    }
    while i < raw.len()
        invariant
            i <= raw.len(),
            all == views(raw@),
            quote == (|t: Seq<char>| in_quotes(t)),
            views(quoted@) == clean_terms(all.take(i as int)).map_values(quote),
        decreases raw.len() - i,
    {
        let ghost sofar = views(quoted@);
        let ghost terms = clean_terms(all.take(i as int));
        proof {
            assert(all.take(i + 1).drop_last() =~= all.take(i as int));
            assert(all.take(i + 1).last() == raw@[i as int]@);
        }
        let term = drop_quotes(&raw[i]);
        if term.len() > 0 {
            let mut q: Vec<char> = Vec::new();
            q.push('"');
            extend(&mut q, &term);
            q.push('"');
            let ghost qv = q@;
            quoted.push(q);
            proof {
                assert(qv =~= in_quotes(term@));
                assert(views(quoted@) =~= sofar.push(qv));
                assert(terms.push(term@).map_values(quote) =~= sofar.push(qv));
            }
        }
        i = i + 1;
    }
    assert(all.take(i as int) =~= all);
    assert(views(quoted@).len() == quoted@.len());
    if quoted.len() == 0 {
        return None;
    }
    let mut q = join(&quoted, " ");
    let ghost before = q@;
    q.push('*');
    assert(q@ =~= before + seq!['*']);
    Some(q)
}

/// An accented letter of Spanish or Catalan without its accent, a soft hyphen as
/// a space, any other character as it is.
pub open spec fn plain(c: char) -> char {
    if c == 'á' || c == 'à' || c == 'ä' || c == 'â' || c == 'ã' {
        'a'
    } else if c == 'é' || c == 'è' || c == 'ë' || c == 'ê' {
        'e'
    } else if c == 'í' || c == 'ì' || c == 'ï' || c == 'î' {
        'i'
    } else if c == 'ó' || c == 'ò' || c == 'ö' || c == 'ô' || c == 'õ' {
        'o'
    } else if c == 'ú' || c == 'ù' || c == 'ü' || c == 'û' {
        'u'
    } else if c == 'ñ' {
        'n'
    } else if c == 'ç' {
        'c'
    } else if c == 'ý' || c == 'ÿ' {
        'y'
    } else if c == '\u{00ad}' {
        ' '
    } else {
        c
    }
}

fn strip_accent(c: char) -> (r: char)
    ensures
        r == plain(c),
{
    if c == 'á' || c == 'à' || c == 'ä' || c == 'â' || c == 'ã' {
        'a'
    } else if c == 'é' || c == 'è' || c == 'ë' || c == 'ê' {
        'e'
    } else if c == 'í' || c == 'ì' || c == 'ï' || c == 'î' {
        'i'
    } else if c == 'ó' || c == 'ò' || c == 'ö' || c == 'ô' || c == 'õ' {
        'o'
    } else if c == 'ú' || c == 'ù' || c == 'ü' || c == 'û' {
        'u'
    } else if c == 'ñ' {
        'n'
    } else if c == 'ç' {
        'c'
    } else if c == 'ý' || c == 'ÿ' {
        'y'
    } else if c == '\u{00ad}' {
        ' '
    } else {
        c
    }
}

/// `s` in lower case and without accents.
pub open spec fn folded(s: Seq<char>) -> Seq<char>
    decreases s.len(),
{
    if s.len() == 0 {
        seq![]
    } else {
        folded(s.drop_last()) + lowercase(s.last()).map_values(|c: char| plain(c))
    }
}

/// The characters of `s` in lower case and without accents.
pub fn fold_chars(s: &[char]) -> (r: Vec<char>)
    ensures
        r@ == folded(s@),
{
    let mut out: Vec<char> = Vec::new();
    let mut i: usize = 0;
    assert(s@.take(0) =~= seq![]);
    assert(out@ =~= seq![]);
    while i < s.len()
        invariant
            i <= s.len(),
            out@ == folded(s@.take(i as int)),
        decreases s.len() - i,
    {
        proof {
            assert(s@.take(i + 1).drop_last() =~= s@.take(i as int));
        }
        let low = to_lowercase(s[i]);
        let ghost head = out@;
        let ghost strip = |c: char| plain(c);
        let mut k: usize = 0;
        while k < low.len()
            invariant
                k <= low.len(),
                strip == (|c: char| plain(c)),
                out@ =~= head + low@.map_values(strip).take(k as int),
            decreases low.len() - k,
        {
            out.push(strip_accent(low[k]));
            k = k + 1;
        }
        assert(low@.map_values(strip).take(k as int) =~= low@.map_values(strip));
        i = i + 1;
    }
    assert(s@.take(i as int) =~= s@);
    out
}

/// Lowercase and strip the accents Spanish and Catalan actually use.
///
/// FTS5 folds diacritics when it matches, so a hit found by searching "cancion"
/// has to be findable again inside the laid-out chapter.
pub fn fold(s: &str) -> (r: String)
    ensures
        r@ == folded(s@),
{
    let chars = chars_of(s);
    let out = fold_chars(&chars);
    string_of(&out)
}

/// Extracted text never ends in white space.
pub proof fn law_prose_ends_clean(html: Seq<char>)
    ensures
        prose(html).len() == 0 || !white(prose(html).last()),
{
    lemma_trimmed_end(with_prose(seq![], html));
}

pub proof fn lemma_trimmed_end(s: Seq<char>)
    ensures
        trimmed_end(s).len() == 0 || !white(trimmed_end(s).last()),
        s.len() == 0 || !white(s.last()) ==> trimmed_end(s) == s,
    decreases s.len(),
{
    if s.len() > 0 && white(s.last()) {
        lemma_trimmed_end(s.drop_last());
    }
}

/// Text without markup, entities or white space: a word.
pub open spec fn is_word(s: Seq<char>) -> bool {
    &&& s.len() > 0
    &&& forall|i: int| 0 <= i < s.len() ==> s[i] != '<' && s[i] != '&' && !white(#[trigger] s[i])
}

pub proof fn lemma_word_kept(out: Seq<char>, s: Seq<char>)
    requires
        forall|i: int| 0 <= i < s.len() ==> !white(#[trigger] s[i]),
    ensures
        with_words(out, s) == out + s,
    decreases s.len(),
{
    if s.len() > 0 {
        let rest = s.drop_first();
        assert forall|i: int| 0 <= i < rest.len() implies !white(#[trigger] rest[i]) by {
            assert(!white(s[i + 1]));
        }
        assert(!white(s[0]));
        lemma_word_kept(out.push(s[0]), rest);
        assert(out.push(s[0]) + rest =~= out + s);
    } else {
        assert(out + s =~= out);
    }
}

pub proof fn lemma_word_text(out: Seq<char>, s: Seq<char>)
    requires
        is_word(s),
    ensures
        with_text(out, s) == out + s,
        spot(s, '<') is None,
{
    lemma_spot(s, '&');
    lemma_spot(s, '<');
    lemma_word_kept(out, s);
}

proof fn lemma_whole_tag_has_a_name(tag: Seq<char>)
    requires
        whole_tag(tag),
    ensures
        name_of_tag(tag).len() > 0,
{
    let body = tag.drop_first();
    assert(body[0] == tag[1]);
    assert(crate::markup::without_lead(body, '<') == body);
    assert(crate::markup::without_lead(tag, '<') == body);
    assert(crate::markup::without_lead(body, '/') == body);
}

/// A tag between two words separates them, unless it is one that sits inside
/// words: then they are one word. Nothing of the tag is prose, whatever the
/// values of its attributes hold.
pub proof fn law_tags_separate_words(a: Seq<char>, tag: Seq<char>, b: Seq<char>)
    requires
        is_word(a),
        is_word(b),
        whole_tag(tag),
        ({
            let n = name_of_tag(tag);
            n != "script"@ && n != "style"@ && n != "head"@ && n != "title"@
        }),
    ensures
        ({
            let n = name_of_tag(tag);
            prose(a + tag + b) == if n == "a"@ || n == "b"@ || n == "i"@ || n == "em"@ || n == "strong"@ || n == "span"@ || n
                == "small"@ || n == "sub"@ || n == "sup"@ || n == "u"@ || n == "abbr"@ {
                a + b
            } else {
                a + seq![' '] + b
            }
        }),
{
    let name = name_of_tag(tag);
    let s = a + tag + b;
    let none = Seq::<char>::empty();
    lemma_word_text(none, a);
    assert(none + a =~= a);
    assert(s[a.len() as int] == '<');
    crate::text::lemma_spot_is(s, '<', a.len() as int);
    assert(s.take(a.len() as int) =~= a);
    let tail = s.skip(a.len() as int);
    assert(tail =~= tag + b);
    assert(tail[1] == tag[1]);
    reveal_strlit("<!--");
    reveal_strlit("<![CDATA[");
    reveal_strlit("</");
    assert(!stands_at(tail, "<!--"@, 0)) by {
        if stands_at(tail, "<!--"@, 0) {
            assert(tail.subrange(0, 4)[1] == '!');
        }
    }
    assert(!stands_at(tail, "<![CDATA["@, 0)) by {
        if stands_at(tail, "<![CDATA["@, 0) {
            assert(tail.subrange(0, 9)[1] == '!');
        }
    }
    let gt = tag.len() - 1;
    lemma_whole_tag_end(tag, b);
    assert(tail.take(gt + 1) =~= tag);
    assert(tail.skip(gt + 1) =~= b);
    lemma_whole_tag_has_a_name(tag);
    let head = if inside_words(name) {
        a
    } else {
        spaced(a)
    };
    assert(!white(a[a.len() - 1]));
    lemma_word_text(head, b);
    assert(with_prose(none, s) == with_prose(head, b));
    let whole = head + b;
    assert(with_prose(head, b) == whole);
    assert(!white(b[b.len() - 1]));
    assert(whole.last() == b[b.len() - 1]);
    lemma_trimmed_end(whole);
    if !inside_words(name) {
        assert(whole =~= a + seq![' '] + b);
    }
}

proof fn lemma_unquoted(s: Seq<char>)
    ensures
        forall|i: int| 0 <= i < unquoted(s).len() ==> unquoted(s)[i] != '"',
    decreases s.len(),
{
    if s.len() > 0 {
        let front = unquoted(s.drop_last());
        lemma_unquoted(s.drop_last());
        assert forall|i: int| 0 <= i < unquoted(s).len() implies unquoted(s)[i] != '"' by {
            if i < front.len() {
                assert(unquoted(s)[i] == front[i]);
            }
        }
    }
}

/// A query holds no operators: every term is not empty and free of quotes, so
/// the quotes around it are the only ones.
pub proof fn law_query_terms_are_plain(input: Seq<char>)
    ensures
        forall|k: int| 0 <= k < search_terms(input).len() ==> (#[trigger] search_terms(input)[k]).len() > 0,
        forall|k: int, i: int|
            0 <= k < search_terms(input).len() && 0 <= i < search_terms(input)[k].len()
                ==> (#[trigger] search_terms(input)[k][i]) != '"',
{
    lemma_clean_terms(terms_from(input, seq![]));
}

proof fn lemma_clean_terms(terms: Seq<Seq<char>>)
    ensures
        forall|k: int| 0 <= k < clean_terms(terms).len() ==> (#[trigger] clean_terms(terms)[k]).len() > 0,
        forall|k: int, i: int|
            0 <= k < clean_terms(terms).len() && 0 <= i < clean_terms(terms)[k].len()
                ==> (#[trigger] clean_terms(terms)[k][i]) != '"',
    decreases terms.len(),
{
    if terms.len() > 0 {
        lemma_clean_terms(terms.drop_last());
        lemma_unquoted(terms.last());
        let front = clean_terms(terms.drop_last());
        let all = clean_terms(terms);
        assert forall|k: int| 0 <= k < all.len() implies (#[trigger] all[k]).len() > 0 by {
            if k < front.len() {
                assert(all[k] == front[k]);
            }
        }
        assert forall|k: int, i: int| 0 <= k < all.len() && 0 <= i < all[k].len() implies (#[trigger] all[k][i])
            != '"' by {
            if k < front.len() {
                assert(all[k] == front[k]);
                assert(front[k][i] != '"');
            }
        }
    }
}

/// Folding leaves none of the accents it strips, and no soft hyphen.
pub proof fn law_folded_text_is_plain(s: Seq<char>)
    ensures
        forall|i: int| 0 <= i < folded(s).len() ==> plain(#[trigger] folded(s)[i]) == folded(s)[i],
    decreases s.len(),
{
    if s.len() > 0 {
        law_folded_text_is_plain(s.drop_last());
        let front = folded(s.drop_last());
        let low = lowercase(s.last());
        assert forall|i: int| 0 <= i < folded(s).len() implies plain(#[trigger] folded(s)[i]) == folded(s)[i] by {
            if i < front.len() {
                assert(folded(s)[i] == front[i]);
            } else {
                assert(folded(s)[i] == plain(low[i - front.len()]));
            }
        }
    }
}

/// Where the character stands that has `k` before it, soft hyphens not counted;
/// the end, if there is none.
pub open spec fn shown_at(s: Seq<char>, k: int) -> int
    decreases s.len(),
{
    if s.len() == 0 {
        0
    } else if s[0] == SOFT {
        1 + shown_at(s.drop_first(), k)
    } else if k <= 0 {
        0
    } else {
        1 + shown_at(s.drop_first(), k - 1)
    }
}

/// Where the character stands that has `k` before it, soft hyphens not counted.
fn find_shown(s: &[char], k: usize) -> (r: usize)
    ensures
        r == shown_at(s@, k as int),
        r <= s.len(),
{
    let mut left: usize = k;
    let mut i: usize = 0;
    assert(s@.skip(0) =~= s@);
    while i < s.len()
        invariant
            i <= s.len(),
            shown_at(s@, k as int) == i + shown_at(s@.skip(i as int), left as int),
        decreases s.len() - i,
    {
        proof {
            assert(s@.skip(i as int).drop_first() =~= s@.skip(i + 1));
        }
        if s[i] != SOFT {
            if left == 0 {
                return i;
            }
            left = left - 1;
        }
        i = i + 1;
    }
    i
}

/// Where a text says `wanted`, folded: the character it begins at and how many it
/// has, soft hyphens and all.
pub open spec fn matched(text: Seq<char>, wanted: Seq<char>) -> Option<(int, int)> {
    match place(folded(text), wanted) {
        Some(i) => Some((i, wanted.len() as int)),
        None => match place(folded(without_soft(text)), wanted) {
            Some(i) => {
                let from = shown_at(text, i);
                let last = shown_at(text, i + wanted.len() - 1);
                Some((from, if last < text.len() && from <= last {
                    last + 1 - from
                } else {
                    text.len() - from
                }))
            },
            None => None,
        },
    }
}

/// Where a text says something, both folded: the character it begins at and how
/// many it has. Saying nothing is no match.
pub fn char_match(text: &str, needle: &str) -> (r: Option<(usize, usize)>)
    ensures
        match r {
            Some(m) => trimmed(folded(needle@)).len() > 0 && matched(
                text@,
                trimmed(folded(needle@)),
            ) == Some((m.0 as int, m.1 as int)),
            None => trimmed(folded(needle@)).len() == 0 || matched(
                text@,
                trimmed(folded(needle@)),
            ) is None,
        },
{
    let chars = chars_of(text);
    let asked = fold_chars(&chars_of(needle));
    let wanted = trim(&asked);
    if wanted.len() == 0 {
        return None;
    }
    let said = fold_chars(&chars);
    if let Some(at) = find(&said, wanted) {
        return Some((at, wanted.len()));
    }
    let bare = fold_chars(&drop_soft(&chars));
    match find(&bare, wanted) {
        Some(at) => {
            let from: usize = find_shown(&chars, at);
            let last: usize = find_shown(&chars, at + (wanted.len() - 1));
            if last < chars.len() && from <= last {
                Some((from, last + 1 - from))
            } else {
                Some((from, chars.len() - from))
            }
        },
        None => None,
    }
}

/// Folding changes no character count where each character has one lowercase
/// character.
pub proof fn law_folding_keeps_places(a: Seq<char>)
    requires
        forall|i: int| 0 <= i < a.len() ==> lowercase(#[trigger] a[i]).len() == 1,
    ensures
        folded(a).len() == a.len(),
{
    lemma_folded_len(a);
}

/// A text is folded piece by piece: each character on its own, whatever
/// surrounds it.
pub proof fn law_folding_goes_piece_by_piece(a: Seq<char>, b: Seq<char>)
    ensures
        folded(a + b) == folded(a) + folded(b),
{
    lemma_folded_concat(a, b);
}

/// What a text says it still says when both are folded.
pub proof fn law_folding_keeps_what_is_said(a: Seq<char>, b: Seq<char>)
    requires
        holds(a, b),
    ensures
        holds(folded(a), folded(b)),
{
    let i = choose|i: int| #[trigger] stands_at(a, b, i);
    let head = a.take(i);
    let tail = a.skip(i + b.len());
    assert(a =~= head + b + tail);
    lemma_folded_concat(head + b, tail);
    lemma_folded_concat(head, b);
    let at = folded(head).len() as int;
    assert(folded(a).subrange(at, at + folded(b).len()) =~= folded(b));
    assert(stands_at(folded(a), folded(b), at));
}

proof fn lemma_folded_len(a: Seq<char>)
    requires
        forall|i: int| 0 <= i < a.len() ==> lowercase(#[trigger] a[i]).len() == 1,
    ensures
        folded(a).len() == a.len(),
    decreases a.len(),
{
    if a.len() > 0 {
        let front = a.drop_last();
        assert forall|i: int| 0 <= i < front.len() implies lowercase(#[trigger] front[i]).len() == 1 by {
            assert(lowercase(a[i]).len() == 1);
        }
        lemma_folded_len(front);
        assert(lowercase(a[a.len() - 1]).len() == 1);
    }
}

proof fn lemma_folded_concat(a: Seq<char>, b: Seq<char>)
    ensures
        folded(a + b) == folded(a) + folded(b),
    decreases b.len(),
{
    if b.len() == 0 {
        assert(a + b =~= a);
        assert(folded(a) + folded(b) =~= folded(a));
    } else {
        lemma_folded_concat(a, b.drop_last());
        assert((a + b).drop_last() =~= a + b.drop_last());
        assert(folded(a + b) =~= folded(a) + folded(b));
    }
}

proof fn lemma_collapsed_kept(out: Seq<char>, raw: Seq<char>)
    requires
        collapsed(out + raw),
    ensures
        with_words(out, raw) == out + raw,
    decreases raw.len(),
{
    if raw.len() == 0 {
        assert(out + raw =~= out);
    } else {
        let all = out + raw;
        let n = out.len() as int;
        assert(all[n] == raw[0]);
        assert(out.push(raw[0]) + raw.drop_first() =~= all);
        if white(raw[0]) {
            assert(all[n] == ' ');
            if n > 0 {
                assert(all[n - 1] == out.last());
            }
        }
        lemma_collapsed_kept(out.push(raw[0]), raw.drop_first());
    }
}

/// Text without markup or entities, its white space collapsed and none at its end,
/// is its own prose.
pub proof fn law_plain_text_is_its_own_prose(s: Seq<char>)
    requires
        collapsed(s),
        s.len() > 0 ==> !white(s.last()),
        !s.contains('<'),
        !s.contains('&'),
    ensures
        prose(s) == s,
{
    let none = Seq::<char>::empty();
    lemma_spot(s, '<');
    lemma_spot(s, '&');
    if let Some(i) = spot(s, '<') {
        assert(s.contains(s[i]));
    }
    if let Some(i) = spot(s, '&') {
        assert(s.contains(s[i]));
    }
    assert(none + s =~= s);
    lemma_collapsed_kept(none, s);
    lemma_trimmed_end(s);
}

proof fn lemma_escaped_first(s: Seq<char>)
    requires
        s.len() > 0,
    ensures
        escaped(s) == escaped_char(s[0]) + escaped(s.drop_first()),
    decreases s.len(),
{
    let rest = s.drop_first();
    if s.len() == 1 {
        assert(s.drop_last() =~= seq![]);
        assert(rest =~= seq![]);
        assert(escaped(s) =~= escaped_char(s[0]) + escaped(rest));
    } else {
        let front = s.drop_last();
        lemma_escaped_first(front);
        assert(front.drop_first() =~= rest.drop_last());
        assert(escaped(s) =~= escaped_char(s[0]) + escaped(rest));
    }
}

proof fn lemma_words_first(out: Seq<char>, s: Seq<char>)
    requires
        s.len() > 0,
    ensures
        with_words(out, s) == with_words(with_words(out, seq![s[0]]), s.drop_first()),
{
    let one = seq![s[0]];
    assert(one.drop_first() =~= seq![]);
    reveal_with_fuel(with_words, 2);
    if white(s[0]) {
        assert(with_words(out, one) == spaced(out));
    } else {
        assert(with_words(out, one) == out.push(s[0]));
    }
}

/// A character that begins no entity is read on its own.
proof fn lemma_text_first(out: Seq<char>, c: char, rest: Seq<char>)
    requires
        c != '&',
    ensures
        with_text(out, seq![c] + rest) == with_text(with_words(out, seq![c]), rest),
{
    let s = seq![c] + rest;
    assert(s.drop_first() =~= rest);
    lemma_spot(rest, '&');
    match spot(rest, '&') {
        None => {
            assert forall|i: int| 0 <= i < s.len() implies s[i] != '&' by {
                if i > 0 {
                    assert(s[i] == rest[i - 1]);
                }
            }
            lemma_no_spot(s, '&');
            lemma_words_first(out, s);
        },
        Some(k) => {
            assert forall|i: int| 0 <= i < k + 1 implies s[i] != '&' by {
                if i > 0 {
                    assert(s[i] == rest[i - 1]);
                }
            }
            assert(s[k + 1] == rest[k]);
            lemma_spot_is(s, '&', k + 1);
            let upto = s.take(k + 1);
            assert(upto.drop_first() =~= rest.take(k));
            lemma_words_first(out, upto);
            assert(s.skip(k + 1) =~= rest.skip(k));
        },
    }
}

pub proof fn lemma_ascii_bytes(s: Seq<char>)
    requires
        forall|i: int| 0 <= i < s.len() ==> (#[trigger] s[i]) as u32 <= 127,
    ensures
        bytes_len(s) == s.len(),
    decreases s.len(),
{
    if s.len() > 0 {
        let front = s.drop_last();
        assert forall|i: int| 0 <= i < front.len() implies (#[trigger] front[i]) as u32 <= 127 by {
            assert(s[i] as u32 <= 127);
        }
        lemma_ascii_bytes(front);
        assert(s[s.len() - 1] as u32 <= 127);
    }
}

/// An entity is read as the character it stands for.
pub proof fn lemma_text_entity(out: Seq<char>, name: Seq<char>, c: char, rest: Seq<char>)
    requires
        name.len() <= 8,
        forall|i: int| 0 <= i < name.len() ==> (#[trigger] name[i]) as u32 <= 127 && name[i] != ';',
        entity_text(name) == seq![c],
    ensures
        with_text(out, seq!['&'] + name + seq![';'] + rest) == with_text(
            with_words(out, seq![c]),
            rest,
        ),
{
    let s = seq!['&'] + name + seq![';'] + rest;
    let end = 1 + name.len() as int;
    lemma_spot_is(s, '&', 0);
    assert(s.skip(0) =~= s);
    assert(s.take(0) =~= seq![]);
    assert forall|j: int| 0 <= j < end implies s[j] != ';' by {
        if j > 0 {
            assert(s[j] == name[j - 1]);
        }
    }
    lemma_spot_is(s, ';', end);
    let upto = s.take(end);
    assert forall|i: int| 0 <= i < upto.len() implies (#[trigger] upto[i]) as u32 <= 127 by {
        if i > 0 {
            assert(upto[i] == name[i - 1]);
        }
    }
    lemma_ascii_bytes(upto);
    assert(s.subrange(1, end) =~= name);
    assert(s.skip(end + 1) =~= rest);
}

proof fn lemma_escaped_char_read(out: Seq<char>, c: char, rest: Seq<char>)
    ensures
        with_text(out, escaped_char(c) + rest) == with_text(with_words(out, seq![c]), rest),
{
    reveal_strlit("amp");
    reveal_strlit("lt");
    reveal_strlit("gt");
    reveal_strlit("quot");
    if c == '&' {
        reveal_strlit("&amp;");
        reveal_strlit("&");
        assert("&"@ =~= seq![c]);
        assert(escaped_char(c) =~= seq!['&'] + "amp"@ + seq![';']);
        lemma_text_entity(out, "amp"@, c, rest);
    } else if c == '<' {
        reveal_strlit("&lt;");
        reveal_strlit("<");
        assert("lt"@[0] != "amp"@[0]);
        assert("<"@ =~= seq![c]);
        assert(escaped_char(c) =~= seq!['&'] + "lt"@ + seq![';']);
        lemma_text_entity(out, "lt"@, c, rest);
    } else if c == '>' {
        reveal_strlit("&gt;");
        reveal_strlit(">");
        assert("gt"@[0] != "amp"@[0]);
        assert("gt"@[0] != "lt"@[0]);
        assert(">"@ =~= seq![c]);
        assert(escaped_char(c) =~= seq!['&'] + "gt"@ + seq![';']);
        lemma_text_entity(out, "gt"@, c, rest);
    } else if c == '"' {
        reveal_strlit("&quot;");
        reveal_strlit("\"");
        assert("quot"@[0] != "amp"@[0]);
        assert("quot"@[0] != "lt"@[0]);
        assert("quot"@[0] != "gt"@[0]);
        assert("\""@ =~= seq![c]);
        assert(escaped_char(c) =~= seq!['&'] + "quot"@ + seq![';']);
        lemma_text_entity(out, "quot"@, c, rest);
    } else if c == '\'' {
        reveal_strlit("&#39;");
        lemma_apostrophe();
        assert(escaped_char(c) =~= seq!['&'] + seq!['#', '3', '9'] + seq![';']);
        lemma_text_entity(out, seq!['#', '3', '9'], c, rest);
    } else {
        lemma_text_first(out, c, rest);
    }
}

proof fn lemma_apostrophe()
    ensures
        entity_text(seq!['#', '3', '9']) == seq!['\''],
{
    reveal_strlit("amp");
    reveal_strlit("lt");
    reveal_strlit("gt");
    reveal_strlit("quot");
    reveal_strlit("apos");
    reveal_strlit("nbsp");
    reveal_strlit("mdash");
    reveal_strlit("ndash");
    reveal_strlit("hellip");
    reveal_strlit("shy");
    let name = seq!['#', '3', '9'];
    assert(name[0] == '#');
    let d = name.drop_first();
    assert(d =~= seq!['3', '9']);
    assert(d.drop_last() =~= seq!['3']);
    assert(d.drop_last().drop_last() =~= seq![]);
    reveal_with_fuel(crate::text::digits, 3);
    assert(crate::text::digits(d, 10) == Some(39nat));
    assert(numeric_entity(name) == Some('\''));
}

proof fn lemma_escaped_text(out: Seq<char>, s: Seq<char>)
    ensures
        with_text(out, escaped(s)) == with_words(out, s),
    decreases s.len(),
{
    if s.len() == 0 {
        lemma_no_spot(escaped(s), '&');
    } else {
        let rest = s.drop_first();
        lemma_escaped_first(s);
        lemma_escaped_char_read(out, s[0], escaped(rest));
        lemma_escaped_text(with_words(out, seq![s[0]]), rest);
        lemma_words_first(out, s);
    }
}

/// Extraction undoes escaping: what is extracted of escaped text is that text, its
/// white space collapsed; so text that needs no collapsing comes back as it was.
pub proof fn law_extraction_undoes_escaping(s: Seq<char>)
    ensures
        prose(escaped(s)) == trimmed_end(with_words(seq![], s)),
        collapsed(s) && (s.len() > 0 ==> !white(s.last())) ==> prose(escaped(s)) == s,
{
    let none = Seq::<char>::empty();
    law_escaped_text_is_inert(s);
    lemma_no_spot(escaped(s), '<');
    lemma_escaped_text(none, s);
    if collapsed(s) && (s.len() > 0 ==> !white(s.last())) {
        assert(none + s =~= s);
        lemma_collapsed_kept(none, s);
        lemma_trimmed_end(s);
    }
}

/// Folding twice is folding once, where no character of the folded text has
/// another lower case.
pub proof fn law_folded_text_is_folded(a: Seq<char>)
    requires
        forall|i: int| 0 <= i < folded(a).len() ==> lowercase(#[trigger] folded(a)[i]) == seq![folded(a)[i]],
    ensures
        folded(folded(a)) == folded(a),
{
    law_folded_text_is_plain(a);
    lemma_settled(folded(a));
}

proof fn lemma_settled(s: Seq<char>)
    requires
        forall|i: int| 0 <= i < s.len() ==> lowercase(#[trigger] s[i]) == seq![s[i]],
        forall|i: int| 0 <= i < s.len() ==> plain(#[trigger] s[i]) == s[i],
    ensures
        folded(s) == s,
    decreases s.len(),
{
    if s.len() > 0 {
        let front = s.drop_last();
        assert forall|i: int| 0 <= i < front.len() implies lowercase(#[trigger] front[i]) == seq![front[i]] && plain(front[i]) == front[i] by {
            assert(lowercase(s[i]) == seq![s[i]]);
            assert(plain(s[i]) == s[i]);
        }
        lemma_settled(front);
        let last = s[s.len() - 1];
        assert(lowercase(last) == seq![last]);
        assert(plain(last) == last);
        assert(lowercase(last).map_values(|c: char| plain(c)) =~= seq![last]);
        assert(front + seq![last] =~= s);
    } else {
        assert(folded(s) =~= s);
    }
}

} // verus!
