//! What holds of extracted text and of queries, whatever is read or typed.
use crate::hyphen::{lemma_soft_concat, without_soft, SOFT};
use crate::markup::{alnum_head, end_from, name_of_tag, tag_end, without_lead};
use crate::search::{
    behind_bracketed, behind_element, clean_terms, entity_text, folded, in_quotes, is_word,
    lemma_word_text, match_expression, matched, plain, prose, search_terms, shown_at, spaced,
    terms_from, unquoted, with_prose, with_text, with_words,
};
use crate::text::{
    alphanumeric, ascii_alnum, ascii_lower, decimal, ends, holds, joined, lemma_decimal,
    lemma_place_is, lemma_spot, lemma_spot_is, lowered, place, stands_at, trimmed_end, white,
};
use vstd::prelude::*;

verus! {

/// A tag without attributes: what opens an element, or what closes it.
pub open spec fn bare_tag(name: Seq<char>, closing: bool) -> Seq<char> {
    (if closing {
        seq!['<', '/']
    } else {
        seq!['<']
    }) + name + seq!['>']
}

/// The name of an element: unaccented letters and digits.
pub open spec fn element_name(name: Seq<char>) -> bool {
    name.len() > 0 && forall|i: int| 0 <= i < name.len() ==> ascii_alnum(#[trigger] name[i])
}

/// The elements that stand inside words.
pub open spec fn phrasing(name: Seq<char>) -> bool {
    name == "a"@ || name == "b"@ || name == "i"@ || name == "em"@ || name == "strong"@ || name == "span"@
        || name == "small"@ || name == "sub"@ || name == "sup"@ || name == "u"@ || name == "abbr"@
}

/// The elements whose text is not the author's.
pub open spec fn unread(name: Seq<char>) -> bool {
    name == "script"@ || name == "style"@ || name == "head"@ || name == "title"@
}

proof fn lemma_alnum_head(name: Seq<char>, rest: Seq<char>)
    requires
        forall|i: int| 0 <= i < name.len() ==> ascii_alnum(#[trigger] name[i]),
        rest.len() == 0 || !ascii_alnum(rest[0]),
    ensures
        alnum_head(name + rest) == name,
    decreases name.len(),
{
    let s = name + rest;
    if name.len() == 0 {
        assert(s =~= rest);
    } else {
        let next = name.drop_first();
        assert forall|i: int| 0 <= i < next.len() implies ascii_alnum(#[trigger] next[i]) by {
            assert(ascii_alnum(name[i + 1]));
        }
        assert(ascii_alnum(name[0]));
        lemma_alnum_head(next, rest);
        assert(s.drop_first() =~= next + rest);
        assert(seq![name[0]] + next =~= name);
    }
}

/// A tag is called what stands behind its bracket, up to the first character that
/// is no letter or digit, in lower case; a closing tag is called as the one it closes.
pub proof fn law_a_tag_is_called_by_its_name(name: Seq<char>, rest: Seq<char>)
    requires
        element_name(name),
        rest.len() == 0 || !ascii_alnum(rest[0]),
    ensures
        name_of_tag(seq!['<'] + name + rest) == lowered(name),
        name_of_tag(seq!['<', '/'] + name + rest) == lowered(name),
{
    let body = name + rest;
    assert(ascii_alnum(name[0]));
    assert(body[0] == name[0]);
    lemma_alnum_head(name, rest);
    let open = seq!['<'] + name + rest;
    assert(open.drop_first() =~= body);
    assert(without_lead(body, '<') == body);
    assert(without_lead(open, '<') == body);
    assert(without_lead(body, '/') == body);
    let close = seq!['<', '/'] + name + rest;
    let slashed = close.drop_first();
    assert(slashed[0] == '/');
    assert(without_lead(slashed, '<') == slashed);
    assert(without_lead(close, '<') == slashed);
    assert(slashed.drop_first() =~= body);
    assert(without_lead(slashed, '/') == body);
}

pub proof fn lemma_end_of_name(s: Seq<char>, from: int, at: int)
    requires
        0 <= from <= at < s.len(),
        s[at] == '>',
        forall|i: int| from <= i < at ==> (#[trigger] s[i]) != '>' && s[i] != '"' && s[i] != '\'',
    ensures
        end_from(s, from, None) == Some(at),
    decreases at - from,
{
    if from < at {
        assert(s[from] != '>' && s[from] != '"' && s[from] != '\'');
        lemma_end_of_name(s, from + 1, at);
    }
}

/// A tag is left out of the text, and parts it unless it stands inside words.
proof fn lemma_prose_tag(out: Seq<char>, name: Seq<char>, closing: bool, rest: Seq<char>)
    requires
        element_name(name),
        closing || !unread(lowered(name)),
    ensures
        with_prose(out, bare_tag(name, closing) + rest) == with_prose(
            if phrasing(lowered(name)) {
                out
            } else {
                spaced(out)
            },
            rest,
        ),
{
    let tag = bare_tag(name, closing);
    let s = tag + rest;
    reveal_strlit("<!--");
    reveal_strlit("<![CDATA[");
    reveal_strlit("</");
    lemma_spot_is(s, '<', 0);
    assert(s.take(0) =~= seq![]);
    assert(s.skip(0) =~= s);
    lemma_nothing_read(out);
    assert(ascii_alnum(name[0]));
    assert(s[1] != '!');
    assert(behind_bracketed(s) is None) by {
        if stands_at(s, "<!--"@, 0) {
            assert(s.subrange(0, 4)[1] == '!');
        }
        if stands_at(s, "<![CDATA["@, 0) {
            assert(s.subrange(0, 9)[1] == '!');
        }
    }
    let gt = tag.len() - 1;
    assert forall|i: int| 0 <= i < gt implies (#[trigger] s[i]) != '>' && s[i] != '"' && s[i] != '\'' by {
        let k = if closing {
            2int
        } else {
            1int
        };
        if i >= k {
            assert(ascii_alnum(name[i - k]));
            assert(s[i] == name[i - k]);
        }
    }
    assert(s[gt] == '>');
    lemma_end_of_name(s, 0, gt);
    lemma_spot_is(s, '>', gt);
    assert(tag_end(s) == Some(gt));
    assert(s.take(gt + 1) =~= tag);
    assert(s.skip(gt + 1) =~= rest);
    let bracket = seq!['>'];
    law_a_tag_is_called_by_its_name(name, bracket);
    assert(name_of_tag(tag) == lowered(name));
    if closing {
        assert(tag.subrange(0, 2) =~= "</"@);
        assert(stands_at(tag, "</"@, 0));
    }
}

proof fn lemma_nothing_read(out: Seq<char>)
    ensures
        with_text(out, seq![]) == out,
        with_prose(out, seq![]) == out,
{
    let none = Seq::<char>::empty();
    lemma_spot(none, '&');
    lemma_spot(none, '<');
}

/// A word is read as it stands, up to the next tag.
proof fn lemma_prose_word(out: Seq<char>, a: Seq<char>, rest: Seq<char>)
    requires
        is_word(a),
        rest.len() == 0 || rest[0] == '<',
    ensures
        with_prose(out, a + rest) == with_prose(out + a, rest),
{
    let s = a + rest;
    lemma_word_text(out, a);
    lemma_nothing_read(out + a);
    if rest.len() == 0 {
        assert(s =~= a);
        assert(rest =~= seq![]);
    } else {
        assert forall|j: int| 0 <= j < a.len() implies s[j] != '<' by {
            assert(!white(a[j]) && a[j] != '<');
        }
        lemma_spot_is(s, '<', a.len() as int);
        assert(s.take(a.len() as int) =~= a);
        assert(s.skip(a.len() as int) =~= rest);
        lemma_spot_is(rest, '<', 0);
        assert(rest.take(0) =~= seq![]);
        assert(rest.skip(0) =~= rest);
    }
}

proof fn lemma_ends_in_a_word(out: Seq<char>, b: Seq<char>)
    requires
        is_word(b),
    ensures
        trimmed_end(out + b) == out + b,
{
    assert(!white(b[b.len() - 1]));
    assert((out + b).last() == b[b.len() - 1]);
}

/// A tag between two words parts them, whether it opens an element or closes one;
/// only the tags of elements that stand inside words leave them one word.
pub proof fn law_elements_separate_words(a: Seq<char>, name: Seq<char>, closing: bool, b: Seq<char>)
    requires
        is_word(a),
        is_word(b),
        element_name(name),
        closing || lowered(name) != "script"@ && lowered(name) != "style"@ && lowered(name) != "head"@
            && lowered(name) != "title"@,
    ensures
        ({
            let n = lowered(name);
            prose(a + bare_tag(name, closing) + b) == if n == "a"@ || n == "b"@ || n == "i"@ || n == "em"@ || n == "strong"@ || n == "span"@ || n
                == "small"@ || n == "sub"@ || n == "sup"@ || n == "u"@ || n == "abbr"@ {
                a + b
            } else {
                a + seq![' '] + b
            }
        }),
{
    let none = Seq::<char>::empty();
    let tag = bare_tag(name, closing);
    let s = a + tag + b;
    assert(s =~= a + (tag + b));
    lemma_prose_word(none, a, tag + b);
    assert(none + a =~= a);
    lemma_prose_tag(a, name, closing, b);
    assert(!white(a[a.len() - 1]));
    let head = if phrasing(lowered(name)) {
        a
    } else {
        a.push(' ')
    };
    assert(spaced(a) == a.push(' '));
    assert(b + none =~= b);
    lemma_prose_word(head, b, none);
    lemma_nothing_read(head + b);
    lemma_ends_in_a_word(head, b);
    assert(a.push(' ') + b =~= a + seq![' '] + b);
}

/// An element with a word in it.
pub open spec fn element(name: Seq<char>, word: Seq<char>) -> Seq<char> {
    bare_tag(name, false) + word + bare_tag(name, true)
}

/// Two paragraphs, items or cells are two words, and two runs inside a word are one.
pub proof fn law_neighbours_are_told_apart(name: Seq<char>, a: Seq<char>, b: Seq<char>)
    requires
        is_word(a),
        is_word(b),
        element_name(name),
        !unread(lowered(name)),
    ensures
        prose(element(name, a) + element(name, b)) == if phrasing(lowered(name)) {
            a + b
        } else {
            a + seq![' '] + b
        },
{
    let none = Seq::<char>::empty();
    let open = bare_tag(name, false);
    let close = bare_tag(name, true);
    let s = element(name, a) + element(name, b);
    let third = b + (close + none);
    let second = close + (open + third);
    assert(s =~= open + (a + second));
    lemma_prose_tag(none, name, false, a + second);
    lemma_prose_word(none, a, second);
    assert(none + a =~= a);
    assert(!white(a[a.len() - 1]));
    lemma_prose_tag(a, name, true, open + third);
    let head = if phrasing(lowered(name)) {
        a
    } else {
        a.push(' ')
    };
    assert(spaced(a) == a.push(' '));
    assert(spaced(a.push(' ')) == a.push(' '));
    lemma_prose_tag(head, name, false, third);
    lemma_prose_word(head, b, close + none);
    lemma_prose_tag(head + b, name, true, none);
    lemma_nothing_read(head + b);
    lemma_nothing_read(spaced(head + b));
    lemma_ends_in_a_word(head, b);
    assert(!white(b[b.len() - 1]));
    assert((head + b).push(' ').drop_last() =~= head + b);
    assert(trimmed_end((head + b).push(' ')) == trimmed_end(head + b));
    assert(a.push(' ') + b =~= a + seq![' '] + b);
}

proof fn lemma_lowered_char(c: char)
    ensures
        ascii_lower(c) == '<' <==> c == '<',
        ascii_lower(c) == '/' <==> c == '/',
{
}

/// Scripts, style sheets and the head are no prose, whatever they hold: what stands
/// in them is left out, and the words around them are told apart.
pub proof fn law_scripts_are_not_read(a: Seq<char>, name: Seq<char>, within: Seq<char>, b: Seq<char>)
    requires
        is_word(a),
        is_word(b),
        name == "script"@ || name == "style"@ || name == "head"@ || name == "title"@,
        !holds(within, "</"@),
    ensures
        prose(a + bare_tag(name, false) + within + bare_tag(name, true) + b) == a + seq![' '] + b,
{
    reveal_strlit("script");
    reveal_strlit("style");
    reveal_strlit("head");
    reveal_strlit("title");
    reveal_strlit("</");
    reveal_strlit("/>");
    reveal_strlit("<!--");
    reveal_strlit("<![CDATA[");
    let none = Seq::<char>::empty();
    let open = bare_tag(name, false);
    let close = bare_tag(name, true);
    let next = within + close + b;
    let tail = open + next;
    let s = a + open + within + close + b;
    assert(s =~= a + tail);
    lemma_prose_word(none, a, tail);
    assert(none + a =~= a);
    assert(lowered(name) =~= name);
    assert(element_name(name));
    lemma_spot_is(tail, '<', 0);
    assert(tail.take(0) =~= none);
    assert(tail.skip(0) =~= tail);
    lemma_nothing_read(a);
    assert(tail[1] == name[0]);
    assert(behind_bracketed(tail) is None) by {
        if stands_at(tail, "<!--"@, 0) {
            assert(tail.subrange(0, 4)[1] == '!');
        }
        if stands_at(tail, "<![CDATA["@, 0) {
            assert(tail.subrange(0, 9)[1] == '!');
        }
    }
    let gt = open.len() - 1;
    assert forall|i: int| 0 <= i < gt implies (#[trigger] tail[i]) != '>' && tail[i] != '"' && tail[i] != '\'' by {
        if i >= 1 {
            assert(ascii_alnum(name[i - 1]));
            assert(tail[i] == name[i - 1]);
        }
    }
    lemma_end_of_name(tail, 0, gt);
    assert(tail.take(gt + 1) =~= open);
    assert(tail.skip(gt + 1) =~= next);
    law_a_tag_is_called_by_its_name(name, seq!['>']);
    assert(!stands_at(open, "</"@, 0)) by {
        if stands_at(open, "</"@, 0) {
            assert(open.subrange(0, 2)[1] == '/');
        }
    }
    assert(!ends(open, "/>"@)) by {
        if ends(open, "/>"@) {
            assert(open.subrange(open.len() - 2, open.len() as int)[0] == '/');
            assert(ascii_alnum(name[name.len() - 1]));
        }
    }
    lemma_behind(name, within, b);
    assert(!white(a[a.len() - 1]));
    let head = a.push(' ');
    assert(with_prose(a, tail) == with_prose(spaced(a), behind_element(next, name)));
    assert(b + none =~= b);
    lemma_prose_word(head, b, none);
    lemma_nothing_read(head + b);
    lemma_ends_in_a_word(head, b);
    assert(head + b =~= a + seq![' '] + b);
}

proof fn lemma_behind(name: Seq<char>, within: Seq<char>, b: Seq<char>)
    requires
        element_name(name),
        lowered(name) == name,
        !holds(within, "</"@),
    ensures
        behind_element(within + bare_tag(name, true) + b, name) == b,
{
    reveal_strlit("</");
    let close = bare_tag(name, true);
    let next = within + close + b;
    let low = lowered(next);
    let pat = "</"@ + name;
    let n = within.len() as int;
    assert(low.subrange(n, n + pat.len()) =~= pat) by {
        assert forall|i: int| 0 <= i < pat.len() implies low[n + i] == #[trigger] pat[i] by {
            assert(next[n + i] == close[i]);
            lemma_lowered_char(next[n + i]);
            if i >= 2 {
                assert(close[i] == name[i - 2]);
                assert(lowered(name)[i - 2] == name[i - 2]);
            }
        }
    }
    assert forall|j: int| 0 <= j < n implies !#[trigger] stands_at(low, pat, j) by {
        if stands_at(low, pat, j) {
            let found = low.subrange(j, j + pat.len());
            assert(found[0] == '<' && found[1] == '/');
            lemma_lowered_char(next[j]);
            lemma_lowered_char(next[j + 1]);
            assert(low[j] == ascii_lower(next[j]) && low[j + 1] == ascii_lower(next[j + 1]));
            if j + 1 < n {
                assert(within.subrange(j, j + 2) =~= "</"@);
                assert(stands_at(within, "</"@, j));
            } else {
                assert(next[j + 1] == '<');
            }
        }
    }
    lemma_place_is(low, pat, n);
    let tail = next.skip(n);
    assert(tail =~= close + b);
    let gt = close.len() - 1;
    assert forall|j: int| 0 <= j < gt implies tail[j] != '>' by {
        if j >= 2 {
            assert(ascii_alnum(name[j - 2]));
            assert(tail[j] == name[j - 2]);
        }
    }
    lemma_spot_is(tail, '>', gt);
    assert(next.skip(n + gt + 1) =~= b);
}

/// A character written out by a name between two words stands between them: a
/// space parts them, and a place where a word may break is nothing.
pub proof fn law_named_characters_are_read(a: Seq<char>, b: Seq<char>)
    requires
        is_word(a),
        is_word(b),
    ensures
        prose(a + "&amp;"@ + b) == a + seq!['&'] + b,
        prose(a + "&lt;"@ + b) == a + seq!['<'] + b,
        prose(a + "&gt;"@ + b) == a + seq!['>'] + b,
        prose(a + "&quot;"@ + b) == a + seq!['"'] + b,
        prose(a + "&apos;"@ + b) == a + seq!['\''] + b,
        prose(a + "&mdash;"@ + b) == a + seq!['\u{2014}'] + b,
        prose(a + "&ndash;"@ + b) == a + seq!['\u{2013}'] + b,
        prose(a + "&hellip;"@ + b) == a + seq!['\u{2026}'] + b,
        prose(a + "&nbsp;"@ + b) == a + seq![' '] + b,
        prose(a + "&shy;"@ + b) == a + b,
{
    reveal_strlit("amp");
    reveal_strlit("lt");
    reveal_strlit("gt");
    reveal_strlit("quot");
    reveal_strlit("apos");
    reveal_strlit("nbsp");
    reveal_strlit("mdash");
    reveal_strlit("ndash");
    reveal_strlit("hellip");
    reveal_strlit("shy");
    reveal_strlit("&amp;");
    reveal_strlit("&lt;");
    reveal_strlit("&gt;");
    reveal_strlit("&quot;");
    reveal_strlit("&apos;");
    reveal_strlit("&nbsp;");
    reveal_strlit("&mdash;");
    reveal_strlit("&ndash;");
    reveal_strlit("&hellip;");
    reveal_strlit("&shy;");
    reveal_strlit("&");
    reveal_strlit("<");
    reveal_strlit(">");
    reveal_strlit("\"");
    reveal_strlit("'");
    reveal_strlit(" ");
    reveal_strlit("—");
    reveal_strlit("–");
    reveal_strlit("…");
    assert("&amp;"@ =~= reference("amp"@));
    assert("&lt;"@ =~= reference("lt"@));
    assert("&gt;"@ =~= reference("gt"@));
    assert("&quot;"@ =~= reference("quot"@));
    assert("&apos;"@ =~= reference("apos"@));
    assert("&nbsp;"@ =~= reference("nbsp"@));
    assert("&mdash;"@ =~= reference("mdash"@));
    assert("&ndash;"@ =~= reference("ndash"@));
    assert("&hellip;"@ =~= reference("hellip"@));
    assert("&shy;"@ =~= reference("shy"@));
    assert("lt"@[0] != "amp"@[0] && "gt"@[0] != "amp"@[0] && "gt"@[0] != "lt"@[0]);
    assert("quot"@.len() == 4 && "apos"@[1] == 'p' && "nbsp"@[0] == 'n' && "mdash"@[0] == 'm'
        && "ndash"@[0] == 'n' && "hellip"@[0] == 'h' && "shy"@[0] == 's');
    assert("&"@ =~= seq!['&'] && "<"@ =~= seq!['<'] && ">"@ =~= seq!['>'] && "\""@ =~= seq!['"']
        && "'"@ =~= seq!['\''] && " "@ =~= seq![' '] && "—"@ =~= seq!['\u{2014}'] && "–"@
        =~= seq!['\u{2013}'] && "…"@ =~= seq!['\u{2026}']);
    lemma_reference_char(a, "amp"@, '&', b);
    lemma_reference_char(a, "lt"@, '<', b);
    lemma_reference_char(a, "gt"@, '>', b);
    lemma_reference_char(a, "quot"@, '"', b);
    lemma_reference_char(a, "apos"@, '\'', b);
    lemma_reference(a, "nbsp"@, b);
    lemma_reference_char(a, "mdash"@, '\u{2014}', b);
    lemma_reference_char(a, "ndash"@, '\u{2013}', b);
    lemma_reference_char(a, "hellip"@, '\u{2026}', b);
    lemma_reference(a, "shy"@, b);
    lemma_ends_in_a_word(a, b);
    lemma_one_read(a, ' ');
    lemma_ends_in_a_word(a.push(' '), b);
    assert(!white(a[a.len() - 1]));
    assert(a.push(' ') + b =~= a + seq![' '] + b);
}

proof fn lemma_one_read(out: Seq<char>, c: char)
    ensures
        with_words(out, seq![c]) == if white(c) {
            spaced(out)
        } else {
            out.push(c)
        },
{
    let one = seq![c];
    assert(one.drop_first() =~= seq![]);
    reveal_with_fuel(with_words, 2);
}

proof fn lemma_reference_char(a: Seq<char>, name: Seq<char>, c: char, b: Seq<char>)
    requires
        is_word(a),
        is_word(b),
        0 < name.len() <= 9,
        forall|i: int| 0 <= i < name.len() ==> (#[trigger] name[i]) as u32 <= 127 && name[i] != ';' && name[i]
            != '<',
        entity_text(name) == seq![c],
        !white(c),
    ensures
        prose(a + reference(name) + b) == a + seq![c] + b,
{
    lemma_reference(a, name, b);
    lemma_one_read(a, c);
    lemma_ends_in_a_word(a.push(c), b);
    assert(a.push(c) + b =~= a + seq![c] + b);
}

/// A character reference.
pub open spec fn reference(name: Seq<char>) -> Seq<char> {
    seq!['&'] + name + seq![';']
}

proof fn lemma_reference(a: Seq<char>, name: Seq<char>, b: Seq<char>)
    requires
        is_word(a),
        is_word(b),
        0 < name.len() <= 9,
        forall|i: int| 0 <= i < name.len() ==> (#[trigger] name[i]) as u32 <= 127 && name[i] != ';' && name[i]
            != '<',
    ensures
        prose(a + reference(name) + b) == trimmed_end(with_words(a, entity_text(name)) + b),
{
    let none = Seq::<char>::empty();
    let s = a + reference(name) + b;
    assert forall|i: int| 0 <= i < s.len() implies s[i] != '<' by {
        if i < a.len() {
            assert(!white(a[i]) && a[i] != '<');
        } else if a.len() < i < a.len() + 1 + name.len() {
            assert(name[i - a.len() - 1] != '<');
        } else if i >= a.len() + name.len() + 2 {
            let k = i - a.len() - name.len() - 2;
            assert(!white(b[k]) && b[k] != '<');
        }
    }
    crate::text::lemma_no_spot(s, '<');
    assert(with_prose(none, s) == with_text(none, s));
    assert forall|i: int| 0 <= i < a.len() implies s[i] != '&' by {
        assert(!white(a[i]) && a[i] != '&');
    }
    lemma_spot_is(s, '&', a.len() as int);
    assert(s.take(a.len() as int) =~= a);
    let tail = s.skip(a.len() as int);
    let end = 1 + name.len() as int;
    assert forall|j: int| 0 <= j < end implies tail[j] != ';' by {
        if j > 0 {
            assert(name[j - 1] != ';');
            assert(tail[j] == name[j - 1]);
        }
    }
    lemma_spot_is(tail, ';', end);
    let upto = tail.take(end);
    assert forall|i: int| 0 <= i < upto.len() implies (#[trigger] upto[i]) as u32 <= 127 by {
        if i > 0 {
            assert(upto[i] == name[i - 1]);
        }
    }
    crate::search::lemma_ascii_bytes(upto);
    assert(tail.subrange(1, end) =~= name);
    assert(tail.skip(end + 1) =~= b);
    crate::search::lemma_word_kept(none, a);
    assert(none + a =~= a);
    lemma_word_text(with_words(a, entity_text(name)), b);
}

/// A character written out by its number stands between two words as itself.
pub proof fn law_numbered_characters_are_read(a: Seq<char>, c: char, b: Seq<char>)
    requires
        is_word(a),
        is_word(b),
        !white(c),
    ensures
        prose(a + seq!['&', '#'] + decimal((c as u32) as nat) + seq![';'] + b) == a + seq![c] + b,
{
    reveal_strlit("amp");
    reveal_strlit("lt");
    reveal_strlit("gt");
    reveal_strlit("quot");
    reveal_strlit("apos");
    reveal_strlit("nbsp");
    reveal_strlit("mdash");
    reveal_strlit("ndash");
    reveal_strlit("hellip");
    reveal_strlit("shy");
    let n = (c as u32) as nat;
    let digits = decimal(n);
    lemma_decimal(n);
    lemma_few_digits(n);
    let name = seq!['#'] + digits;
    assert(name[0] == '#');
    assert(name.drop_first() =~= digits);
    crate::text::law_numbers_round_trip(n, u32::MAX as nat);
    assert(digits[0] as u32 <= 57);
    assert(entity_text(name) =~= seq![c]);
    assert forall|i: int| 0 <= i < name.len() implies (#[trigger] name[i]) as u32 <= 127 && name[i] != ';' && name[i]
        != '<' by {
        if i > 0 {
            assert(name[i] == digits[i - 1]);
        }
    }
    lemma_reference_char(a, name, c, b);
    assert(a + seq!['&', '#'] + digits + seq![';'] + b =~= a + reference(name) + b);
}

proof fn lemma_few_digits(n: nat)
    requires
        n < 10_000_000,
    ensures
        decimal(n).len() <= 7,
{
    reveal_with_fuel(decimal, 8);
}

/// A character of a search term: a letter, a digit or an apostrophe.
pub open spec fn of_term(c: char) -> bool {
    (alphanumeric(c) || c == '\'') && c != '"'
}

/// A character that stands between search terms.
pub open spec fn between_terms(c: char) -> bool {
    !alphanumeric(c) && c != '\''
}

proof fn lemma_term_read(w: Seq<char>, rest: Seq<char>, before: Seq<char>)
    requires
        forall|i: int| 0 <= i < w.len() ==> of_term(#[trigger] w[i]),
    ensures
        terms_from(w + rest, before) == terms_from(rest, before + w),
    decreases w.len(),
{
    let s = w + rest;
    if w.len() == 0 {
        assert(s =~= rest);
        assert(before + w =~= before);
    } else {
        let next = w.drop_first();
        assert forall|i: int| 0 <= i < next.len() implies of_term(#[trigger] next[i]) by {
            assert(of_term(w[i + 1]));
        }
        assert(of_term(w[0]));
        lemma_term_read(next, rest, before.push(w[0]));
        assert(s.drop_first() =~= next + rest);
        assert(before.push(w[0]) + next =~= before + w);
    }
}

proof fn lemma_unquoted_kept(s: Seq<char>)
    requires
        forall|i: int| 0 <= i < s.len() ==> (#[trigger] s[i]) != '"',
    ensures
        unquoted(s) == s,
    decreases s.len(),
{
    if s.len() > 0 {
        let front = s.drop_last();
        assert forall|i: int| 0 <= i < front.len() implies (#[trigger] front[i]) != '"' by {
            assert(s[i] != '"');
        }
        lemma_unquoted_kept(front);
        assert(s[s.len() - 1] != '"');
        assert(front.push(s.last()) =~= s);
    }
}

proof fn lemma_clean_first(t: Seq<char>, rest: Seq<Seq<char>>)
    requires
        t.len() > 0,
        unquoted(t) == t,
    ensures
        clean_terms(seq![t] + rest) == seq![t] + clean_terms(rest),
    decreases rest.len(),
{
    let all = seq![t] + rest;
    if rest.len() == 0 {
        assert(all.drop_last() =~= seq![]);
        reveal_with_fuel(clean_terms, 2);
        assert(clean_terms(all) =~= seq![t] + clean_terms(rest));
    } else {
        lemma_clean_first(t, rest.drop_last());
        assert(all.drop_last() =~= seq![t] + rest.drop_last());
        assert(all.last() == rest.last());
        assert(clean_terms(all) =~= seq![t] + clean_terms(rest));
    }
}

/// Every word typed is a search term, as typed and in its turn, up to whatever
/// stands between words; that is no part of a query.
pub proof fn law_every_typed_word_is_sought(w: Seq<char>, c: char, rest: Seq<char>)
    requires
        w.len() > 0,
        forall|i: int| 0 <= i < w.len() ==> of_term(#[trigger] w[i]),
        between_terms(c),
    ensures
        search_terms(w) == seq![w],
        search_terms(w.push(c) + rest) == seq![w] + search_terms(rest),
        search_terms(seq![c] + rest) == search_terms(rest),
        search_terms(seq![]) == Seq::<Seq<char>>::empty(),
{
    let none = Seq::<char>::empty();
    assert forall|i: int| 0 <= i < w.len() implies (#[trigger] w[i]) != '"' by {
        assert(of_term(w[i]));
    }
    lemma_unquoted_kept(w);
    lemma_term_read(w, none, none);
    assert(w + none =~= w);
    assert(none + w =~= w);
    let empty = Seq::<Seq<char>>::empty();
    lemma_clean_first(w, empty);
    assert(seq![w] + empty =~= seq![w]);
    assert(clean_terms(empty) =~= empty);
    let s = w.push(c) + rest;
    let tail = seq![c] + rest;
    assert(s =~= w + tail);
    assert(tail.drop_first() =~= rest);
    lemma_term_read(w, tail, none);
    lemma_clean_first(w, terms_from(rest, none));
}

/// A query asks for every term by itself, between quotes, the last of them as the
/// beginning of a word.
pub proof fn law_queries_ask_for_every_term(terms: Seq<Seq<char>>, t: Seq<char>)
    ensures
        match_expression(seq![t]) == seq!['"'] + t + seq!['"', '*'],
        terms.len() > 0 ==> match_expression(terms.push(t)) == match_expression(terms).drop_last()
            + seq![' ', '"'] + t + seq!['"', '*'],
{
    reveal_strlit(" ");
    let quote = |x: Seq<char>| in_quotes(x);
    let one = seq![t];
    assert(one.map_values(quote) =~= seq![in_quotes(t)]);
    assert(match_expression(one) =~= seq!['"'] + t + seq!['"', '*']);
    if terms.len() > 0 {
        let all = terms.push(t).map_values(quote);
        assert(all.drop_last() =~= terms.map_values(quote));
        assert(all.last() == in_quotes(t));
        let head = joined(terms.map_values(quote), " "@);
        assert(match_expression(terms).drop_last() =~= head);
        assert(match_expression(terms.push(t)) =~= head + seq![' ', '"'] + t + seq!['"', '*']);
    }
}

/// The accents of Spanish and Catalan are stripped from the letters that have them,
/// and no other character is changed but a soft hyphen, which is a space.
pub proof fn law_accents_are_stripped(c: char)
    ensures
        "áàäâã"@.contains(c) ==> plain(c) == 'a',
        "éèëê"@.contains(c) ==> plain(c) == 'e',
        "íìïî"@.contains(c) ==> plain(c) == 'i',
        "óòöôõ"@.contains(c) ==> plain(c) == 'o',
        "úùüû"@.contains(c) ==> plain(c) == 'u',
        "ñ"@.contains(c) ==> plain(c) == 'n',
        "ç"@.contains(c) ==> plain(c) == 'c',
        "ýÿ"@.contains(c) ==> plain(c) == 'y',
        c == '\u{ad}' ==> plain(c) == ' ',
        c == '\u{ad}' || "áàäâãéèëêíìïîóòöôõúùüûñçýÿ"@.contains(c) || plain(c) == c,
{
    reveal_strlit("áàäâã");
    reveal_strlit("éèëê");
    reveal_strlit("íìïî");
    reveal_strlit("óòöôõ");
    reveal_strlit("úùüû");
    reveal_strlit("ñ");
    reveal_strlit("ç");
    reveal_strlit("ýÿ");
    reveal_strlit("áàäâãéèëêíìïîóòöôõúùüûñçýÿ");
    let all = "áàäâãéèëêíìïîóòöôõúùüûñçýÿ"@;
    if plain(c) != c && c != '\u{ad}' {
        assert(exists|i: int| 0 <= i < 26 && all[i] == c) by {
            assert(all[0] == 'á' && all[1] == 'à' && all[2] == 'ä' && all[3] == 'â' && all[4] == 'ã');
            assert(all[5] == 'é' && all[6] == 'è' && all[7] == 'ë' && all[8] == 'ê');
            assert(all[9] == 'í' && all[10] == 'ì' && all[11] == 'ï' && all[12] == 'î');
            assert(all[13] == 'ó' && all[14] == 'ò' && all[15] == 'ö' && all[16] == 'ô' && all[17] == 'õ');
            assert(all[18] == 'ú' && all[19] == 'ù' && all[20] == 'ü' && all[21] == 'û');
            assert(all[22] == 'ñ' && all[23] == 'ç' && all[24] == 'ý' && all[25] == 'ÿ');
        }
    }
}

proof fn lemma_shown(s: Seq<char>, k: int)
    requires
        0 <= k < without_soft(s).len(),
    ensures
        ({
            let p = shown_at(s, k);
            &&& 0 <= p < s.len()
            &&& s[p] == without_soft(s)[k]
            &&& s[p] != SOFT
            &&& without_soft(s.take(p)) == without_soft(s).take(k)
        }),
    decreases s.len(),
{
    let rest = s.drop_first();
    let p = shown_at(s, k);
    if s[0] == SOFT {
        lemma_shown(rest, k);
        assert(s.take(p).drop_first() =~= rest.take(p - 1));
    } else if k == 0 {
        assert(s.take(0) =~= Seq::empty());
        assert(without_soft(s).take(0) =~= Seq::empty());
    } else {
        assert(without_soft(s)[k] == without_soft(rest)[k - 1]);
        lemma_shown(rest, k - 1);
        assert(s.take(p).drop_first() =~= rest.take(p - 1));
        assert(seq![s[0]] + without_soft(rest).take(k - 1) =~= without_soft(s).take(k));
    }
}

/// A match is where the words first stand. Where they stand only without the marks of
/// where words may break, it is what is shown of them, marks among it and none before.
pub proof fn law_a_match_is_what_is_shown_of_the_words(text: Seq<char>, wanted: Seq<char>, i: int)
    requires
        wanted.len() > 0,
        0 <= i,
    ensures
        place(folded(text), wanted) == Some(i) ==> matched(text, wanted) == Some(
            (i, wanted.len() as int),
        ),
        place(folded(text), wanted) is None && place(folded(without_soft(text)), wanted) is None
            ==> matched(text, wanted) is None,
        place(folded(text), wanted) is None && place(folded(without_soft(text)), wanted) == Some(i) && i
            + wanted.len() <= without_soft(text).len() ==> (matched(text, wanted) matches Some(m) && {
            &&& 0 <= m.0 && 0 <= m.1 && m.0 + m.1 <= text.len()
            &&& without_soft(text.take(m.0)) == without_soft(text).take(i)
            &&& without_soft(text.subrange(m.0, m.0 + m.1)) == without_soft(text).subrange(
                i,
                i + wanted.len(),
            )
        }),
{
    let plain = without_soft(text);
    if place(folded(text), wanted) is None && place(folded(plain), wanted) == Some(i) && i
        + wanted.len() <= plain.len() {
        let last = i + wanted.len() - 1;
        let from = shown_at(text, i);
        let to = shown_at(text, last);
        lemma_shown(text, i);
        lemma_shown(text, last);
        if to < from {
            let between = text.subrange(to, from);
            assert(text.take(from) =~= text.take(to) + between);
            lemma_soft_concat(text.take(to), between);
            assert(plain.take(i).len() == i && plain.take(last).len() == last);
            assert(between.len() > 0 && between[0] == text[to] && between[0] != SOFT);
            assert(without_soft(between).len() > 0);
        }
        let piece = text.subrange(from, to + 1);
        assert(text.take(to + 1) =~= text.take(to) + seq![text[to]]);
        lemma_soft_concat(text.take(to), seq![text[to]]);
        reveal_with_fuel(without_soft, 2);
        assert(seq![text[to]].drop_first() =~= Seq::empty());
        assert(without_soft(seq![text[to]]) =~= seq![text[to]]);
        assert(without_soft(text.take(to + 1)) =~= plain.take(last + 1));
        assert(text.take(to + 1) =~= text.take(from) + piece);
        lemma_soft_concat(text.take(from), piece);
        let said = without_soft(piece);
        assert(plain.take(i) + said == plain.take(last + 1));
        assert(said =~= plain.subrange(i, last + 1)) by {
            assert(said.len() == last + 1 - i);
            assert forall|k: int| 0 <= k < said.len() implies said[k] == plain[i + k] by {
                assert((plain.take(i) + said)[i + k] == said[k]);
                assert(plain.take(last + 1)[i + k] == plain[i + k]);
            }
        }
    }
}

} // verus!
