//! What holds of hyphenated text, whatever the language and the markup.
use crate::hyphen::{
    chars_before, language, letter, marked, marked_from, marked_html, marked_run, primary,
    with_breaks, word_breaks, Lang,
};
use crate::markup::{name_of_tag, tag_end};
use crate::search::behind_bracketed;
use crate::search_laws::{
    bare_tag, element_name, law_a_tag_is_called_by_its_name, lemma_end_of_name,
};
use crate::text::{
    alphabetic, ascii_alnum, ascii_lower, ends, lemma_spot, lemma_spot_is, lowered, stands_at,
    trimmed,
};
use vstd::prelude::*;

verus! {

/// A language tag whose first part is the two letters `a` and `b`, in either case:
/// they are all of it, or a hyphen or an underscore parts them from the rest.
pub open spec fn tagged(tag: Seq<char>, a: char, b: char) -> bool {
    &&& tag.len() >= 2
    &&& ascii_lower(tag[0]) == a
    &&& ascii_lower(tag[1]) == b
    &&& tag.len() > 2 ==> tag[2] == '-' || tag[2] == '_'
}

proof fn lemma_primary(tag: Seq<char>)
    requires
        tag.len() >= 2,
        tag[0] != '-' && tag[0] != '_',
        tag[1] != '-' && tag[1] != '_',
        tag.len() > 2 ==> tag[2] == '-' || tag[2] == '_',
    ensures
        primary(tag) == tag.take(2),
{
    let one = tag.drop_first();
    let two = one.drop_first();
    reveal_with_fuel(primary, 3);
    assert(one[0] == tag[1]);
    if tag.len() > 2 {
        assert(two[0] == tag[2]);
    }
    assert(primary(tag) =~= tag.take(2));
}

proof fn lemma_primary_head(tag: Seq<char>)
    ensures
        primary(tag).len() <= tag.len(),
        primary(tag) == tag.take(primary(tag).len() as int),
        primary(tag).len() < tag.len() ==> tag[primary(tag).len() as int] == '-' || tag[primary(
            tag,
        ).len() as int] == '_',
    decreases tag.len(),
{
    if tag.len() > 0 && tag[0] != '-' && tag[0] != '_' {
        let rest = tag.drop_first();
        lemma_primary_head(rest);
        let n = primary(rest).len() as int;
        if n < rest.len() {
            assert(tag[n + 1] == rest[n]);
        }
        assert(primary(tag) =~= tag.take(n + 1));
    } else {
        assert(primary(tag) =~= tag.take(0));
    }
}

proof fn lemma_code(tag: Seq<char>, code: Seq<char>, a: char, b: char)
    requires
        code == seq![a, b],
        'a' <= a <= 'z',
        'a' <= b <= 'z',
    ensures
        lowered(primary(tag)) == code <==> tagged(tag, a, b),
{
    lemma_primary_head(tag);
    let p = primary(tag);
    if lowered(p) == code {
        assert(p.len() == lowered(p).len());
        assert(lowered(p)[0] == ascii_lower(p[0]) && lowered(p)[1] == ascii_lower(p[1]));
        assert(p[0] == tag[0] && p[1] == tag[1]);
    }
    if tagged(tag, a, b) {
        assert(tag[0] != '-' && tag[0] != '_' && tag[1] != '-' && tag[1] != '_');
        lemma_primary(tag);
        assert(lowered(p) =~= code);
    }
}

/// A book is hyphenated in the language that the first part of its language tag
/// names, by the two letters that stand for it, however they are written; no other
/// tag has any patterns.
pub proof fn law_languages_go_by_their_codes(tag: Seq<char>)
    ensures
        language(tag) == Some(Lang::English) <==> tagged(tag, 'e', 'n'),
        language(tag) == Some(Lang::Spanish) <==> tagged(tag, 'e', 's'),
        language(tag) == Some(Lang::Catalan) <==> tagged(tag, 'c', 'a'),
        language(tag) == Some(Lang::Portuguese) <==> tagged(tag, 'p', 't'),
        language(tag) == Some(Lang::French) <==> tagged(tag, 'f', 'r'),
        language(tag) == Some(Lang::German) <==> tagged(tag, 'd', 'e'),
        language(tag) == Some(Lang::Italian) <==> tagged(tag, 'i', 't'),
{
    reveal_strlit("en");
    reveal_strlit("es");
    reveal_strlit("ca");
    reveal_strlit("pt");
    reveal_strlit("fr");
    reveal_strlit("de");
    reveal_strlit("it");
    assert("en"@ =~= seq!['e', 'n']);
    assert("es"@ =~= seq!['e', 's']);
    assert("ca"@ =~= seq!['c', 'a']);
    assert("pt"@ =~= seq!['p', 't']);
    assert("fr"@ =~= seq!['f', 'r']);
    assert("de"@ =~= seq!['d', 'e']);
    assert("it"@ =~= seq!['i', 't']);
    lemma_code(tag, "en"@, 'e', 'n');
    lemma_code(tag, "es"@, 'e', 's');
    lemma_code(tag, "ca"@, 'c', 'a');
    lemma_code(tag, "pt"@, 'p', 't');
    lemma_code(tag, "fr"@, 'f', 'r');
    lemma_code(tag, "de"@, 'd', 'e');
    lemma_code(tag, "it"@, 'i', 't');
}

/// Whatever follows the first part of a language tag, and the case it is written in,
/// make no difference.
pub proof fn law_regions_are_hyphenated_alike(tag: Seq<char>, region: Seq<char>)
    ensures
        language(tag + seq!['-'] + region) == language(tag),
        language(tag + seq!['_'] + region) == language(tag),
        language(lowered(tag)) == language(tag),
{
    lemma_primary_behind(tag, seq!['-'] + region);
    lemma_primary_behind(tag, seq!['_'] + region);
    assert(tag + seq!['-'] + region =~= tag + (seq!['-'] + region));
    assert(tag + seq!['_'] + region =~= tag + (seq!['_'] + region));
    lemma_primary_lowered(tag);
}

proof fn lemma_primary_behind(tag: Seq<char>, rest: Seq<char>)
    requires
        rest.len() > 0,
        rest[0] == '-' || rest[0] == '_',
    ensures
        primary(tag + rest) == primary(tag),
    decreases tag.len(),
{
    let s = tag + rest;
    if tag.len() == 0 {
        assert(s[0] == rest[0]);
    } else {
        assert(s[0] == tag[0]);
        lemma_primary_behind(tag.drop_first(), rest);
        assert(s.drop_first() =~= tag.drop_first() + rest);
    }
}

proof fn lemma_primary_lowered(tag: Seq<char>)
    ensures
        lowered(primary(lowered(tag))) == lowered(primary(tag)),
    decreases tag.len(),
{
    let low = lowered(tag);
    if tag.len() > 0 {
        assert(low[0] == ascii_lower(tag[0]));
        assert(low.drop_first() =~= lowered(tag.drop_first()));
        lemma_primary_lowered(tag.drop_first());
        if tag[0] != '-' && tag[0] != '_' {
            let a = primary(tag.drop_first());
            let b = primary(low.drop_first());
            assert(lowered(seq![low[0]] + b) =~= seq![ascii_lower(low[0])] + lowered(b));
            assert(lowered(seq![tag[0]] + a) =~= seq![ascii_lower(tag[0])] + lowered(a));
        }
    } else {
        assert(low =~= tag);
    }
}

/// A word of letters: what stands between two characters that are none.
pub open spec fn spelled(w: Seq<char>) -> bool {
    forall|i: int| 0 <= i < w.len() ==> alphabetic(#[trigger] w[i]) || w[i] == '\'' || w[i] == '\u{2019}'
}

proof fn lemma_word_read(lang: Lang, w: Seq<char>, rest: Seq<char>, before: Seq<char>)
    requires
        spelled(w),
    ensures
        marked_from(lang, w + rest, before) == marked_from(lang, rest, before + w),
    decreases w.len(),
{
    let s = w + rest;
    if w.len() == 0 {
        assert(s =~= rest);
        assert(before + w =~= before);
    } else {
        let next = w.drop_first();
        assert forall|i: int| 0 <= i < next.len() implies alphabetic(#[trigger] next[i]) || next[i] == '\''
            || next[i] == '\u{2019}' by {
            assert(alphabetic(w[i + 1]) || w[i + 1] == '\'' || w[i + 1] == '\u{2019}');
        }
        assert(alphabetic(w[0]) || w[0] == '\'' || w[0] == '\u{2019}');
        assert(letter(s[0]));
        lemma_word_read(lang, next, rest, before.push(w[0]));
        assert(s.drop_first() =~= next + rest);
        assert(before.push(w[0]) + next =~= before + w);
    }
}

/// A word of five letters or more is broken where its language breaks it, a shorter
/// one nowhere; what stands between words is kept, and each word is looked at by
/// itself.
pub proof fn law_words_are_broken_by_their_language(lang: Lang, w: Seq<char>, c: char, rest: Seq<char>)
    requires
        spelled(w),
        !alphabetic(c) && c != '\'' && c != '\u{2019}',
    ensures
        marked(lang, w) == if w.len() < 5 {
            w
        } else {
            with_breaks(w, word_breaks(lang, w), 0)
        },
        marked(lang, w.push(c) + rest) == marked(lang, w).push(c) + marked(lang, rest),
{
    let none = Seq::<char>::empty();
    lemma_word_read(lang, w, none, none);
    assert(w + none =~= w);
    assert(none + w =~= w);
    let tail = seq![c] + rest;
    assert(w.push(c) + rest =~= w + tail);
    lemma_word_read(lang, w, tail, none);
    assert(tail.drop_first() =~= rest);
    assert(!letter(tail[0]));
}

/// A break puts one soft hyphen between the characters that it stands between; one
/// that stands between none is passed over.
pub proof fn law_a_break_is_a_soft_hyphen(word: Seq<char>, b: usize)
    ensures
        with_breaks(word, seq![], 0) == word,
        with_breaks(word, seq![b], 0) == match chars_before(word, b as int) {
            Some(k) => word.take(k).push('\u{ad}') + word.skip(k),
            None => word,
        },
{
    let none = Seq::<usize>::empty();
    let one = seq![b];
    assert(one.drop_first() =~= none);
    assert(word.skip(0) =~= word);
    if let Some(k) = chars_before(word, b as int) {
        let n = choose|n: int| crate::hyphen::at_byte(word, b as int, n);
        assert(crate::hyphen::at_byte(word, b as int, n));
        assert(word.subrange(0, k) =~= word.take(k));
    }
    reveal_with_fuel(with_breaks, 2);
}

/// Text without markup.
pub open spec fn untagged(s: Seq<char>) -> bool {
    forall|i: int| 0 <= i < s.len() ==> (#[trigger] s[i]) != '<'
}

/// A tag is kept, and says whether what follows it is hyphenated.
proof fn lemma_tag(lang: Lang, name: Seq<char>, closing: bool, rest: Seq<char>, depth: nat)
    requires
        element_name(name),
    ensures
        marked_html(lang, bare_tag(name, closing) + rest, depth) == bare_tag(name, closing)
            + marked_html(
            lang,
            rest,
            if lowered(name) == "pre"@ || lowered(name) == "code"@ || lowered(name) == "script"@ || lowered(
                name,
            ) == "style"@ || lowered(name) == "kbd"@ {
                if closing {
                    if depth == 0 {
                        0
                    } else {
                        (depth - 1) as nat
                    }
                } else {
                    depth + 1
                }
            } else {
                depth
            },
        ),
{
    let tag = bare_tag(name, closing);
    let s = tag + rest;
    reveal_strlit("<!--");
    reveal_strlit("<![CDATA[");
    reveal_strlit("</");
    reveal_strlit("/>");
    lemma_spot_is(s, '<', 0);
    let none = Seq::<char>::empty();
    assert(s.take(0) =~= none);
    assert(s.skip(0) =~= s);
    assert(trimmed(none) =~= none);
    assert(marked_run(lang, none) == none);
    assert(ascii_alnum(name[0]));
    assert(s[1] != '!');
    assert(behind_bracketed(s) is None) by {
        if stands_at(s, "<!--"@, 0) {
            assert(s.subrange(0, 4)[1] == '!');
        }
        if stands_at(s, "<![CDATA["@, 0) {
            assert(s.subrange(0, 9)[1] == '!');
        }
    }
    let gt = tag.len() - 1;
    let k = if closing {
        2int
    } else {
        1int
    };
    assert forall|i: int| 0 <= i < gt implies (#[trigger] s[i]) != '>' && s[i] != '"' && s[i] != '\'' by {
        if i >= k {
            assert(ascii_alnum(name[i - k]));
            assert(s[i] == name[i - k]);
        }
    }
    lemma_end_of_name(s, 0, gt);
    lemma_spot_is(s, '>', gt);
    assert(tag_end(s) == Some(gt));
    assert(s.take(gt + 1) =~= tag);
    assert(s.skip(gt + 1) =~= rest);
    law_a_tag_is_called_by_its_name(name, seq!['>']);
    assert(name_of_tag(tag) == lowered(name));
    assert(!ends(tag, "/>"@)) by {
        if ends(tag, "/>"@) {
            assert(tag.subrange(tag.len() - 2, tag.len() as int)[0] == '/');
            assert(ascii_alnum(name[name.len() - 1]));
            assert(tag[tag.len() - 2] == name[name.len() - 1]);
        }
    }
    if closing {
        assert(tag.subrange(0, 2) =~= "</"@);
        assert(stands_at(tag, "</"@, 0));
    } else {
        assert(!stands_at(tag, "</"@, 0)) by {
            if stands_at(tag, "</"@, 0) {
                assert(tag.subrange(0, 2)[1] == '/');
                assert(tag[1] == name[0]);
            }
        }
    }
    assert(none + tag =~= tag);
}

/// Text up to a tag.
proof fn lemma_run(lang: Lang, text: Seq<char>, rest: Seq<char>, depth: nat)
    requires
        untagged(text),
        rest.len() > 0 && rest[0] == '<',
    ensures
        marked_html(lang, text + rest, depth) == (if depth == 0 {
            marked_run(lang, text)
        } else {
            text
        }) + marked_html(lang, rest, depth),
{
    let s = text + rest;
    let n = text.len() as int;
    lemma_spot_is(s, '<', n);
    assert(s.take(n) =~= text);
    assert(s.skip(n) =~= rest);
    lemma_spot_is(rest, '<', 0);
    let none = Seq::<char>::empty();
    assert(rest.take(0) =~= none);
    assert(rest.skip(0) =~= rest);
    assert(trimmed(none) =~= none);
    assert(marked_run(lang, none) == none);
    let head = if depth == 0 {
        marked_run(lang, text)
    } else {
        text
    };
    match behind_bracketed(rest) {
        Some(after) => {
            let kept = rest.take(rest.len() - after.len());
            let more = marked_html(lang, after, depth);
            assert(none + kept + more =~= kept + more);
            assert(head + kept + more =~= head + (kept + more));
        },
        None => match tag_end(rest) {
            None => {
                assert(none + rest =~= rest);
            },
            Some(gt) => {
                let tag = rest.take(gt + 1);
                let more = marked_html(
                    lang,
                    rest.skip(gt + 1),
                    crate::hyphen::depth_after(tag, depth),
                );
                assert(none + tag + more =~= tag + more);
                assert(head + tag + more =~= head + (tag + more));
            },
        },
    }
}

/// Code, preformatted text, scripts, styles and keys are left as they are, and the
/// text of every other element is hyphenated, with its tags untouched.
pub proof fn law_only_prose_is_hyphenated(lang: Lang, name: Seq<char>, text: Seq<char>, rest: Seq<char>)
    requires
        element_name(name),
        untagged(text),
    ensures
        ({
            let n = lowered(name);
            let open = bare_tag(name, false);
            let close = bare_tag(name, true);
            marked_html(lang, open + text + close + rest, 0) == open + (if n == "pre"@ || n == "code"@ || n
                == "script"@ || n == "style"@ || n == "kbd"@ {
                text
            } else {
                marked_run(lang, text)
            }) + close + marked_html(lang, rest, 0)
        }),
{
    let n = lowered(name);
    let open = bare_tag(name, false);
    let close = bare_tag(name, true);
    let kept = n == "pre"@ || n == "code"@ || n == "script"@ || n == "style"@ || n == "kbd"@;
    let depth: nat = if kept {
        1
    } else {
        0
    };
    let tail = close + rest;
    assert(open + text + close + rest =~= open + (text + tail));
    lemma_tag(lang, name, false, text + tail, 0);
    assert(tail[0] == '<');
    lemma_run(lang, text, tail, depth);
    lemma_tag(lang, name, true, rest, depth);
    let inner = if kept {
        text
    } else {
        marked_run(lang, text)
    };
    let more = marked_html(lang, rest, 0);
    assert(open + (inner + (close + more)) =~= open + inner + close + more);
}

/// Text that is no white space and holds no reference is hyphenated as plain text;
/// a reference is left whole.
pub proof fn law_references_are_left_whole(lang: Lang, text: Seq<char>, name: Seq<char>, rest: Seq<char>)
    requires
        forall|i: int| 0 <= i < text.len() ==> (#[trigger] text[i]) != ';' && text[i] != '&',
        trimmed(text).len() > 0,
        forall|i: int| 0 <= i < name.len() ==> (#[trigger] name[i]) != ';',
    ensures
        marked_run(lang, text) == marked(lang, text),
        crate::hyphen::marked_pieces(lang, seq!['&'] + name + seq![';'] + rest) == seq!['&'] + name
            + seq![';'] + crate::hyphen::marked_pieces(lang, rest),
{
    let none = Seq::<char>::empty();
    lemma_spot(text, ';');
    lemma_spot(text, '&');
    assert(crate::hyphen::marked_pieces(lang, none) =~= none);
    assert(text.len() > 0) by {
        if text.len() == 0 {
            assert(trimmed(text) =~= text);
        }
    }
    assert(marked(lang, text) + none =~= marked(lang, text));
    let piece = seq!['&'] + name + seq![';'];
    let s = piece + rest;
    assert forall|j: int| 0 <= j < piece.len() - 1 implies s[j] != ';' by {
        if j > 0 {
            assert(name[j - 1] != ';');
            assert(s[j] == name[j - 1]);
        }
    }
    lemma_spot_is(s, ';', piece.len() - 1);
    assert(s.take(piece.len() as int) =~= piece);
    assert(s.skip(piece.len() as int) =~= rest);
    lemma_spot_is(piece, '&', 0);
}

} // verus!
