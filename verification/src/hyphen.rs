//! Soft-hyphen insertion.
//!
//! Justified text without hyphenation opens rivers of white space down the page.
//! Knuth-Liang patterns give the break points and `U+00AD` marks them: the line
//! breaker treats a soft hyphen as a break opportunity.
use crate::markup::{
    find_tag_end, lemma_tag_end, lemma_whole_tag_end, name_of_tag, tag_end, tag_name, whole_tag,
};
use crate::search::{behind_bracketed, lemma_behind_bracketed, skip_bracketed};
use crate::text::{
    alphabetic, begins, bytes_len, chars_in, chars_of, ends, extend, find_char, finishes, holds,
    is_alphabetic, lemma_bytes_prefix, lemma_place_is, lemma_spot, lemma_spot_is, lower_all,
    lowered, same, spot, stands_at, string_of, trim, trimmed,
};
use vstd::prelude::*;
use vstd::slice::slice_subrange;

verus! {

/// The soft hyphen.
pub const SOFT: char = '\u{00ad}';

/// Words shorter than this are left alone: breaking them saves nothing and
/// looks worse.
pub const MIN_WORD: usize = 5;

/// A language with patterns.
#[derive(Debug, Clone, Copy, PartialEq, Eq, Structural)]
pub enum Lang {
    English,
    Spanish,
    Catalan,
    Portuguese,
    French,
    German,
    Italian,
}

#[verifier::external_type_specification]
#[verifier::external_body]
pub struct ExStandard(hyphenation::Standard);

/// The language whose patterns a dictionary holds.
pub uninterp spec fn patterns_of(dict: hyphenation::Standard) -> Lang;

/// Where a word of a language may be broken, in bytes from its start, in the
/// order the patterns give.
pub uninterp spec fn word_breaks(lang: Lang, word: Seq<char>) -> Seq<usize>;

/// Whether the program has readable patterns for a language built in.
pub uninterp spec fn built_in(lang: Lang) -> bool;

/// `Standard::from_embedded`: the dictionary built into the program for a
/// language. Whether it can be read depends on the language alone; where it is,
/// it holds that language's patterns.
#[verifier::external_body]
fn load_patterns(lang: Lang) -> (r: Option<hyphenation::Standard>)
    ensures
        r is Some == built_in(lang),
        r matches Some(dict) ==> patterns_of(dict) == lang,
{
    let language = match lang {
        Lang::English => hyphenation::Language::EnglishUS,
        Lang::Spanish => hyphenation::Language::Spanish,
        Lang::Catalan => hyphenation::Language::Catalan,
        Lang::Portuguese => hyphenation::Language::Portuguese,
        Lang::French => hyphenation::Language::French,
        Lang::German => hyphenation::Language::German1996,
        Lang::Italian => hyphenation::Language::Italian,
    };
    hyphenation::Load::from_embedded(language).ok()
}

/// `Hyphenator::hyphenate`: the byte offsets at which the dictionary's patterns
/// break the word. They depend on the language and the word alone; nothing is
/// said of which they are, nor that they stand between characters.
#[verifier::external_body]
fn find_breaks(dict: &hyphenation::Standard, word: &str) -> (r: Vec<usize>)
    ensures
        r@ == word_breaks(patterns_of(*dict), word@),
{
    hyphenation::Hyphenator::hyphenate(dict, word).breaks
}

/// Patterns for one language.
pub struct Hyphenator_ {
    dict: hyphenation::Standard,
}

/// The first part of a language tag.
pub open spec fn primary(tag: Seq<char>) -> Seq<char>
    decreases tag.len(),
{
    if tag.len() == 0 || tag[0] == '-' || tag[0] == '_' {
        seq![]
    } else {
        seq![tag[0]] + primary(tag.drop_first())
    }
}

/// The patterns for a BCP-47 tag. Only the languages wired up have any; the rest
/// get no hyphenation rather than the wrong language's rules.
pub open spec fn language(tag: Seq<char>) -> Option<Lang> {
    let p = lowered(primary(tag));
    if p == "en"@ {
        Some(Lang::English)
    } else if p == "es"@ {
        Some(Lang::Spanish)
    } else if p == "ca"@ {
        Some(Lang::Catalan)
    } else if p == "pt"@ {
        Some(Lang::Portuguese)
    } else if p == "fr"@ {
        Some(Lang::French)
    } else if p == "de"@ {
        Some(Lang::German)
    } else if p == "it"@ {
        Some(Lang::Italian)
    } else {
        None
    }
}

/// Map a BCP-47 tag onto an embedded pattern set.
pub fn language_of(tag: &str) -> (r: Option<Lang>)
    ensures
        r == language(tag@),
{
    let chars = chars_of(tag);
    let mut n: usize = 0;
    proof {
        assert(tag@.skip(0) =~= tag@);
        assert(tag@.take(0) + primary(tag@) =~= primary(tag@));
    }
    while n < chars.len() && chars[n] != '-' && chars[n] != '_'
        invariant
            n <= chars.len(),
            chars@ == tag@,
            primary(tag@) == tag@.take(n as int) + primary(tag@.skip(n as int)),
        decreases chars.len() - n,
    {
        proof {
            assert(tag@.skip(n as int).drop_first() =~= tag@.skip(n + 1));
            assert(tag@.take(n as int) + primary(tag@.skip(n as int)) =~= tag@.take(n + 1)
                + primary(tag@.skip(n + 1)));
        }
        n = n + 1;
    }
    let head = slice_subrange(chars.as_slice(), 0, n);
    proof {
        assert(head@ =~= tag@.take(n as int));
        assert(primary(tag@) =~= head@);
    }
    let p = lower_all(head);
    if same(&p, "en") {
        Some(Lang::English)
    } else if same(&p, "es") {
        Some(Lang::Spanish)
    } else if same(&p, "ca") {
        Some(Lang::Catalan)
    } else if same(&p, "pt") {
        Some(Lang::Portuguese)
    } else if same(&p, "fr") {
        Some(Lang::French)
    } else if same(&p, "de") {
        Some(Lang::German)
    } else if same(&p, "it") {
        Some(Lang::Italian)
    } else {
        None
    }
}

/// Do the first `n` characters of `word` take `b` bytes?
pub open spec fn at_byte(word: Seq<char>, b: int, n: int) -> bool {
    0 <= n <= word.len() && bytes_len(word.take(n)) == b
}

/// How many characters stand before byte `b`, where it is between characters.
pub open spec fn chars_before(word: Seq<char>, b: int) -> Option<int> {
    if exists|n: int| at_byte(word, b, n) {
        Some(choose|n: int| at_byte(word, b, n))
    } else {
        None
    }
}

/// `word` from character `last` on, with a soft hyphen at each of `breaks`. A
/// break that is not between characters, or that lies before the one taken
/// last, is passed over.
pub open spec fn with_breaks(word: Seq<char>, breaks: Seq<usize>, last: int) -> Seq<char>
    decreases breaks.len(),
{
    if breaks.len() == 0 {
        word.skip(last)
    } else {
        match chars_before(word, breaks[0] as int) {
            Some(k) if k >= last => word.subrange(last, k).push(SOFT) + with_breaks(
                word,
                breaks.drop_first(),
                k,
            ),
            _ => with_breaks(word, breaks.drop_first(), last),
        }
    }
}

proof fn lemma_chars_before(word: Seq<char>, b: int, n: int)
    requires
        at_byte(word, b, n),
    ensures
        chars_before(word, b) == Some(n),
{
    let k = choose|k: int| at_byte(word, b, k);
    assert(at_byte(word, b, k));
    if k < n {
        lemma_bytes_prefix(word, k, n);
    } else if n < k {
        lemma_bytes_prefix(word, n, k);
    }
}

/// `word` with a soft hyphen at each of `breaks`, in bytes from its start.
pub fn mark_word(word: &[char], breaks: &[usize]) -> (r: Vec<char>)
    ensures
        r@ == with_breaks(word@, breaks@, 0),
{
    let mut out: Vec<char> = Vec::new();
    let mut last: usize = 0;
    let mut i: usize = 0;
    proof {
        assert(breaks@.skip(0) =~= breaks@);
        assert(out@ + with_breaks(word@, breaks@, 0) =~= with_breaks(word@, breaks@, 0));
    }
    while i < breaks.len()
        invariant
            i <= breaks.len(),
            last <= word.len(),
            with_breaks(word@, breaks@, 0) == out@ + with_breaks(
                word@,
                breaks@.skip(i as int),
                last as int,
            ),
        decreases breaks.len() - i,
    {
        let b: usize = breaks[i];
        proof {
            assert(breaks@.skip(i as int)[0] == b);
            assert(breaks@.skip(i as int).drop_first() =~= breaks@.skip(i + 1));
        }
        match chars_in(word, b) {
            Some(k) => {
                proof {
                    assert(at_byte(word@, b as int, k as int));
                    lemma_chars_before(word@, b as int, k as int);
                }
                if k >= last {
                    let ghost before = out@;
                    extend(&mut out, slice_subrange(word, last, k));
                    out.push(SOFT);
                    proof {
                        assert(out@ =~= before + word@.subrange(last as int, k as int).push(SOFT));
                        assert(with_breaks(word@, breaks@, 0) =~= out@ + with_breaks(
                            word@,
                            breaks@.skip(i + 1),
                            k as int,
                        ));
                    }
                    last = k;
                }
            },
            None => {
                proof {
                    assert forall|n: int| !at_byte(word@, b as int, n) by {
                        if 0 <= n <= word@.len() {
                            assert(bytes_len(word@.take(n)) != b);
                        }
                    }
                }
            },
        }
        i = i + 1;
    }
    let tail = slice_subrange(word, last, word.len());
    proof {
        assert(tail@ =~= word@.skip(last as int));
    }
    extend(&mut out, tail);
    out
}

/// A character of a word: a letter or an apostrophe.
pub open spec fn letter(c: char) -> bool {
    alphabetic(c) || c == '\u{2019}' || c == '\''
}

/// A word with soft hyphens where its language breaks it; a short one as it is.
pub open spec fn marked_word(lang: Lang, word: Seq<char>) -> Seq<char> {
    if word.len() < MIN_WORD {
        word
    } else {
        with_breaks(word, word_breaks(lang, word), 0)
    }
}

/// `s` with every word marked, when `word` has been read just before it.
pub open spec fn marked_from(lang: Lang, s: Seq<char>, word: Seq<char>) -> Seq<char>
    decreases s.len(),
{
    if s.len() == 0 {
        marked_word(lang, word)
    } else if letter(s[0]) {
        marked_from(lang, s.drop_first(), word.push(s[0]))
    } else {
        marked_word(lang, word).push(s[0]) + marked_from(lang, s.drop_first(), seq![])
    }
}

/// Plain text with every word marked.
pub open spec fn marked(lang: Lang, text: Seq<char>) -> Seq<char> {
    marked_from(lang, text, seq![])
}

/// A run of text with every word marked, except in a stretch up to a semicolon
/// that holds an ampersand, so that no entity is split.
pub open spec fn marked_pieces(lang: Lang, text: Seq<char>) -> Seq<char>
    decreases text.len(),
{
    if text.len() == 0 {
        seq![]
    } else {
        proof {
            lemma_spot(text, ';');
        }
        let (piece, rest) = match spot(text, ';') {
            Some(i) => (text.take(i + 1), text.skip(i + 1)),
            None => (text, seq![]),
        };
        (if spot(piece, '&') is Some {
            piece
        } else {
            marked(lang, piece)
        }) + marked_pieces(lang, rest)
    }
}

/// A run of text with every word marked; white space alone stays as it is.
pub open spec fn marked_run(lang: Lang, text: Seq<char>) -> Seq<char> {
    if trimmed(text).len() == 0 {
        text
    } else {
        marked_pieces(lang, text)
    }
}

/// Elements whose text must never be hyphenated.
pub open spec fn verbatim(name: Seq<char>) -> bool {
    name == "pre"@ || name == "code"@ || name == "script"@ || name == "style"@ || name == "kbd"@
}

fn is_verbatim(name: &[char]) -> (r: bool)
    ensures
        r == verbatim(name@),
{
    same(name, "pre") || same(name, "code") || same(name, "script") || same(name, "style") || same(
        name,
        "kbd",
    )
}

/// How deep in verbatim elements the text after a tag is.
pub open spec fn depth_after(tag: Seq<char>, depth: nat) -> nat {
    if !verbatim(name_of_tag(tag)) || ends(tag, "/>"@) {
        depth
    } else if stands_at(tag, "</"@, 0) {
        if depth == 0 {
            0
        } else {
            (depth - 1) as nat
        }
    } else {
        depth + 1
    }
}

/// A document's text with every word marked, its tags untouched, from a place
/// inside `depth` verbatim elements on.
pub open spec fn marked_html(lang: Lang, rest: Seq<char>, depth: nat) -> Seq<char>
    decreases rest.len(),
{
    match spot(rest, '<') {
        None => if depth == 0 {
            marked_run(lang, rest)
        } else {
            rest
        },
        Some(lt) => {
            let text = rest.take(lt);
            let tail = rest.skip(lt);
            let head = if depth == 0 {
                marked_run(lang, text)
            } else {
                text
            };
            proof {
                lemma_spot(rest, '<');
                lemma_tag_end(tail);
                lemma_behind_bracketed(tail);
            }
            match behind_bracketed(tail) {
                Some(after) => head + tail.take(tail.len() - after.len()) + marked_html(
                    lang,
                    after,
                    depth,
                ),
                None => match tag_end(tail) {
                    None => head + tail,
                    Some(gt) => {
                        let tag = tail.take(gt + 1);
                        head + tag + marked_html(lang, tail.skip(gt + 1), depth_after(tag, depth))
                    },
                },
            }
        },
    }
}

impl Hyphenator_ {
    /// The language of the patterns.
    pub closed spec fn lang(&self) -> Lang {
        patterns_of(self.dict)
    }

    /// Load patterns for a `dc:language` tag. Unknown or unsupported languages
    /// get no hyphenation rather than the wrong language's rules. Whether the
    /// patterns of a known language can be read is up to what is built in.
    pub fn for_language(tag: &str) -> (r: Option<Self>)
        ensures
            r is Some <==> (language(tag@) matches Some(lang) && built_in(lang)),
            r matches Some(h) ==> language(tag@) == Some(h.lang()),
    {
        match language_of(tag) {
            Some(lang) => match load_patterns(lang) {
                Some(dict) => Some(Hyphenator_ { dict }),
                None => None,
            },
            None => None,
        }
    }

    /// Moves the word read so far to the output, marked.
    fn flush(&self, word: &Vec<char>, out: &mut Vec<char>)
        ensures
            final(out)@ == old(out)@ + marked_word(self.lang(), word@),
    {
        if word.len() < MIN_WORD {
            extend(out, word);
            return;
        }
        let text = string_of(word);
        let breaks = find_breaks(&self.dict, text.as_str());
        let done = mark_word(word, &breaks);
        extend(out, &done);
    }

    fn mark_chars(&self, text: &[char]) -> (r: Vec<char>)
        ensures
            r@ == marked(self.lang(), text@),
    {
        let mut out: Vec<char> = Vec::new();
        let mut word: Vec<char> = Vec::new();
        let mut i: usize = 0;
        let ghost lang = self.lang();
        proof {
            assert(text@.skip(0) =~= text@);
            assert(word@ =~= seq![]);
            assert(out@ + marked(lang, text@) =~= marked(lang, text@));
        }
        while i < text.len()
            invariant
                i <= text.len(),
                lang == self.lang(),
                marked(lang, text@) == out@ + marked_from(lang, text@.skip(i as int), word@),
            decreases text.len() - i,
        {
            let c = text[i];
            proof {
                assert(text@.skip(i as int).drop_first() =~= text@.skip(i + 1));
            }
            if is_alphabetic(c) || c == '\u{2019}' || c == '\'' {
                word.push(c);
            } else {
                let ghost before = out@;
                let ghost w = word@;
                self.flush(&word, &mut out);
                word = Vec::new();
                out.push(c);
                proof {
                    assert(word@ =~= seq![]);
                    assert(out@ =~= before + marked_word(lang, w).push(c));
                    assert(marked(lang, text@) =~= out@ + marked_from(
                        lang,
                        text@.skip(i + 1),
                        seq![],
                    ));
                }
            }
            i = i + 1;
        }
        self.flush(&word, &mut out);
        out
    }

    /// Insert soft hyphens into every word of a plain-text run.
    pub fn mark(&self, text: &str) -> (r: String)
        ensures
            r@ == marked(self.lang(), text@),
    {
        let chars = chars_of(text);
        let out = self.mark_chars(&chars);
        string_of(&out)
    }
}

/// Hyphenate a text run, skipping anything containing an entity so `&amp;`
/// cannot be split down the middle.
fn hyphenate_text(text: &[char], h: &Hyphenator_) -> (r: Vec<char>)
    ensures
        r@ == marked_run(h.lang(), text@),
{
    if trim(text).len() == 0 {
        return vstd::slice::slice_to_vec(text);
    }
    let ghost lang = h.lang();
    let mut out: Vec<char> = Vec::new();
    let mut rest: &[char] = text;
    proof {
        assert(out@ + marked_pieces(lang, text@) =~= marked_pieces(lang, text@));
    }
    while rest.len() > 0
        invariant
            lang == h.lang(),
            marked_pieces(lang, text@) == out@ + marked_pieces(lang, rest@),
        decreases rest.len(),
    {
        let n: usize = match find_char(rest, ';') {
            Some(i) => i + 1,
            None => rest.len(),
        };
        let piece = slice_subrange(rest, 0, n);
        let next = slice_subrange(rest, n, rest.len());
        proof {
            if spot(rest@, ';') is Some {
                assert(piece@ =~= rest@.take(n as int));
                assert(next@ =~= rest@.skip(n as int));
            } else {
                assert(piece@ =~= rest@);
                assert(next@ =~= seq![]);
            }
        }
        let ghost before = out@;
        if find_char(piece, '&').is_some() {
            extend(&mut out, piece);
        } else {
            let done = h.mark_chars(piece);
            extend(&mut out, &done);
        }
        proof {
            assert(marked_pieces(lang, text@) =~= out@ + marked_pieces(lang, next@));
        }
        rest = next;
    }
    assert(out@ + marked_pieces(lang, rest@) =~= out@);
    out
}

/// Insert soft hyphens into the text of an HTML document, leaving markup alone.
///
/// Text is hyphenated only outside tags, only in elements where hyphenation
/// makes sense, and only in runs of plain letters, so entities, attribute values
/// and code are never touched.
pub fn mark_html(html: &str, h: &Hyphenator_) -> (r: String)
    ensures
        r@ == marked_html(h.lang(), html@, 0),
{
    let chars = chars_of(html);
    let ghost lang = h.lang();
    let mut out: Vec<char> = Vec::new();
    let mut rest: &[char] = chars.as_slice();
    let mut depth: usize = 0;
    proof {
        assert(out@ + marked_html(lang, html@, 0) =~= marked_html(lang, html@, 0));
    }
    loop
        invariant
            lang == h.lang(),
            depth + rest.len() <= chars.len(),
            marked_html(lang, html@, 0) == out@ + marked_html(lang, rest@, depth as nat),
        decreases rest.len(),
    {
        let ghost before = out@;
        match find_char(rest, '<') {
            None => {
                if depth == 0 {
                    let done = hyphenate_text(rest, h);
                    extend(&mut out, &done);
                } else {
                    extend(&mut out, rest);
                }
                return string_of(&out);
            },
            Some(lt) => {
                let text = slice_subrange(rest, 0, lt);
                let tail = slice_subrange(rest, lt, rest.len());
                proof {
                    assert(text@ =~= rest@.take(lt as int));
                    assert(tail@ =~= rest@.skip(lt as int));
                }
                if depth == 0 {
                    let done = hyphenate_text(text, h);
                    extend(&mut out, &done);
                } else {
                    extend(&mut out, text);
                }
                if let Some(after) = skip_bracketed(tail) {
                    proof {
                        lemma_behind_bracketed(tail@);
                    }
                    let kept = slice_subrange(tail, 0, tail.len() - after.len());
                    assert(kept@ =~= tail@.take(tail@.len() - after@.len()));
                    extend(&mut out, kept);
                    proof {
                        assert(marked_html(lang, html@, 0) =~= out@ + marked_html(
                            lang,
                            after@,
                            depth as nat,
                        ));
                    }
                    rest = after;
                    continue;
                }
                match find_tag_end(tail) {
                    None => {
                        extend(&mut out, tail);
                        proof {
                            assert(out@ =~= before + marked_html(lang, rest@, depth as nat));
                        }
                        return string_of(&out);
                    },
                    Some(gt) => {
                        let tag = slice_subrange(tail, 0, gt + 1);
                        let next = slice_subrange(tail, gt + 1, tail.len());
                        proof {
                            assert(tag@ =~= tail@.take(gt + 1));
                            assert(next@ =~= tail@.skip(gt + 1));
                        }
                        extend(&mut out, tag);
                        let ghost was = depth;
                        if let Some(name) = tag_name(tag) {
                            if is_verbatim(&name) && !finishes(tag, "/>") {
                                if begins(tag, "</") {
                                    if depth > 0 {
                                        depth = depth - 1;
                                    }
                                } else {
                                    depth = depth + 1;
                                }
                            }
                        } else {
                            proof {
                                lemma_no_name_is_not_verbatim(name_of_tag(tag@));
                            }
                        }
                        proof {
                            assert(depth == depth_after(tag@, was as nat));
                            assert(marked_html(lang, html@, 0) =~= out@ + marked_html(
                                lang,
                                next@,
                                depth as nat,
                            ));
                        }
                        rest = next;
                    },
                }
            },
        }
    }
}

proof fn lemma_no_name_is_not_verbatim(name: Seq<char>)
    requires
        name.len() == 0,
    ensures
        !verbatim(name),
{
    reveal_strlit("pre");
    reveal_strlit("code");
    reveal_strlit("script");
    reveal_strlit("style");
    reveal_strlit("kbd");
}

/// `s` without its soft hyphens.
pub open spec fn without_soft(s: Seq<char>) -> Seq<char>
    decreases s.len(),
{
    if s.len() == 0 {
        s
    } else if s[0] == SOFT {
        without_soft(s.drop_first())
    } else {
        seq![s[0]] + without_soft(s.drop_first())
    }
}

pub proof fn lemma_soft_concat(a: Seq<char>, b: Seq<char>)
    ensures
        without_soft(a + b) == without_soft(a) + without_soft(b),
    decreases a.len(),
{
    if a.len() == 0 {
        assert(a + b =~= b);
        assert(without_soft(a) + without_soft(b) =~= without_soft(b));
    } else {
        assert((a + b).drop_first() =~= a.drop_first() + b);
        lemma_soft_concat(a.drop_first(), b);
        assert(without_soft(a + b) =~= without_soft(a) + without_soft(b));
    }
}

/// `s` without its soft hyphens.
pub fn drop_soft(s: &[char]) -> (r: Vec<char>)
    ensures
        r@ == without_soft(s@),
{
    let mut out: Vec<char> = Vec::new();
    let mut i: usize = 0;
    assert(s@.take(0) =~= seq![]);
    while i < s.len()
        invariant
            i <= s.len(),
            out@ == without_soft(s@.take(i as int)),
        decreases s.len() - i,
    {
        let ghost before = out@;
        let c = s[i];
        if c != SOFT {
            out.push(c);
        }
        proof {
            let one = seq![c];
            assert(s@.take(i + 1) =~= s@.take(i as int) + one);
            lemma_soft_concat(s@.take(i as int), one);
            assert(one.drop_first() =~= seq![]);
            assert(without_soft(one.drop_first()) =~= seq![]);
            assert(without_soft(one) =~= if c == SOFT {
                seq![]
            } else {
                one
            });
            assert(out@ =~= before + without_soft(one));
        }
        i = i + 1;
    }
    assert(s@.take(i as int) =~= s@);
    out
}

proof fn lemma_soft_breaks(word: Seq<char>, breaks: Seq<usize>, last: int)
    requires
        0 <= last <= word.len(),
    ensures
        without_soft(with_breaks(word, breaks, last)) == without_soft(word.skip(last)),
    decreases breaks.len(),
{
    if breaks.len() > 0 {
        match chars_before(word, breaks[0] as int) {
            Some(k) if k >= last => {
                assert(at_byte(word, breaks[0] as int, k));
                let piece = word.subrange(last, k);
                let rest = with_breaks(word, breaks.drop_first(), k);
                lemma_soft_breaks(word, breaks.drop_first(), k);
                lemma_soft_concat(piece.push(SOFT), rest);
                assert(piece.push(SOFT) =~= piece + seq![SOFT]);
                lemma_soft_concat(piece, seq![SOFT]);
                assert(seq![SOFT].drop_first() =~= seq![]);
                assert(without_soft(seq![SOFT]) =~= seq![]) by {
                    reveal_with_fuel(without_soft, 2);
                }
                assert(without_soft(piece.push(SOFT)) =~= without_soft(piece));
                assert(word.skip(last) =~= piece + word.skip(k));
                lemma_soft_concat(piece, word.skip(k));
            },
            _ => {
                lemma_soft_breaks(word, breaks.drop_first(), last);
            },
        }
    }
}

proof fn lemma_soft_word(lang: Lang, word: Seq<char>)
    ensures
        without_soft(marked_word(lang, word)) == without_soft(word),
{
    lemma_soft_breaks(word, word_breaks(lang, word), 0);
    assert(word.skip(0) =~= word);
}

proof fn lemma_soft_marked(lang: Lang, s: Seq<char>, word: Seq<char>)
    ensures
        without_soft(marked_from(lang, s, word)) == without_soft(word + s),
    decreases s.len(),
{
    lemma_soft_word(lang, word);
    if s.len() == 0 {
        assert(word + s =~= word);
    } else {
        let rest = s.drop_first();
        if letter(s[0]) {
            lemma_soft_marked(lang, rest, word.push(s[0]));
            assert(word.push(s[0]) + rest =~= word + s);
        } else {
            let none = Seq::<char>::empty();
            lemma_soft_marked(lang, rest, none);
            assert(none + rest =~= rest);
            let w = marked_word(lang, word);
            lemma_soft_concat(w.push(s[0]), marked_from(lang, rest, none));
            assert(w.push(s[0]) =~= w + seq![s[0]]);
            lemma_soft_concat(w, seq![s[0]]);
            assert(word + s =~= word + (seq![s[0]] + rest));
            lemma_soft_concat(word, seq![s[0]] + rest);
            lemma_soft_concat(seq![s[0]], rest);
            assert(without_soft(marked_from(lang, s, word)) =~= without_soft(word + s));
        }
    }
}

proof fn lemma_soft_pieces(lang: Lang, text: Seq<char>)
    ensures
        without_soft(marked_pieces(lang, text)) == without_soft(text),
    decreases text.len(),
{
    if text.len() > 0 {
        lemma_spot(text, ';');
        let (piece, rest) = match spot(text, ';') {
            Some(i) => (text.take(i + 1), text.skip(i + 1)),
            None => (text, seq![]),
        };
        assert(text =~= piece + rest);
        let done = if spot(piece, '&') is Some {
            piece
        } else {
            marked(lang, piece)
        };
        let none = Seq::<char>::empty();
        lemma_soft_marked(lang, piece, none);
        assert(none + piece =~= piece);
        lemma_soft_pieces(lang, rest);
        lemma_soft_concat(done, marked_pieces(lang, rest));
        lemma_soft_concat(piece, rest);
    } else {
        assert(text =~= seq![]);
    }
}

proof fn lemma_soft_run(lang: Lang, text: Seq<char>)
    ensures
        without_soft(marked_run(lang, text)) == without_soft(text),
{
    lemma_soft_pieces(lang, text);
}

proof fn lemma_soft_html(lang: Lang, rest: Seq<char>, depth: nat)
    ensures
        without_soft(marked_html(lang, rest, depth)) == without_soft(rest),
    decreases rest.len(),
{
    lemma_spot(rest, '<');
    match spot(rest, '<') {
        None => {
            lemma_soft_run(lang, rest);
        },
        Some(lt) => {
            let text = rest.take(lt);
            let tail = rest.skip(lt);
            let head = if depth == 0 {
                marked_run(lang, text)
            } else {
                text
            };
            lemma_soft_run(lang, text);
            assert(rest =~= text + tail);
            lemma_soft_concat(text, tail);
            lemma_tag_end(tail);
            lemma_behind_bracketed(tail);
            if let Some(after) = behind_bracketed(tail) {
                let kept = tail.take(tail.len() - after.len());
                let below = marked_html(lang, after, depth);
                lemma_soft_html(lang, after, depth);
                lemma_soft_concat(head + kept, below);
                lemma_soft_concat(head, kept);
                assert(tail =~= kept + after);
                lemma_soft_concat(kept, after);
                assert(without_soft(marked_html(lang, rest, depth)) =~= without_soft(rest));
            } else if let Some(gt) = tag_end(tail) {
                let tag = tail.take(gt + 1);
                let next = tail.skip(gt + 1);
                let below = marked_html(lang, next, depth_after(tag, depth));
                lemma_soft_html(lang, next, depth_after(tag, depth));
                lemma_soft_concat(head + tag, below);
                lemma_soft_concat(head, tag);
                assert(tail =~= tag + next);
                lemma_soft_concat(tag, next);
                assert(without_soft(marked_html(lang, rest, depth)) =~= without_soft(rest));
            } else {
                lemma_soft_concat(head, tail);
            }
        },
    }
}

/// Marking inserts soft hyphens and nothing else: without them, marked text is
/// the text it was made from.
pub proof fn law_marking_only_adds_soft_hyphens(lang: Lang, text: Seq<char>)
    ensures
        without_soft(marked(lang, text)) == without_soft(text),
{
    let none = Seq::<char>::empty();
    lemma_soft_marked(lang, text, none);
    assert(none + text =~= text);
}

/// The same of a whole document: its markup and its text survive intact.
pub proof fn law_marking_html_only_adds_soft_hyphens(lang: Lang, html: Seq<char>)
    ensures
        without_soft(marked_html(lang, html, 0)) == without_soft(html),
{
    lemma_soft_html(lang, html, 0);
}

/// A tag is kept as it is, whatever the values of its attributes hold.
pub proof fn law_tags_are_kept(lang: Lang, tag: Seq<char>, rest: Seq<char>, depth: nat)
    requires
        whole_tag(tag),
    ensures
        marked_html(lang, tag + rest, depth) == tag + marked_html(
            lang,
            rest,
            depth_after(tag, depth),
        ),
{
    let html = tag + rest;
    lemma_spot_is(html, '<', 0);
    lemma_whole_tag_end(tag, rest);
    lemma_not_bracketed(tag, rest);
    assert(html.skip(0) =~= html);
    assert(html.take(0) =~= seq![]);
    assert(html.take(tag.len() as int) =~= tag);
    assert(html.skip(tag.len() as int) =~= rest);
    lemma_nothing_to_mark(lang);
    assert(seq![] + tag =~= tag);
}

proof fn lemma_not_bracketed(tag: Seq<char>, rest: Seq<char>)
    requires
        whole_tag(tag),
    ensures
        behind_bracketed(tag + rest) is None,
{
    let s = tag + rest;
    reveal_strlit("<!--");
    reveal_strlit("<![CDATA[");
    assert(s[1] == tag[1]);
    if stands_at(s, "<!--"@, 0) {
        assert(s.subrange(0, 4)[1] == '!');
    }
    if stands_at(s, "<![CDATA["@, 0) {
        assert(s.subrange(0, 9)[1] == '!');
    }
}

/// A comment that says `said`.
pub open spec fn comment(said: Seq<char>) -> Seq<char> {
    "<!--"@ + said + "-->"@
}

/// What a comment says does not close it.
proof fn lemma_comment_is_open(said: Seq<char>, rest: Seq<char>, j: int)
    requires
        !holds(said + "--"@, "-->"@),
        0 <= j < said.len(),
    ensures
        !stands_at(said + "-->"@ + rest, "-->"@, j),
{
    reveal_strlit("-->");
    reveal_strlit("--");
    let body = said + "-->"@ + rest;
    let closed = said + "--"@;
    if stands_at(body, "-->"@, j) {
        assert(body.subrange(j, j + 3)[2] == '>');
        assert(j + 3 <= closed.len());
        assert(body.subrange(j, j + 3) =~= closed.subrange(j, j + 3));
        assert(stands_at(closed, "-->"@, j));
    }
}

proof fn lemma_comment_ends(said: Seq<char>, rest: Seq<char>)
    requires
        !holds(said + "--"@, "-->"@),
    ensures
        behind_bracketed(comment(said) + rest) == Some(rest),
        comment(said)[0] == '<',
        comment(said).len() > 0,
{
    reveal_strlit("<!--");
    reveal_strlit("-->");
    let html = comment(said) + rest;
    let n = said.len() as int;
    assert(html.subrange(0, 4) =~= "<!--"@);
    let body = html.skip(4);
    assert(body =~= said + "-->"@ + rest);
    assert(body.subrange(n, n + 3) =~= "-->"@);
    assert forall|j: int| 0 <= j < n implies !stands_at(body, "-->"@, j) by {
        lemma_comment_is_open(said, rest, j);
    }
    lemma_place_is(body, "-->"@, n);
    assert(body.skip(n + 3) =~= rest);
}

/// A comment is kept as it is, tags and all.
pub proof fn law_comments_are_kept(lang: Lang, said: Seq<char>, rest: Seq<char>, depth: nat)
    requires
        !holds(said + "--"@, "-->"@),
    ensures
        marked_html(lang, comment(said) + rest, depth) == comment(said) + marked_html(
            lang,
            rest,
            depth,
        ),
{
    let kept = comment(said);
    let html = kept + rest;
    lemma_comment_ends(said, rest);
    lemma_spot_is(html, '<', 0);
    assert(html.skip(0) =~= html);
    assert(html.take(0) =~= seq![]);
    lemma_nothing_to_mark(lang);
    assert(html.take(html.len() - rest.len()) =~= kept);
    assert(seq![] + kept =~= kept);
}

proof fn lemma_nothing_to_mark(lang: Lang)
    ensures
        marked_run(lang, seq![]) == Seq::<char>::empty(),
{
    let none = Seq::<char>::empty();
    assert(trimmed(none) =~= none);
}

/// A short word is left alone.
pub proof fn law_short_words_are_left_alone(lang: Lang, word: Seq<char>)
    requires
        word.len() < MIN_WORD,
        forall|i: int| 0 <= i < word.len() ==> letter(#[trigger] word[i]),
    ensures
        marked(lang, word) == word,
{
    lemma_letters(lang, word, seq![]);
    assert(Seq::<char>::empty() + word =~= word);
}

proof fn lemma_letters(lang: Lang, s: Seq<char>, word: Seq<char>)
    requires
        forall|i: int| 0 <= i < s.len() ==> letter(#[trigger] s[i]),
    ensures
        marked_from(lang, s, word) == marked_word(lang, word + s),
    decreases s.len(),
{
    if s.len() == 0 {
        assert(word + s =~= word);
    } else {
        let rest = s.drop_first();
        assert(letter(s[0]));
        assert forall|i: int| 0 <= i < rest.len() implies letter(#[trigger] rest[i]) by {
            assert(letter(s[i + 1]));
        }
        lemma_letters(lang, rest, word.push(s[0]));
        assert(word.push(s[0]) + rest =~= word + s);
    }
}

} // verus!
