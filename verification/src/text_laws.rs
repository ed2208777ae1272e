//! What holds of characters and of texts.
use crate::text::{
    ascii_alnum, ascii_lower, bytes_len, decimal, digit_value, digits, split, thousandths, trimmed,
    trimmed_end, trimmed_start, white, width, words, words_from,
};
use vstd::prelude::*;

verus! {

/// The letters from `A` to `Z` are written small one for one, and every other
/// character is left as it is.
pub proof fn law_capitals_are_written_small(i: int, c: char)
    requires
        0 <= i < 26,
    ensures
        ascii_lower("ABCDEFGHIJKLMNOPQRSTUVWXYZ"@[i]) == "abcdefghijklmnopqrstuvwxyz"@[i],
        c < 'A' || 'Z' < c ==> ascii_lower(c) == c,
{
    reveal_strlit("ABCDEFGHIJKLMNOPQRSTUVWXYZ");
    reveal_strlit("abcdefghijklmnopqrstuvwxyz");
    let big = "ABCDEFGHIJKLMNOPQRSTUVWXYZ"@;
    let small = "abcdefghijklmnopqrstuvwxyz"@;
    assert(big[i] as u32 == 65 + i);
    assert(small[i] as u32 == 97 + i);
    assert(ascii_lower(big[i]) as u32 == 97 + i);
}

/// The characters that are white space.
pub proof fn law_white_space_is_this(c: char)
    ensures
        white(c) <==> c == ' ' || c == '\t' || c == '\n' || c == '\u{b}' || c == '\u{c}' || c == '\r' || c
            == '\u{85}' || c == '\u{a0}' || c == '\u{1680}' || '\u{2000}' <= c <= '\u{200a}' || c == '\u{2028}'
            || c == '\u{2029}' || c == '\u{202f}' || c == '\u{205f}' || c == '\u{3000}',
{
}

/// A character takes one byte up to the last of ASCII, two up to U+07FF, three up to
/// U+FFFF and four beyond, and a text as many as its characters.
pub proof fn law_texts_take_the_bytes_of_their_characters(a: Seq<char>, c: char)
    ensures
        width(c) == if c <= '\u{7f}' {
            1nat
        } else if c <= '\u{7ff}' {
            2
        } else if c <= '\u{ffff}' {
            3
        } else {
            4
        },
        bytes_len(a.push(c)) == bytes_len(a) + width(c),
{
    assert(a.push(c).drop_last() =~= a);
}

/// White space around a text is not part of it, and nothing else is taken away.
pub proof fn law_trimming_takes_only_white_space(before: Seq<char>, s: Seq<char>, after: Seq<char>)
    requires
        forall|i: int| 0 <= i < before.len() ==> white(#[trigger] before[i]),
        forall|i: int| 0 <= i < after.len() ==> white(#[trigger] after[i]),
        s.len() > 0,
        !white(s[0]),
        !white(s.last()),
    ensures
        trimmed(before + s + after) == s,
{
    lemma_trim_front(before, s + after);
    assert(before + s + after =~= before + (s + after));
    lemma_trim_back(s, after);
}

proof fn lemma_trim_front(before: Seq<char>, s: Seq<char>)
    requires
        forall|i: int| 0 <= i < before.len() ==> white(#[trigger] before[i]),
        s.len() > 0,
        !white(s[0]),
    ensures
        trimmed_start(before + s) == s,
    decreases before.len(),
{
    let all = before + s;
    if before.len() == 0 {
        assert(all =~= s);
    } else {
        let rest = before.drop_first();
        assert forall|i: int| 0 <= i < rest.len() implies white(#[trigger] rest[i]) by {
            assert(white(before[i + 1]));
        }
        assert(white(before[0]));
        lemma_trim_front(rest, s);
        assert(all.drop_first() =~= rest + s);
    }
}

proof fn lemma_trim_back(s: Seq<char>, after: Seq<char>)
    requires
        forall|i: int| 0 <= i < after.len() ==> white(#[trigger] after[i]),
        s.len() > 0,
        !white(s.last()),
    ensures
        trimmed_end(s + after) == s,
    decreases after.len(),
{
    let all = s + after;
    if after.len() == 0 {
        assert(all =~= s);
    } else {
        let front = after.drop_last();
        assert forall|i: int| 0 <= i < front.len() implies white(#[trigger] front[i]) by {
            assert(white(after[i]));
        }
        assert(white(after[after.len() - 1]));
        assert(all.last() == after.last());
        lemma_trim_back(s, front);
        assert(all.drop_last() =~= s + front);
    }
}

/// Text is read word by word: a word up to white space, then the words that follow.
pub proof fn law_white_space_parts_words(w: Seq<char>, c: char, rest: Seq<char>)
    requires
        w.len() > 0,
        forall|i: int| 0 <= i < w.len() ==> !white(#[trigger] w[i]),
        white(c),
    ensures
        words(w) == seq![w],
        words(w.push(c) + rest) == seq![w] + words(rest),
        words(seq![c] + rest) == words(rest),
{
    let none = Seq::<char>::empty();
    lemma_word(w, none, none);
    assert(w + none =~= w);
    assert(none + w =~= w);
    let tail = seq![c] + rest;
    assert(w.push(c) + rest =~= w + tail);
    assert(tail.drop_first() =~= rest);
    lemma_word(w, tail, none);
}

pub proof fn lemma_word(w: Seq<char>, rest: Seq<char>, before: Seq<char>)
    requires
        forall|i: int| 0 <= i < w.len() ==> !white(#[trigger] w[i]),
    ensures
        words_from(w + rest, before) == words_from(rest, before + w),
    decreases w.len(),
{
    let s = w + rest;
    if w.len() == 0 {
        assert(s =~= rest);
        assert(before + w =~= before);
    } else {
        let next = w.drop_first();
        assert forall|i: int| 0 <= i < next.len() implies !white(#[trigger] next[i]) by {
            assert(!white(w[i + 1]));
        }
        assert(!white(w[0]));
        lemma_word(next, rest, before.push(w[0]));
        assert(s.drop_first() =~= next + rest);
        assert(before.push(w[0]) + next =~= before + w);
    }
}

/// Digits count by their place: one more at the end is the number before it times the
/// radix, and the digit.
pub proof fn law_digits_count_by_their_place(s: Seq<char>, d: int, radix: nat)
    requires
        radix == 10 || radix == 16,
        0 <= d < radix,
        digits(s, radix) is Some,
    ensures
        digits(s.push("0123456789abcdef"@[d]), radix) == Some((digits(s, radix)->0 * radix + d) as nat),
        digits(s.push("0123456789ABCDEF"@[d]), radix) == Some((digits(s, radix)->0 * radix + d) as nat),
        digits(seq![], radix) == Some(0nat),
{
    reveal_strlit("0123456789abcdef");
    reveal_strlit("0123456789ABCDEF");
    let a = "0123456789abcdef"@[d];
    let b = "0123456789ABCDEF"@[d];
    assert(s.push(a).drop_last() =~= s && s.push(b).drop_last() =~= s);
    assert(d < 10 ==> a as u32 == 48 + d && b as u32 == 48 + d);
    assert(d >= 10 ==> a as u32 == 87 + d && b as u32 == 55 + d);
    assert(digit_value(a, radix) == Some(d as nat) && digit_value(b, radix) == Some(d as nat));
    let n = digits(s, radix)->0;
    assert(n * radix + d >= 0) by (nonlinear_arith)
        requires
            n >= 0,
            radix >= 0,
            d >= 0,
    ;
}

pub proof fn lemma_split_join(a: Seq<char>, c: char, b: Seq<char>)
    ensures
        split(a.push(c) + b, c) == split(a, c) + split(b, c),
    decreases a.len(),
{
    let s = a.push(c) + b;
    crate::text::lemma_spot(a, c);
    match crate::text::spot(a, c) {
        None => {
            crate::text::lemma_split_first(a, c, b);
        },
        Some(i) => {
            assert forall|j: int| 0 <= j < i implies s[j] != c by {
                assert(s[j] == a[j]);
            }
            assert(s[i] == a[i]);
            crate::text::lemma_spot_is(s, c, i);
            assert(s.take(i) =~= a.take(i));
            let rest = a.skip(i + 1);
            assert(s.skip(i + 1) =~= rest.push(c) + b);
            lemma_split_join(rest, c, b);
            assert(seq![a.take(i)] + (split(rest, c) + split(b, c)) =~= seq![a.take(i)] + split(rest, c)
                + split(b, c));
        },
    }
}

/// A number of thousandths is written with as many decimals as it needs.
pub proof fn law_thousandths_are_written_out(whole: nat, a: nat, b: nat, c: nat)
    requires
        a < 10,
        b < 10,
        0 < c < 10,
    ensures
        thousandths(1000 * whole) == decimal(whole),
        thousandths(1000 * whole + 100 * c) == decimal(whole) + seq!['.', (48 + c) as char],
        thousandths(1000 * whole + 100 * a + 10 * c) == decimal(whole) + seq![
            '.',
            (48 + a) as char,
            (48 + c) as char,
        ],
        thousandths(1000 * whole + 100 * a + 10 * b + c) == decimal(whole) + seq![
            '.',
            (48 + a) as char,
            (48 + b) as char,
            (48 + c) as char,
        ],
{
    assert((1000 * whole) / 1000 == whole && (1000 * whole) % 1000 == 0);
    assert((1000 * whole + 100 * c) / 1000 == whole && (1000 * whole + 100 * c) % 1000 == 100 * c);
    let two = 100 * a + 10 * c;
    assert((1000 * whole + two) / 1000 == whole && (1000 * whole + two) % 1000 == two);
    assert(two % 100 == 10 * c && two % 10 == 0 && two / 100 == a && two / 10 % 10 == c);
    let three = 100 * a + 10 * b + c;
    assert((1000 * whole + three) / 1000 == whole && (1000 * whole + three) % 1000 == three);
    assert(three % 10 == c && three % 100 == 10 * b + c && three / 100 == a && three / 10 % 10 == b);
    assert(1000 * whole + 100 * a + 10 * c == 1000 * whole + two);
    assert(1000 * whole + 100 * a + 10 * b + c == 1000 * whole + three);
}

/// The letters and digits of names are these.
pub proof fn law_letters_and_digits_are_these(c: char)
    ensures
        ascii_alnum(c) <==> 48 <= c as u32 <= 57 || 65 <= c as u32 <= 90 || 97 <= c as u32 <= 122,
{
}

} // verus!
