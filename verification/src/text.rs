//! Characters and strings: scanning, splitting, trimming, numbers.
//!
//! Scanners work on slices of `char`; `chars_of` and `string_of` go between
//! them and strings.
use vstd::prelude::*;
use vstd::slice::slice_subrange;

verus! {

/// `String::push` appends the character to the string.
pub assume_specification[ String::push ](s: &mut String, c: char)
    ensures
        final(s)@ == old(s)@.push(c),
;

/// Whether a character has the Unicode alphabetic property.
pub uninterp spec fn alphabetic(c: char) -> bool;

/// `char::is_alphabetic`: whether the character has the Unicode `Alphabetic`
/// property. Nothing is said of which characters have it.
#[verifier::external_body]
pub(crate) fn is_alphabetic(c: char) -> (r: bool)
    ensures
        r == alphabetic(c),
{
    c.is_alphabetic()
}

/// Whether a character is a letter or a number in Unicode.
pub uninterp spec fn alphanumeric(c: char) -> bool;

/// `char::is_alphanumeric`: whether the character is alphabetic or numeric in
/// Unicode. Nothing is said of which characters are.
#[verifier::external_body]
pub(crate) fn is_alphanumeric(c: char) -> (r: bool)
    ensures
        r == alphanumeric(c),
{
    c.is_alphanumeric()
}

/// The lowercase mapping of a character: one or more characters.
pub uninterp spec fn lowercase(c: char) -> Seq<char>;

/// `char::to_lowercase`: the characters of the Unicode lowercase mapping.
/// Nothing is said of what they are.
#[verifier::external_body]
pub(crate) fn to_lowercase(c: char) -> (r: Vec<char>)
    ensures
        r@ == lowercase(c),
{
    c.to_lowercase().collect()
}

/// The uppercase mapping of a character: one or more characters.
pub uninterp spec fn uppercase(c: char) -> Seq<char>;

/// `char::to_uppercase`: the characters of the Unicode uppercase mapping.
/// Nothing is said of what they are.
#[verifier::external_body]
pub(crate) fn to_uppercase(c: char) -> (r: Vec<char>)
    ensures
        r@ == uppercase(c),
{
    c.to_uppercase().collect()
}

/// A character with the Unicode `White_Space` property.
pub open spec fn white(c: char) -> bool {
    let n = c as u32;
    9 <= n <= 13 || n == 0x20 || n == 0x85 || n == 0xa0 || n == 0x1680 || 0x2000 <= n <= 0x200a
        || n == 0x2028 || n == 0x2029 || n == 0x202f || n == 0x205f || n == 0x3000
}

pub fn is_white(c: char) -> (r: bool)
    ensures
        r == white(c),
{
    let n: u32 = c as u32;
    (9 <= n && n <= 13) || n == 0x20 || n == 0x85 || n == 0xa0 || n == 0x1680 || (0x2000 <= n && n
        <= 0x200a) || n == 0x2028 || n == 0x2029 || n == 0x202f || n == 0x205f || n == 0x3000
}

/// A control character: the Unicode category `Cc`.
pub open spec fn control(c: char) -> bool {
    (c as u32) < 0x20 || 0x7f <= (c as u32) <= 0x9f
}

pub fn is_control(c: char) -> (r: bool)
    ensures
        r == control(c),
{
    let n: u32 = c as u32;
    n < 0x20 || (0x7f <= n && n <= 0x9f)
}

/// A digit or an unaccented Latin letter.
pub open spec fn ascii_alnum(c: char) -> bool {
    '0' <= c <= '9' || 'a' <= c <= 'z' || 'A' <= c <= 'Z'
}

pub fn is_ascii_alnum(c: char) -> (r: bool)
    ensures
        r == ascii_alnum(c),
{
    ('0' <= c && c <= '9') || ('a' <= c && c <= 'z') || ('A' <= c && c <= 'Z')
}

/// The lowercase form of an ASCII capital; any other character as it is.
pub open spec fn ascii_lower(c: char) -> char {
    if 'A' <= c <= 'Z' {
        ((c as u32 + 32) as u32) as char
    } else {
        c
    }
}

pub fn lower(c: char) -> (r: char)
    ensures
        r == ascii_lower(c),
{
    if 'A' <= c && c <= 'Z' {
        let b: u8 = (c as u32) as u8;
        (b + 32) as char
    } else {
        c
    }
}

/// `s` with ASCII capitals in lower case.
pub open spec fn lowered(s: Seq<char>) -> Seq<char> {
    s.map_values(|c: char| ascii_lower(c))
}

pub fn lower_all(s: &[char]) -> (r: Vec<char>)
    ensures
        r@ == lowered(s@),
{
    let mut out: Vec<char> = Vec::new();
    let mut i: usize = 0;
    while i < s.len()
        invariant
            i <= s.len(),
            out@ =~= lowered(s@.take(i as int)),
        decreases s.len() - i,
    {
        out.push(lower(s[i]));
        i = i + 1;
    }
    assert(s@.take(i as int) =~= s@);
    out
}

/// How many bytes a character takes in UTF-8.
pub open spec fn width(c: char) -> nat {
    let n = c as u32;
    if n < 0x80 {
        1
    } else if n < 0x800 {
        2
    } else if n < 0x10000 {
        3
    } else {
        4
    }
}

/// How many bytes `s` takes in UTF-8.
pub open spec fn bytes_len(s: Seq<char>) -> nat
    decreases s.len(),
{
    if s.len() == 0 {
        0
    } else {
        bytes_len(s.drop_last()) + width(s.last())
    }
}

pub fn char_width(c: char) -> (n: usize)
    ensures
        n == width(c),
{
    let n: u32 = c as u32;
    if n < 0x80 {
        1
    } else if n < 0x800 {
        2
    } else if n < 0x10000 {
        3
    } else {
        4
    }
}

/// Does `s` take at most `max` bytes?
pub fn within_bytes(s: &[char], max: usize) -> (r: bool)
    ensures
        r == (bytes_len(s@) <= max),
{
    let mut used: usize = 0;
    let mut i: usize = 0;
    assert(s@.take(0) =~= seq![]);
    while i < s.len()
        invariant
            i <= s.len(),
            used == bytes_len(s@.take(i as int)),
            used <= max,
        decreases s.len() - i,
    {
        let w: usize = char_width(s[i]);
        proof {
            assert(s@.take(i + 1).drop_last() =~= s@.take(i as int));
        }
        if w > max - used {
            proof {
                lemma_bytes_head(s@, i + 1);
            }
            return false;
        }
        used = used + w;
        i = i + 1;
    }
    assert(s@.take(i as int) =~= s@);
    true
}

pub proof fn lemma_bytes_head(s: Seq<char>, k: int)
    requires
        0 <= k <= s.len(),
    ensures
        bytes_len(s.take(k)) <= bytes_len(s),
    decreases s.len() - k,
{
    if k == s.len() {
        assert(s.take(k) =~= s);
    } else {
        assert(s.take(k + 1).drop_last() =~= s.take(k));
        lemma_bytes_head(s, k + 1);
    }
}

/// A longer head of a text takes more bytes.
pub proof fn lemma_bytes_prefix(s: Seq<char>, lo: int, hi: int)
    requires
        0 <= lo <= hi <= s.len(),
    ensures
        bytes_len(s.take(lo)) + (hi - lo) <= bytes_len(s.take(hi)),
    decreases hi,
{
    if lo < hi {
        lemma_bytes_prefix(s, lo, hi - 1);
        assert(s.take(hi).drop_last() =~= s.take(hi - 1));
    }
}

/// How many bytes some characters take.
pub fn byte_count(s: &[char]) -> (n: usize)
    requires
        bytes_len(s@) <= usize::MAX,
    ensures
        n == bytes_len(s@),
{
    let mut n: usize = 0;
    let mut i: usize = 0;
    assert(s@.take(0) =~= seq![]);
    assert(s@.take(s@.len() as int) =~= s@);
    while i < s.len()
        invariant
            i <= s.len(),
            n == bytes_len(s@.take(i as int)),
            bytes_len(s@.take(s@.len() as int)) <= usize::MAX,
        decreases s.len() - i,
    {
        proof {
            lemma_bytes_prefix(s@, i + 1, s@.len() as int);
            assert(s@.take(i + 1).drop_last() =~= s@.take(i as int));
        }
        n = n + char_width(s[i]);
        i = i + 1;
    }
    n
}

/// How many characters of `s` take exactly `bytes` bytes, if some do.
pub fn chars_in(s: &[char], bytes: usize) -> (r: Option<usize>)
    ensures
        match r {
            Some(n) => n <= s@.len() && bytes_len(s@.take(n as int)) == bytes,
            None => forall|n: int| 0 <= n <= s@.len() ==> bytes_len(#[trigger] s@.take(n)) != bytes,
        },
{
    let mut used: usize = 0;
    let mut i: usize = 0;
    assert(s@.take(0) =~= seq![]);
    loop
        invariant
            i <= s.len(),
            used == bytes_len(s@.take(i as int)),
            used <= bytes,
            forall|n: int| 0 <= n < i ==> bytes_len(#[trigger] s@.take(n)) != bytes,
        decreases s.len() - i,
    {
        if used == bytes {
            return Some(i);
        }
        if i == s.len() {
            return None;
        }
        let w: usize = char_width(s[i]);
        proof {
            assert(s@.take(i + 1).drop_last() =~= s@.take(i as int));
        }
        if w > bytes - used {
            proof {
                assert forall|n: int| 0 <= n <= s@.len() implies bytes_len(#[trigger] s@.take(n)) != bytes by {
                    if n > i {
                        lemma_bytes_prefix(s@, i + 1, n);
                    }
                }
            }
            return None;
        }
        used = used + w;
        i = i + 1;
    }
}

/// Where the `n`th character of `s` starts, in bytes; the end for one that is
/// not there.
pub open spec fn byte_at(s: Seq<char>, n: int) -> nat {
    if n <= s.len() {
        bytes_len(s.take(n))
    } else {
        bytes_len(s)
    }
}

/// The characters of a string.
pub fn chars_of(s: &str) -> (r: Vec<char>)
    ensures
        r@ == s@,
{
    let mut out: Vec<char> = Vec::new();
    for c in it: s.chars()
        invariant
            out@ =~= it.seq().take(it.index()),
            it.seq() == s@,
    {
        out.push(c);
    }
    out
}

/// Appends what a slice holds.
pub fn extend<T: Copy>(out: &mut Vec<T>, s: &[T])
    ensures
        final(out)@ == old(out)@ + s@,
{
    let ghost start = out@;
    let mut i: usize = 0;
    while i < s.len()
        invariant
            i <= s.len(),
            out@ =~= start + s@.take(i as int),
        decreases s.len() - i,
    {
        out.push(s[i]);
        i = i + 1;
    }
    assert(s@.take(i as int) =~= s@);
}

/// Appends characters to a string.
pub fn push_all(out: &mut String, s: &[char])
    ensures
        final(out)@ == old(out)@ + s@,
{
    let mut i: usize = 0;
    let ghost before = out@;
    while i < s.len()
        invariant
            i <= s.len(),
            out@ =~= before + s@.take(i as int),
        decreases s.len() - i,
    {
        out.push(s[i]);
        i = i + 1;
    }
    assert(s@.take(i as int) =~= s@);
}

/// The string of some characters.
pub fn string_of(s: &[char]) -> (r: String)
    ensures
        r@ == s@,
{
    let mut out = String::new();
    push_all(&mut out, s);
    proof {
        assert(Seq::<char>::empty() + s@ =~= s@);
    }
    out
}

/// The characters of a text that may be there.
pub open spec fn text_in(t: Option<String>) -> Option<Seq<char>> {
    match t {
        Some(s) => Some(s@),
        None => None,
    }
}

/// A copy of a string slice.
pub fn owned(s: &str) -> (r: String)
    ensures
        r@ == s@,
{
    let mut out = String::new();
    out.append(s);
    proof {
        assert(Seq::<char>::empty() + s@ =~= s@);
    }
    out
}

/// Do the characters spell `word`?
pub fn same(s: &[char], word: &str) -> (r: bool)
    ensures
        r == (s@ == word@),
{
    let w = chars_of(word);
    same_chars(s, &w)
}

pub fn same_chars(s: &[char], w: &[char]) -> (r: bool)
    ensures
        r == (s@ == w@),
{
    if s.len() != w.len() {
        return false;
    }
    let mut i: usize = 0;
    while i < s.len()
        invariant
            i <= s.len(),
            s.len() == w.len(),
            forall|j: int| 0 <= j < i ==> s@[j] == w@[j],
        decreases s.len() - i,
    {
        if s[i] != w[i] {
            assert(s@[i as int] != w@[i as int]);
            return false;
        }
        i = i + 1;
    }
    assert(s@ =~= w@);
    true
}

/// Are two strings the same?
pub fn equal(a: &str, b: &str) -> (r: bool)
    ensures
        r == (a@ == b@),
{
    let s = chars_of(a);
    same(&s, b)
}

/// Does `pat` stand in `s` at `i`?
pub open spec fn stands_at(s: Seq<char>, pat: Seq<char>, i: int) -> bool {
    0 <= i && i + pat.len() <= s.len() && s.subrange(i, i + pat.len()) == pat
}

/// Does `pat` stand anywhere in `s`?
pub open spec fn holds(s: Seq<char>, pat: Seq<char>) -> bool {
    exists|i: int| #[trigger] stands_at(s, pat, i)
}

/// Is `i` the first place where `pat` stands in `s`?
pub open spec fn first_at(s: Seq<char>, pat: Seq<char>, i: int) -> bool {
    stands_at(s, pat, i) && forall|j: int| 0 <= j < i ==> !#[trigger] stands_at(s, pat, j)
}

/// The first place where `pat` stands in `s`.
pub open spec fn place(s: Seq<char>, pat: Seq<char>) -> Option<int> {
    if holds(s, pat) {
        Some(choose|i: int| first_at(s, pat, i))
    } else {
        None
    }
}

proof fn lemma_least(s: Seq<char>, pat: Seq<char>, i: int)
    requires
        stands_at(s, pat, i),
    ensures
        exists|k: int| first_at(s, pat, k),
    decreases i,
{
    if forall|j: int| 0 <= j < i ==> !#[trigger] stands_at(s, pat, j) {
        assert(first_at(s, pat, i));
    } else {
        let j = choose|j: int| 0 <= j < i && #[trigger] stands_at(s, pat, j);
        lemma_least(s, pat, j);
    }
}

/// What `place` says: the first place, or that there is none.
pub proof fn lemma_place(s: Seq<char>, pat: Seq<char>)
    ensures
        match place(s, pat) {
            Some(i) => first_at(s, pat, i) && 0 <= i && i + pat.len() <= s.len(),
            None => forall|i: int| !#[trigger] stands_at(s, pat, i),
        },
{
    if holds(s, pat) {
        let i = choose|i: int| #[trigger] stands_at(s, pat, i);
        lemma_least(s, pat, i);
    }
}

pub proof fn lemma_place_is(s: Seq<char>, pat: Seq<char>, i: int)
    requires
        first_at(s, pat, i),
    ensures
        place(s, pat) == Some(i),
{
    assert(stands_at(s, pat, i));
    let k = choose|k: int| first_at(s, pat, k);
    assert(first_at(s, pat, k));
    assert(k == i) by {
        if k < i {
            assert(!stands_at(s, pat, k));
        }
        if i < k {
            assert(!stands_at(s, pat, i));
        }
    }
}

pub fn stands(s: &[char], pat: &[char], at: usize) -> (r: bool)
    ensures
        r == stands_at(s@, pat@, at as int),
{
    if at > s.len() || pat.len() > s.len() - at {
        return false;
    }
    let mut i: usize = 0;
    while i < pat.len()
        invariant
            i <= pat.len(),
            at + pat.len() <= s.len(),
            forall|j: int| 0 <= j < i ==> s@[at + j] == pat@[j],
        decreases pat.len() - i,
    {
        if s[at + i] != pat[i] {
            assert(s@.subrange(at as int, at + pat.len())[i as int] != pat@[i as int]);
            return false;
        }
        i = i + 1;
    }
    assert(s@.subrange(at as int, at + pat.len()) =~= pat@);
    true
}

/// The first place where `pat` stands in `s`.
pub fn find(s: &[char], pat: &[char]) -> (r: Option<usize>)
    ensures
        r is Some == place(s@, pat@) is Some,
        r matches Some(i) ==> place(s@, pat@) == Some(i as int),
        r matches Some(i) ==> i + pat.len() <= s.len(),
{
    if pat.len() > s.len() {
        proof {
            lemma_place(s@, pat@);
        }
        return None;
    }
    let last: usize = s.len() - pat.len();
    let mut i: usize = 0;
    loop
        invariant
            i <= last,
            last == s.len() - pat.len(),
            forall|j: int| 0 <= j < i ==> !#[trigger] stands_at(s@, pat@, j),
        decreases last - i,
    {
        if stands(s, pat, i) {
            proof {
                lemma_place_is(s@, pat@, i as int);
            }
            return Some(i);
        }
        if i == last {
            proof {
                lemma_place(s@, pat@);
            }
            return None;
        }
        i = i + 1;
    }
}

/// The first place where `word` stands in `s`.
pub fn find_word(s: &[char], word: &str) -> (r: Option<usize>)
    ensures
        r is Some == place(s@, word@) is Some,
        r matches Some(i) ==> place(s@, word@) == Some(i as int),
        r matches Some(i) ==> i + word@.len() <= s.len(),
{
    let w = chars_of(word);
    find(s, &w)
}

/// Does `s` begin with `word`?
pub fn begins(s: &[char], word: &str) -> (r: bool)
    ensures
        r == stands_at(s@, word@, 0),
{
    let w = chars_of(word);
    stands(s, &w, 0)
}

/// Does `s` end with `word`?
pub open spec fn ends(s: Seq<char>, word: Seq<char>) -> bool {
    stands_at(s, word, s.len() - word.len())
}

pub fn finishes(s: &[char], word: &str) -> (r: bool)
    ensures
        r == ends(s@, word@),
{
    let w = chars_of(word);
    if w.len() > s.len() {
        return false;
    }
    stands(s, &w, s.len() - w.len())
}

/// The first place of the character `c` in `s`.
pub open spec fn spot(s: Seq<char>, c: char) -> Option<int>
    decreases s.len(),
{
    if s.len() == 0 {
        None
    } else if s[0] == c {
        Some(0)
    } else {
        match spot(s.drop_first(), c) {
            Some(i) => Some(i + 1),
            None => None,
        }
    }
}

/// What `spot` says: the first place, or that there is none.
pub proof fn lemma_spot(s: Seq<char>, c: char)
    ensures
        match spot(s, c) {
            Some(i) => 0 <= i < s.len() && s[i] == c && forall|j: int| 0 <= j < i ==> s[j] != c,
            None => forall|j: int| 0 <= j < s.len() ==> s[j] != c,
        },
    decreases s.len(),
{
    if s.len() > 0 && s[0] != c {
        let rest = s.drop_first();
        lemma_spot(rest, c);
        match spot(rest, c) {
            Some(i) => {
                assert forall|j: int| 0 <= j < i + 1 implies s[j] != c by {
                    if j > 0 {
                        assert(rest[j - 1] == s[j]);
                    }
                }
            },
            None => {
                assert forall|j: int| 0 <= j < s.len() implies s[j] != c by {
                    if j > 0 {
                        assert(rest[j - 1] == s[j]);
                    }
                }
            },
        }
    }
}

/// `spot` is the only first place.
pub proof fn lemma_spot_is(s: Seq<char>, c: char, i: int)
    requires
        0 <= i < s.len(),
        s[i] == c,
        forall|j: int| 0 <= j < i ==> s[j] != c,
    ensures
        spot(s, c) == Some(i),
{
    lemma_spot(s, c);
}

/// A sequence without `c` has no place for it.
pub proof fn lemma_no_spot(s: Seq<char>, c: char)
    requires
        forall|j: int| 0 <= j < s.len() ==> s[j] != c,
    ensures
        spot(s, c) is None,
{
    lemma_spot(s, c);
}

pub fn find_char(s: &[char], c: char) -> (r: Option<usize>)
    ensures
        r is Some == spot(s@, c) is Some,
        r matches Some(i) ==> spot(s@, c) == Some(i as int) && i < s.len() && s@[i as int] == c,
{
    let mut i: usize = 0;
    while i < s.len()
        invariant
            i <= s.len(),
            forall|j: int| 0 <= j < i ==> s@[j] != c,
        decreases s.len() - i,
    {
        if s[i] == c {
            proof {
                lemma_spot_is(s@, c, i as int);
            }
            return Some(i);
        }
        i = i + 1;
    }
    proof {
        lemma_no_spot(s@, c);
    }
    None
}

/// The views of some character vectors.
pub open spec fn views(v: Seq<Vec<char>>) -> Seq<Seq<char>> {
    v.map_values(|p: Vec<char>| p@)
}

/// The pieces of `s` between the characters `c`, empty ones among them.
pub open spec fn split(s: Seq<char>, c: char) -> Seq<Seq<char>>
    decreases s.len(),
{
    match spot(s, c) {
        Some(i) => if 0 <= i < s.len() {
            seq![s.take(i)] + split(s.skip(i + 1), c)
        } else {
            seq![s]
        },
        None => seq![s],
    }
}

pub fn split_on(s: &[char], c: char) -> (r: Vec<Vec<char>>)
    ensures
        views(r@) == split(s@, c),
        r.len() > 0,
{
    let mut out: Vec<Vec<char>> = Vec::new();
    let mut rest: &[char] = s;
    proof {
        assert(views(out@) =~= seq![]);
        assert(seq![] + split(rest@, c) =~= split(s@, c));
    }
    loop
        invariant
            split(s@, c) == views(out@) + split(rest@, c),
        decreases rest.len(),
    {
        let ghost sofar = views(out@);
        match find_char(rest, c) {
            Some(i) => {
                let piece = vstd::slice::slice_to_vec(slice_subrange(rest, 0, i));
                let ghost p = piece@;
                let next = slice_subrange(rest, i + 1, rest.len());
                proof {
                    assert(p =~= rest@.take(i as int));
                    assert(next@ =~= rest@.skip(i + 1));
                }
                out.push(piece);
                proof {
                    assert(views(out@) =~= sofar.push(p));
                    assert(split(s@, c) =~= views(out@) + split(next@, c));
                }
                rest = next;
            },
            None => {
                let piece = vstd::slice::slice_to_vec(rest);
                let ghost p = piece@;
                out.push(piece);
                proof {
                    assert(views(out@) =~= sofar.push(p));
                    assert(split(s@, c) =~= views(out@));
                }
                return out;
            },
        }
    }
}

/// Splitting text that begins with a piece free of `c`, then `c`, gives that
/// piece and then what the rest splits into.
pub proof fn lemma_split_first(a: Seq<char>, c: char, b: Seq<char>)
    requires
        forall|i: int| 0 <= i < a.len() ==> a[i] != c,
    ensures
        split(a.push(c) + b, c) == seq![a] + split(b, c),
        spot(a.push(c) + b, c) == Some(a.len() as int),
{
    let s = a.push(c) + b;
    lemma_spot_is(s, c, a.len() as int);
    assert(s.take(a.len() as int) =~= a);
    assert(s.skip(a.len() as int + 1) =~= b);
}

/// Text free of `c` is one piece.
pub proof fn lemma_split_none(a: Seq<char>, c: char)
    requires
        forall|i: int| 0 <= i < a.len() ==> a[i] != c,
    ensures
        split(a, c) == seq![a],
        spot(a, c) is None,
{
    lemma_no_spot(a, c);
}

/// `parts` one behind the other, with `sep` between each two.
pub open spec fn joined(parts: Seq<Seq<char>>, sep: Seq<char>) -> Seq<char>
    decreases parts.len(),
{
    if parts.len() == 0 {
        seq![]
    } else if parts.len() == 1 {
        parts[0]
    } else {
        joined(parts.drop_last(), sep) + sep + parts.last()
    }
}

pub fn join(parts: &Vec<Vec<char>>, sep: &str) -> (r: String)
    ensures
        r@ == joined(views(parts@), sep@),
{
    let mut out = String::new();
    let mut i: usize = 0;
    let ghost all = views(parts@);
    while i < parts.len()
        invariant
            i <= parts.len(),
            all == views(parts@),
            out@ == joined(all.take(i as int), sep@),
        decreases parts.len() - i,
    {
        proof {
            assert(all.take(i + 1).drop_last() =~= all.take(i as int));
            assert(all[i as int] == parts@[i as int]@);
        }
        if i > 0 {
            out.append(sep);
        }
        push_all(&mut out, &parts[i]);
        proof {
            if i == 0 {
                assert(out@ =~= all.take(1)[0]);
            }
        }
        i = i + 1;
    }
    assert(all.take(i as int) =~= all);
    out
}

/// `s` without white space at its end.
pub open spec fn trimmed_end(s: Seq<char>) -> Seq<char>
    decreases s.len(),
{
    if s.len() > 0 && white(s.last()) {
        trimmed_end(s.drop_last())
    } else {
        s
    }
}

/// `s` without white space at its head.
pub open spec fn trimmed_start(s: Seq<char>) -> Seq<char>
    decreases s.len(),
{
    if s.len() > 0 && white(s[0]) {
        trimmed_start(s.drop_first())
    } else {
        s
    }
}

/// `s` without white space around it.
pub open spec fn trimmed(s: Seq<char>) -> Seq<char> {
    trimmed_end(trimmed_start(s))
}

pub fn trim_end<'a>(s: &'a [char]) -> (r: &'a [char])
    ensures
        r@ == trimmed_end(s@),
{
    let mut n: usize = s.len();
    assert(s@.take(n as int) =~= s@);
    while n > 0 && is_white(s[n - 1])
        invariant
            n <= s.len(),
            trimmed_end(s@) == trimmed_end(s@.take(n as int)),
        decreases n,
    {
        proof {
            assert(s@.take(n as int).drop_last() =~= s@.take(n - 1));
        }
        n = n - 1;
    }
    let r = slice_subrange(s, 0, n);
    assert(r@ =~= s@.take(n as int));
    r
}

pub fn trim_start<'a>(s: &'a [char]) -> (r: &'a [char])
    ensures
        r@ == trimmed_start(s@),
{
    let mut n: usize = 0;
    assert(s@.skip(0) =~= s@);
    while n < s.len() && is_white(s[n])
        invariant
            n <= s.len(),
            trimmed_start(s@) == trimmed_start(s@.skip(n as int)),
        decreases s.len() - n,
    {
        proof {
            assert(s@.skip(n as int).drop_first() =~= s@.skip(n + 1));
        }
        n = n + 1;
    }
    let r = slice_subrange(s, n, s.len());
    assert(r@ =~= s@.skip(n as int));
    r
}

pub fn trim<'a>(s: &'a [char]) -> (r: &'a [char])
    ensures
        r@ == trimmed(s@),
{
    trim_end(trim_start(s))
}

/// The words of `s`: its longest stretches without white space, in order.
pub open spec fn words(s: Seq<char>) -> Seq<Seq<char>> {
    words_from(s, seq![])
}

/// The words of `s` when `word` has been read just before it.
pub open spec fn words_from(s: Seq<char>, word: Seq<char>) -> Seq<Seq<char>>
    decreases s.len(),
{
    if s.len() == 0 {
        if word.len() == 0 {
            seq![]
        } else {
            seq![word]
        }
    } else if white(s[0]) {
        if word.len() == 0 {
            words_from(s.drop_first(), seq![])
        } else {
            seq![word] + words_from(s.drop_first(), seq![])
        }
    } else {
        words_from(s.drop_first(), word.push(s[0]))
    }
}

pub fn words_of(s: &[char]) -> (r: Vec<Vec<char>>)
    ensures
        views(r@) == words(s@),
{
    let mut out: Vec<Vec<char>> = Vec::new();
    let mut word: Vec<char> = Vec::new();
    let mut i: usize = 0;
    proof {
        assert(s@.skip(0) =~= s@);
        assert(views(out@) =~= seq![]);
        assert(seq![] + words(s@) =~= words(s@));
    }
    while i < s.len()
        invariant
            i <= s.len(),
            words(s@) == views(out@) + words_from(s@.skip(i as int), word@),
        decreases s.len() - i,
    {
        let ghost sofar = views(out@);
        let ghost before = word@;
        proof {
            assert(s@.skip(i as int).drop_first() =~= s@.skip(i + 1));
        }
        if is_white(s[i]) {
            if word.len() > 0 {
                out.push(word);
                word = Vec::new();
                proof {
                    assert(views(out@) =~= sofar.push(before));
                    assert(words(s@) =~= views(out@) + words_from(s@.skip(i + 1), seq![]));
                }
            }
            assert(word@ =~= seq![]);
        } else {
            word.push(s[i]);
        }
        i = i + 1;
    }
    let ghost sofar = views(out@);
    let ghost before = word@;
    if word.len() > 0 {
        out.push(word);
        proof {
            assert(views(out@) =~= sofar.push(before));
        }
    }
    assert(words(s@) =~= views(out@));
    out
}

/// A line without a carriage return at its end.
pub open spec fn uncarried(line: Seq<char>) -> Seq<char> {
    if line.len() > 0 && line.last() == '\r' {
        line.drop_last()
    } else {
        line
    }
}

/// The pieces between line feeds, the last left out if it is empty.
pub open spec fn raw_lines(s: Seq<char>) -> Seq<Seq<char>> {
    let pieces = split(s, '\n');
    if pieces.len() > 0 && pieces.last().len() == 0 {
        pieces.drop_last()
    } else {
        pieces
    }
}

/// The lines of a text, without what ends them.
pub open spec fn lines(s: Seq<char>) -> Seq<Seq<char>> {
    raw_lines(s).map_values(|l: Seq<char>| uncarried(l))
}

/// The lines of a text, without what ends them.
pub fn lines_of(s: &[char]) -> (r: Vec<Vec<char>>)
    ensures
        views(r@) == lines(s@),
{
    let pieces = split_on(s, '\n');
    let ghost all = views(pieces@);
    let n: usize = if pieces[pieces.len() - 1].len() == 0 {
        pieces.len() - 1
    } else {
        pieces.len()
    };
    proof {
        assert(all.last() == pieces@[pieces@.len() - 1]@);
        assert(all.take(n as int) =~= raw_lines(s@));
    }
    let ghost strip = |l: Seq<char>| uncarried(l);
    let mut out: Vec<Vec<char>> = Vec::new();
    let mut i: usize = 0;
    assert(views(out@) =~= all.take(0).map_values(strip));
    while i < n
        invariant
            i <= n <= pieces.len(),
            all == views(pieces@),
            strip == (|l: Seq<char>| uncarried(l)),
            views(out@) == all.take(i as int).map_values(strip),
        decreases n - i,
    {
        let ghost before = views(out@);
        let line = pieces[i].as_slice();
        proof {
            assert(all[i as int] == line@);
        }
        let keep: usize = if line.len() > 0 && line[line.len() - 1] == '\r' {
            line.len() - 1
        } else {
            line.len()
        };
        let cut = vstd::slice::slice_to_vec(slice_subrange(line, 0, keep));
        let ghost c = cut@;
        proof {
            assert(c =~= uncarried(line@));
        }
        out.push(cut);
        proof {
            assert(views(out@) =~= before.push(c));
            assert(all.take(i + 1).map_values(strip) =~= before.push(c));
        }
        i = i + 1;
    }
    out
}

/// Lines as a text: a line feed behind each.
pub open spec fn written(ls: Seq<Seq<char>>) -> Seq<char>
    decreases ls.len(),
{
    if ls.len() == 0 {
        seq![]
    } else {
        ls[0].push('\n') + written(ls.drop_first())
    }
}

proof fn lemma_split_written(ls: Seq<Seq<char>>)
    requires
        forall|k: int| 0 <= k < ls.len() ==> spot(#[trigger] ls[k], '\n') is None,
    ensures
        split(written(ls), '\n') == ls.push(seq![]),
    decreases ls.len(),
{
    let none = Seq::<char>::empty();
    if ls.len() == 0 {
        lemma_split_none(none, '\n');
        assert(ls.push(none) =~= seq![none]);
    } else {
        let rest = ls.drop_first();
        assert forall|k: int| 0 <= k < rest.len() implies spot(#[trigger] rest[k], '\n') is None by {
            assert(spot(ls[k + 1], '\n') is None);
        }
        lemma_split_written(rest);
        assert(spot(ls[0], '\n') is None);
        lemma_spot(ls[0], '\n');
        lemma_split_first(ls[0], '\n', written(rest));
        assert(seq![ls[0]] + rest.push(none) =~= ls.push(none));
    }
}

/// Reading lines back gives the lines that were written, less a carriage return
/// at the end of one.
pub proof fn lemma_lines_written(ls: Seq<Seq<char>>)
    requires
        forall|k: int| 0 <= k < ls.len() ==> spot(#[trigger] ls[k], '\n') is None,
    ensures
        lines(written(ls)) == ls.map_values(|l: Seq<char>| uncarried(l)),
{
    lemma_split_written(ls);
    let none = Seq::<char>::empty();
    assert(ls.push(none).drop_last() =~= ls);
}

proof fn lemma_pieces_free(s: Seq<char>, c: char)
    ensures
        forall|k: int| 0 <= k < split(s, c).len() ==> spot(#[trigger] split(s, c)[k], c) is None,
    decreases s.len(),
{
    lemma_spot(s, c);
    match spot(s, c) {
        Some(at) => {
            let rest = split(s.skip(at + 1), c);
            lemma_pieces_free(s.skip(at + 1), c);
            lemma_no_spot(s.take(at), c);
            assert forall|k: int| 0 <= k < split(s, c).len() implies spot(#[trigger] split(s, c)[k], c) is None by {
                if k > 0 {
                    assert(split(s, c)[k] == rest[k - 1]);
                }
            }
        },
        None => {},
    }
}

/// A line of a text holds no line feed.
pub proof fn lemma_lines_free(s: Seq<char>)
    ensures
        forall|k: int| 0 <= k < lines(s).len() ==> spot(#[trigger] lines(s)[k], '\n') is None,
{
    lemma_pieces_free(s, '\n');
    assert forall|k: int| 0 <= k < lines(s).len() implies spot(#[trigger] lines(s)[k], '\n') is None by {
        let l = split(s, '\n')[k];
        assert(spot(l, '\n') is None);
        lemma_spot(l, '\n');
        lemma_no_spot(uncarried(l), '\n');
    }
}

/// Appends a line and what ends it.
pub fn push_line(out: &mut String, line: &[char])
    ensures
        final(out)@ == old(out)@ + line@.push('\n'),
{
    let ghost before = out@;
    push_all(out, line);
    out.push('\n');
    assert(out@ =~= before + line@.push('\n'));
}

proof fn lemma_trim_start_carried(s: Seq<char>)
    ensures
        trimmed_start(s.push('\r')) == trimmed_start(s).push('\r') || (trimmed_start(s).len() == 0
            && trimmed_start(s.push('\r')).len() == 0),
    decreases s.len(),
{
    let t = s.push('\r');
    if s.len() > 0 && white(s[0]) {
        assert(t.drop_first() =~= s.drop_first().push('\r'));
        lemma_trim_start_carried(s.drop_first());
    } else if s.len() == 0 {
        assert(t.drop_first() =~= seq![]);
        reveal_with_fuel(trimmed_start, 2);
    }
}

/// A carriage return at the end of a text does not survive trimming.
pub proof fn lemma_trim_carried(s: Seq<char>)
    ensures
        trimmed(s.push('\r')) == trimmed(s),
{
    lemma_trim_start_carried(s);
    let a = trimmed_start(s);
    if trimmed_start(s.push('\r')) == a.push('\r') {
        assert(a.push('\r').drop_last() =~= a);
    } else {
        assert(trimmed_start(s.push('\r')) =~= a);
    }
}

/// Text that neither starts nor ends in white space is left as it is.
pub proof fn lemma_trim_kept(s: Seq<char>)
    requires
        s.len() == 0 || (!white(s[0]) && !white(s.last())),
    ensures
        trimmed(s) == s,
{
}

/// The decimal digits of `n`.
pub open spec fn decimal(n: nat) -> Seq<char>
    decreases n,
{
    if n < 10 {
        seq![digit(n)]
    } else {
        decimal(n / 10).push(digit(n % 10))
    }
}

/// The character of a digit below ten.
pub open spec fn digit(d: nat) -> char {
    ((48 + d) as u32) as char
}

/// Appends the decimal digits of `n`.
pub fn push_decimal(out: &mut String, n: u64)
    ensures
        final(out)@ == old(out)@ + decimal(n as nat),
    decreases n,
{
    if n >= 10 {
        push_decimal(out, n / 10);
    }
    let d: u8 = (n % 10) as u8;
    let ghost before = out@;
    out.push((48 + d) as char);
    proof {
        assert(out@ =~= before + seq![digit((n % 10) as nat)]);
    }
}

/// Appends the decimal digits of `n`.
pub fn push_count(out: &mut String, n: usize)
    ensures
        final(out)@ == old(out)@ + decimal(n as nat),
{
    push_decimal(out, n as u64)
}

/// The value of a digit in a radix of ten or sixteen.
pub open spec fn digit_value(c: char, radix: nat) -> Option<nat> {
    let n = c as u32;
    if 48 <= n <= 57 {
        Some((n - 48) as nat)
    } else if radix == 16 && 97 <= n <= 102 {
        Some((n - 87) as nat)
    } else if radix == 16 && 65 <= n <= 70 {
        Some((n - 55) as nat)
    } else {
        None
    }
}

/// The number that `s` spells in digits alone.
pub open spec fn digits(s: Seq<char>, radix: nat) -> Option<nat>
    decreases s.len(),
{
    if s.len() == 0 {
        Some(0)
    } else {
        match (digits(s.drop_last(), radix), digit_value(s.last(), radix)) {
            (Some(n), Some(d)) => Some(n * radix + d),
            _ => None,
        }
    }
}

/// The number that `s` spells: one or more digits, with or without a plus sign
/// before them.
pub open spec fn number(s: Seq<char>, radix: nat) -> Option<nat> {
    let d = if s.len() > 0 && s[0] == '+' {
        s.drop_first()
    } else {
        s
    };
    if d.len() == 0 {
        None
    } else {
        digits(d, radix)
    }
}

/// The number that `s` spells, if it is at most `max`.
pub open spec fn number_to(s: Seq<char>, radix: nat, max: nat) -> Option<nat> {
    match number(s, radix) {
        Some(n) if n <= max => Some(n),
        _ => None,
    }
}

fn value_of(c: char, radix: u64) -> (r: Option<u64>)
    ensures
        r is Some == digit_value(c, radix as nat) is Some,
        r matches Some(d) ==> digit_value(c, radix as nat) == Some(d as nat) && d < 16,
{
    let n: u32 = c as u32;
    if 48 <= n && n <= 57 {
        Some((n - 48) as u64)
    } else if radix == 16 && 97 <= n && n <= 102 {
        Some((n - 87) as u64)
    } else if radix == 16 && 65 <= n && n <= 70 {
        Some((n - 55) as u64)
    } else {
        None
    }
}

proof fn lemma_digits_grow(s: Seq<char>, radix: nat, k: int)
    requires
        0 <= k <= s.len(),
        radix >= 1,
        digits(s, radix) is Some,
    ensures
        digits(s.take(k), radix) is Some,
        digits(s.take(k), radix)->0 <= digits(s, radix)->0,
    decreases s.len(),
{
    if k == s.len() {
        assert(s.take(k) =~= s);
    } else {
        let front = s.drop_last();
        lemma_digits_grow(front, radix, k);
        assert(front.take(k) =~= s.take(k));
        let n = digits(front, radix)->0;
        assert(n * radix >= n) by (nonlinear_arith)
            requires
                radix >= 1,
        ;
    }
}

/// Reads a number in a radix of ten or sixteen, up to `max`.
pub fn parse_number(s: &[char], radix: u64, max: u64) -> (r: Option<u64>)
    requires
        radix == 10 || radix == 16,
    ensures
        r is Some == number_to(s@, radix as nat, max as nat) is Some,
        r matches Some(n) ==> number_to(s@, radix as nat, max as nat) == Some(n as nat),
{
    let from: usize = if s.len() > 0 && s[0] == '+' {
        1
    } else {
        0
    };
    let d = slice_subrange(s, from, s.len());
    proof {
        if from == 1 {
            assert(d@ =~= s@.drop_first());
        } else {
            assert(d@ =~= s@);
        }
    }
    if d.len() == 0 {
        return None;
    }
    let mut value: u128 = 0;
    let mut i: usize = 0;
    assert(d@.take(0) =~= seq![]);
    while i < d.len()
        invariant
            i <= d.len(),
            radix == 10 || radix == 16,
            value <= max,
            digits(d@.take(i as int), radix as nat) == Some(value as nat),
            d.len() > 0,
            number(s@, radix as nat) == digits(d@, radix as nat),
        decreases d.len() - i,
    {
        proof {
            assert(d@.take(i + 1).drop_last() =~= d@.take(i as int));
        }
        match value_of(d[i], radix) {
            Some(v) => {
                assert(value * radix + v <= 0xffff_ffff_ffff_ffff * 16 + 16) by (nonlinear_arith)
                    requires
                        value <= 0xffff_ffff_ffff_ffff,
                        radix <= 16,
                        v < 16,
                ;
                assert(0 <= value * radix) by (nonlinear_arith)
                    requires
                        value >= 0,
                        radix >= 0,
                ;
                let next: u128 = value * (radix as u128) + (v as u128);
                assert(digits(d@.take(i + 1), radix as nat) == Some(next as nat));
                if next > max as u128 {
                    proof {
                        if digits(d@, radix as nat) is Some {
                            lemma_digits_grow(d@, radix as nat, i + 1);
                        }
                    }
                    return None;
                }
                value = next;
            },
            None => {
                proof {
                    if digits(d@, radix as nat) is Some {
                        lemma_digits_grow(d@, radix as nat, i + 1);
                    }
                }
                return None;
            },
        }
        i = i + 1;
    }
    assert(d@.take(i as int) =~= d@);
    Some(value as u64)
}

/// Reads a decimal number that fits in `usize`.
pub fn parse_count(s: &[char]) -> (r: Option<usize>)
    ensures
        r is Some == number_to(s@, 10, usize::MAX as nat) is Some,
        r matches Some(n) ==> number_to(s@, 10, usize::MAX as nat) == Some(n as nat),
{
    match parse_number(s, 10, usize::MAX as u64) {
        Some(n) => Some(n as usize),
        None => None,
    }
}

proof fn lemma_digit(d: nat)
    requires
        d < 10,
    ensures
        digit_value(digit(d), 10) == Some(d),
        digit(d) != '+',
{
}

/// A number's decimal digits spell the number, and nothing but digits does.
pub proof fn lemma_decimal(n: nat)
    ensures
        decimal(n).len() > 0,
        digits(decimal(n), 10) == Some(n),
        forall|i: int| 0 <= i < decimal(n).len() ==> 48 <= (#[trigger] decimal(n)[i]) as u32 <= 57,
    decreases n,
{
    if n < 10 {
        lemma_digit(n);
        assert(decimal(n).drop_last() =~= seq![]);
        reveal_with_fuel(digits, 2);
    } else {
        lemma_decimal(n / 10);
        lemma_digit(n % 10);
        assert(decimal(n).drop_last() =~= decimal(n / 10));
        assert((n / 10) * 10 + n % 10 == n);
    }
}

/// Reading a number back gives what was written.
pub proof fn law_numbers_round_trip(n: nat, max: nat)
    requires
        n <= max,
    ensures
        number_to(decimal(n), 10, max) == Some(n),
{
    lemma_decimal(n);
    assert(decimal(n)[0] as u32 >= 48);
}

/// A length in thousandths as a decimal number: whole part, then as many of the
/// three decimals as are not trailing zeros.
pub open spec fn thousandths(n: nat) -> Seq<char> {
    let whole = decimal(n / 1000);
    let rest = n % 1000;
    if rest == 0 {
        whole
    } else if rest % 100 == 0 {
        whole + seq!['.', digit(rest / 100)]
    } else if rest % 10 == 0 {
        whole + seq!['.', digit(rest / 100), digit(rest / 10 % 10)]
    } else {
        whole + seq!['.', digit(rest / 100), digit(rest / 10 % 10), digit(rest % 10)]
    }
}

/// Appends a length in thousandths as a decimal number.
pub fn push_thousandths(out: &mut String, n: u64)
    ensures
        final(out)@ == old(out)@ + thousandths(n as nat),
{
    let ghost before = out@;
    push_decimal(out, n / 1000);
    let rest: u64 = n % 1000;
    if rest != 0 {
        out.push('.');
        out.push((48 + (rest / 100) as u8) as char);
        if rest % 100 != 0 {
            out.push((48 + (rest / 10 % 10) as u8) as char);
            if rest % 10 != 0 {
                out.push((48 + (rest % 10) as u8) as char);
            }
        }
    }
    assert(out@ =~= before + thousandths(n as nat));
}

} // verus!
