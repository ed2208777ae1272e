//! What the bars and the lists say: how far the reader has come, and what is
//! listed.
use crate::marks::{plural, plural_text};
use crate::text::{
    chars_of, decimal, equal, joined, lemma_decimal, number_to, owned, parse_count, push_count,
    push_decimal, views, white, words, words_from, words_of,
};
use vstd::prelude::*;

verus! {

/// Thousandths as a percentage, rounded; a half goes up.
pub open spec fn rounded_percent(progress: int) -> int {
    (progress + 5) / 10
}

pub fn percent(progress: u64) -> (r: u64)
    requires
        progress <= 1000,
    ensures
        r == rounded_percent(progress as int),
        r <= 100,
{
    (progress + 5) / 10
}

/// The sum of the first `n` counts.
pub open spec fn sum_to(counts: Seq<usize>, n: int) -> nat
    decreases n,
{
    if n <= 0 || n > counts.len() {
        0
    } else {
        sum_to(counts, n - 1) + counts[n - 1] as nat
    }
}

/// The number of a page across the whole book, and how many the book has: the
/// pages of the chapters before it and its own, never past the last.
pub open spec fn numbered(counts: Seq<usize>, index: int, page: int) -> (int, int) {
    let total = sum_to(counts, counts.len() as int) as int;
    let all = if total > 1 {
        total
    } else {
        1
    };
    let before = sum_to(
        counts,
        if index < counts.len() {
            index
        } else {
            counts.len() as int
        },
    );
    (
        if before + page + 1 < all {
            before + page + 1
        } else {
            all
        },
        all,
    )
}

proof fn lemma_sum_grows(counts: Seq<usize>, a: int, b: int)
    requires
        0 <= a <= b <= counts.len(),
    ensures
        sum_to(counts, a) <= sum_to(counts, b),
    decreases b - a,
{
    if a < b {
        lemma_sum_grows(counts, a, b - 1);
    }
}

/// Page number across the whole book, not the chapter, and the number of pages
/// of the book.
pub fn book_page(counts: &[usize], index: usize, page: usize) -> (r: (usize, usize))
    requires
        sum_to(counts@, counts@.len() as int) <= usize::MAX,
    ensures
        (r.0 as int, r.1 as int) == numbered(counts@, index as int, page as int),
{
    let mut total: usize = 0;
    let mut before: usize = 0;
    let mut i: usize = 0;
    while i < counts.len()
        invariant
            i <= counts.len(),
            sum_to(counts@, counts@.len() as int) <= usize::MAX,
            total == sum_to(counts@, i as int),
            before == sum_to(
                counts@,
                if i < index {
                    i as int
                } else {
                    index as int
                },
            ),
        decreases counts.len() - i,
    {
        proof {
            lemma_sum_grows(counts@, i + 1, counts@.len() as int);
        }
        total = total + counts[i];
        i = i + 1;
        if i <= index {
            before = total;
        }
    }
    let all: usize = if total > 1 {
        total
    } else {
        1
    };
    let number: u128 = (before as u128) + (page as u128) + 1;
    if number < all as u128 {
        (number as usize, all)
    } else {
        (all, all)
    }
}

/// The page across the whole book, where its pages were counted at the layout on
/// screen: a count means nothing at another.
pub fn measured(key: &str, layout: &str, counts: &[usize], index: usize, page: usize) -> (r: Option<
    (usize, usize),
>)
    requires
        sum_to(counts@, counts@.len() as int) <= usize::MAX,
    ensures
        r is Some == (key@ == layout@),
        r matches Some(p) ==> (p.0 as int, p.1 as int) == numbered(counts@, index as int, page as int),
{
    if equal(key, layout) {
        Some(book_page(counts, index, page))
    } else {
        None
    }
}

/// Page numbers run on through the book: from page to page by one, and from a
/// chapter's last page to the next chapter's first.
pub proof fn law_page_numbers_run_on(counts: Seq<usize>, index: int, page: int)
    requires
        0 <= index < counts.len(),
        0 <= page < counts[index],
    ensures
        numbered(counts, index, page).0 == sum_to(counts, index) + page + 1,
        page + 1 < counts[index] ==> numbered(counts, index, page + 1).0 == numbered(
            counts,
            index,
            page,
        ).0 + 1,
        page + 1 == counts[index] && index + 1 < counts.len() && counts[index + 1] > 0
            ==> numbered(counts, index + 1, 0).0 == numbered(counts, index, page).0 + 1,
        numbered(counts, index, page).0 <= numbered(counts, index, page).1,
{
    lemma_sum_grows(counts, index + 1, counts.len() as int);
    if index + 1 < counts.len() {
        lemma_sum_grows(counts, index + 2, counts.len() as int);
    }
}

/// What the foot of the page says.
pub open spec fn readout_text(show_page: bool, measured: Option<(usize, usize)>, percent: nat) -> Seq<
    char,
> {
    match measured {
        Some(m) if show_page => "page "@ + decimal(m.0 as nat) + " of "@ + decimal(m.1 as nat),
        _ => decimal(percent) + "%"@,
    }
}

/// What the foot of the page says: a page number where one was asked for and the
/// book is measured, a percentage otherwise. Both are about the whole book.
pub fn readout(show_page: bool, measured: Option<(usize, usize)>, percent: u64) -> (r: String)
    ensures
        r@ == readout_text(show_page, measured, percent as nat),
{
    match measured {
        Some(m) if show_page => {
            let mut out = owned("page ");
            push_count(&mut out, m.0);
            out.append(" of ");
            push_count(&mut out, m.1);
            out
        },
        _ => {
            let mut out = String::new();
            push_decimal(&mut out, percent);
            proof {
                assert(Seq::<char>::empty() + decimal(percent as nat) =~= decimal(percent as nat));
            }
            out.append("%");
            out
        },
    }
}

/// The wording of the way back: always about the whole book.
pub open spec fn way_back(measured: Option<usize>, percent: nat) -> Seq<char> {
    match measured {
        Some(page) => "Back to page "@ + decimal(page as nat),
        None => "Back to "@ + decimal(percent) + "%"@,
    }
}

/// Where the reader is, worded for the way-back button.
pub fn here_label(measured: Option<usize>, percent: u64) -> (r: String)
    ensures
        r@ == way_back(measured, percent as nat),
{
    match measured {
        Some(page) => {
            let mut out = owned("Back to page ");
            push_count(&mut out, page);
            out
        },
        None => {
            let mut out = owned("Back to ");
            push_decimal(&mut out, percent);
            out.append("%");
            out
        },
    }
}

/// What the contents view is listing. All three are places in this book, so they
/// share one document, one set of keys and one hit-test path.
#[derive(Debug, Clone, Copy, PartialEq, Eq, Structural)]
pub enum TocMode {
    Contents,
    Search,
    Marks,
}

impl TocMode {
    pub open spec fn word(self) -> Seq<char> {
        match self {
            TocMode::Contents => "Contents"@,
            TocMode::Search => "Search"@,
            TocMode::Marks => "Marks"@,
        }
    }

    pub fn heading(self) -> (r: &'static str)
        ensures
            r@ == self.word(),
    {
        match self {
            TocMode::Contents => "Contents",
            TocMode::Search => "Search",
            TocMode::Marks => "Marks",
        }
    }
}

/// The line under the heading of a list of `n` entries.
pub open spec fn subtitle_text(
    mode: TocMode,
    title: Seq<char>,
    find: Seq<char>,
    note: Option<Seq<char>>,
    n: nat,
) -> Seq<char> {
    match mode {
        TocMode::Search => "“"@ + find + "” — "@ + decimal(n) + " hit"@ + plural_text(n)
            + " in this book"@,
        TocMode::Marks => match note {
            Some(typed) => "note: "@ + typed + "|"@,
            None => decimal(n) + " bookmark"@ + plural_text(n) + " and highlights"@,
        },
        TocMode::Contents => title,
    }
}

/// The line under the heading of a list: the query, the note being typed or the
/// book's title.
pub fn subtitle(mode: TocMode, title: &str, find: &str, note: Option<&str>, n: usize) -> (r: String)
    ensures
        r@ == subtitle_text(
            mode,
            title@,
            find@,
            match note {
                Some(t) => Some(t@),
                None => None,
            },
            n as nat,
        ),
{
    match mode {
        TocMode::Search => {
            let mut out = owned("“");
            out.append(find);
            out.append("” — ");
            push_count(&mut out, n);
            out.append(" hit");
            out.append(plural(n));
            out.append(" in this book");
            out
        },
        TocMode::Marks => match note {
            Some(typed) => {
                let mut out = owned("note: ");
                out.append(typed);
                out.append("|");
                out
            },
            None => {
                let mut out = String::new();
                push_count(&mut out, n);
                proof {
                    assert(Seq::<char>::empty() + decimal(n as nat) =~= decimal(n as nat));
                }
                out.append(" bookmark");
                out.append(plural(n));
                out.append(" and highlights");
                out
            },
        },
        TocMode::Contents => owned(title),
    }
}

/// Counts as they are spelled.
pub open spec fn spelled(counts: Seq<usize>) -> Seq<Seq<char>> {
    Seq::new(counts.len(), |i: int| decimal(counts[i] as nat))
}

/// The pages of each chapter as a text: the counts, a space between them.
pub fn counts_text(counts: &[usize]) -> (r: String)
    ensures
        r@ == joined(spelled(counts@), " "@),
{
    let ghost all = spelled(counts@);
    let mut out = String::new();
    let mut i: usize = 0;
    assert(all.take(0) =~= seq![]);
    while i < counts.len()
        invariant
            i <= counts.len(),
            all == spelled(counts@),
            out@ =~= joined(all.take(i as int), " "@),
        decreases counts.len() - i,
    {
        let ghost before = out@;
        let ghost sofar = all.take(i + 1);
        proof {
            assert(sofar.drop_last() =~= all.take(i as int));
            assert(sofar.last() == decimal(counts@[i as int] as nat));
        }
        if i > 0 {
            out.append(" ");
        }
        push_count(&mut out, counts[i]);
        proof {
            if i > 0 {
                assert(out@ =~= before + " "@ + sofar.last());
            } else {
                assert(all.take(0) =~= seq![]);
                assert(out@ =~= sofar[0]);
            }
        }
        i = i + 1;
    }
    assert(all.take(i as int) =~= all);
    out
}

/// The numbers that some words spell, if each spells one.
pub open spec fn numbers(words: Seq<Seq<char>>) -> Option<Seq<usize>>
    decreases words.len(),
{
    if words.len() == 0 {
        Some(seq![])
    } else {
        match (numbers(words.drop_last()), number_to(words.last(), 10, usize::MAX as nat)) {
            (Some(before), Some(n)) => Some(before.push(n as usize)),
            _ => None,
        }
    }
}

/// The pages of each of `chapters` chapters that a text gives, if it does.
pub open spec fn counts_in(text: Seq<char>, chapters: int) -> Option<Seq<usize>> {
    match numbers(words(text)) {
        Some(counts) => if counts.len() == chapters {
            Some(counts)
        } else {
            None
        },
        None => None,
    }
}

proof fn lemma_no_numbers(words: Seq<Seq<char>>, k: int)
    requires
        0 <= k < words.len(),
        number_to(words[k], 10, usize::MAX as nat) is None,
    ensures
        numbers(words) is None,
    decreases words.len(),
{
    if k < words.len() - 1 {
        lemma_no_numbers(words.drop_last(), k);
    }
}

/// Reads the pages of each chapter out of a text.
pub fn read_counts(text: &str, chapters: usize) -> (r: Option<Vec<usize>>)
    ensures
        match r {
            Some(counts) => counts_in(text@, chapters as int) == Some(counts@),
            None => counts_in(text@, chapters as int) is None,
        },
{
    let ws = words_of(&chars_of(text));
    let ghost all = views(ws@);
    let mut counts: Vec<usize> = Vec::new();
    let mut i: usize = 0;
    assert(all.take(0) =~= seq![]);
    assert(counts@ =~= seq![]);
    while i < ws.len()
        invariant
            i <= ws.len(),
            all == views(ws@),
            all == words(text@),
            numbers(all.take(i as int)) == Some(counts@),
        decreases ws.len() - i,
    {
        proof {
            assert(all.take(i + 1).drop_last() =~= all.take(i as int));
            assert(all.take(i + 1).last() == ws@[i as int]@);
        }
        match parse_count(&ws[i]) {
            Some(n) => {
                counts.push(n);
            },
            None => {
                proof {
                    lemma_no_numbers(all, i as int);
                }
                return None;
            },
        }
        i = i + 1;
    }
    assert(all.take(i as int) =~= all);
    if counts.len() == chapters {
        Some(counts)
    } else {
        None
    }
}

proof fn lemma_word_read(word: Seq<char>, read: Seq<char>, rest: Seq<char>)
    requires
        forall|i: int| 0 <= i < word.len() ==> !white(#[trigger] word[i]),
    ensures
        words_from(word + rest, read) == words_from(rest, read + word),
    decreases word.len(),
{
    if word.len() == 0 {
        assert(word + rest =~= rest);
        assert(read + word =~= read);
    } else {
        let s = word + rest;
        assert(s[0] == word[0]);
        assert(s.drop_first() =~= word.drop_first() + rest);
        lemma_word_read(word.drop_first(), read.push(word[0]), rest);
        assert(read.push(word[0]) + word.drop_first() =~= read + word);
    }
}

/// Words behind one another are read in two goes where a space parts them.
proof fn lemma_words_parted(a: Seq<char>, read: Seq<char>, b: Seq<char>)
    ensures
        words_from(a + " "@ + b, read) == words_from(a, read) + words_from(b, seq![]),
    decreases a.len(),
{
    reveal_strlit(" ");
    let s = a + " "@ + b;
    if a.len() == 0 {
        assert(s[0] == ' ');
        assert(s.drop_first() =~= b);
        assert(words_from(s, read) =~= words_from(a, read) + words_from(b, seq![]));
    } else {
        assert(s[0] == a[0]);
        assert(s.drop_first() =~= a.drop_first() + " "@ + b);
        let rest = a.drop_first();
        let none = Seq::<char>::empty();
        if white(a[0]) {
            lemma_words_parted(rest, none, b);
            assert(words_from(s, read) =~= words_from(a, read) + words_from(b, seq![]));
        } else {
            lemma_words_parted(rest, read.push(a[0]), b);
        }
    }
}

proof fn lemma_joined_words(parts: Seq<Seq<char>>)
    requires
        forall|k: int| 0 <= k < parts.len() ==> (#[trigger] parts[k]).len() > 0,
        forall|k: int, i: int|
            0 <= k < parts.len() && 0 <= i < parts[k].len() ==> !white(#[trigger] parts[k][i]),
    ensures
        words(joined(parts, " "@)) == parts,
    decreases parts.len(),
{
    let none = Seq::<char>::empty();
    if parts.len() == 0 {
        assert(words(none) =~= parts);
    } else {
        let last = parts.last();
        lemma_word_read(last, none, none);
        assert(last + none =~= last);
        assert(none + last =~= last);
        assert(words(last) =~= seq![last]);
        if parts.len() == 1 {
            assert(parts =~= seq![last]);
        } else {
            let front = parts.drop_last();
            lemma_joined_words(front);
            lemma_words_parted(joined(front, " "@), none, last);
            assert(front + seq![last] =~= parts);
        }
    }
}

proof fn lemma_spelled_numbers(counts: Seq<usize>)
    ensures
        numbers(spelled(counts)) == Some(counts),
    decreases counts.len(),
{
    if counts.len() == 0 {
        assert(counts =~= seq![]);
    } else {
        let front = counts.drop_last();
        lemma_spelled_numbers(front);
        assert(spelled(counts).drop_last() =~= spelled(front));
        let n = counts.last() as nat;
        lemma_decimal(n);
        assert(decimal(n)[0] as u32 != '+' as u32);
        assert(front.push(counts.last()) =~= counts);
    }
}

/// Page counts that were written are the page counts that are read back.
pub proof fn law_page_counts_round_trip(counts: Seq<usize>)
    ensures
        counts_in(joined(spelled(counts), " "@), counts.len() as int) == Some(counts),
{
    let parts = spelled(counts);
    assert forall|k: int| 0 <= k < parts.len() implies (#[trigger] parts[k]).len() > 0 by {
        lemma_decimal(counts[k] as nat);
    }
    assert forall|k: int, i: int|
        0 <= k < parts.len() && 0 <= i < parts[k].len() implies !white(#[trigger] parts[k][i]) by {
        lemma_decimal(counts[k] as nat);
        assert(48 <= decimal(counts[k] as nat)[i] as u32 <= 57);
    }
    lemma_joined_words(parts);
    lemma_spelled_numbers(counts);
}

} // verus!
