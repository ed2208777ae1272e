//! Markup: what every document begins with, where a tag ends, and what it is called.
use crate::text::{ascii_alnum, find_char, is_ascii_alnum, lemma_spot, lower_all, lowered, spot};
use vstd::prelude::*;
use vstd::slice::slice_subrange;

verus! {

/// What a document of the application begins with.
pub const DOCTYPE: &'static str = "<!DOCTYPE html>";

/// Does a document declare what it is? One that does not is reported by the
/// parser every time it is read.
pub open spec fn declared(html: Seq<char>) -> bool {
    html.len() >= DOCTYPE@.len() && html.take(DOCTYPE@.len() as int) == DOCTYPE@
}

/// `s` without the characters `c` at its head.
pub open spec fn without_lead(s: Seq<char>, c: char) -> Seq<char>
    decreases s.len(),
{
    if s.len() > 0 && s[0] == c {
        without_lead(s.drop_first(), c)
    } else {
        s
    }
}

/// The digits and unaccented letters that `s` begins with.
pub open spec fn alnum_head(s: Seq<char>) -> Seq<char>
    decreases s.len(),
{
    if s.len() > 0 && ascii_alnum(s[0]) {
        seq![s[0]] + alnum_head(s.drop_first())
    } else {
        seq![]
    }
}

/// Where the first `>` stands, from `i` on, that is no part of an attribute's value;
/// `quote` is what closes the value that `i` is inside.
pub open spec fn end_from(s: Seq<char>, i: int, quote: Option<char>) -> Option<int>
    decreases s.len() - i,
{
    if i < 0 || i >= s.len() {
        None
    } else {
        match quote {
            Some(q) => end_from(
                s,
                i + 1,
                if s[i] == q {
                    None
                } else {
                    quote
                },
            ),
            None => if s[i] == '>' {
                Some(i)
            } else if s[i] == '"' || s[i] == '\'' {
                end_from(s, i + 1, Some(s[i]))
            } else {
                end_from(s, i + 1, None)
            },
        }
    }
}

/// Where the tag ends that `s` begins with. An attribute's value may hold a `>`;
/// where a value never closes, the first one ends the tag.
pub open spec fn tag_end(s: Seq<char>) -> Option<int> {
    if s.len() > 1 && ascii_alnum(s[1]) && end_from(s, 0, None) is Some {
        end_from(s, 0, None)
    } else {
        spot(s, '>')
    }
}

proof fn lemma_end_from(s: Seq<char>, i: int, quote: Option<char>)
    ensures
        end_from(s, i, quote) matches Some(r) ==> 0 <= i <= r < s.len() && s[r] == '>',
    decreases s.len() - i,
{
    if 0 <= i < s.len() {
        lemma_end_from(s, i + 1, quote);
        lemma_end_from(s, i + 1, None);
        lemma_end_from(s, i + 1, Some(s[i]));
    }
}

pub proof fn lemma_tag_end(s: Seq<char>)
    ensures
        tag_end(s) matches Some(r) ==> 0 <= r < s.len() && s[r] == '>',
{
    lemma_end_from(s, 0, None);
    lemma_spot(s, '>');
}

/// A whole opening tag: it begins with its name, and ends where it closes.
pub open spec fn whole_tag(tag: Seq<char>) -> bool {
    &&& tag.len() > 1
    &&& tag[0] == '<'
    &&& ascii_alnum(tag[1])
    &&& end_from(tag, 0, None) == Some(tag.len() - 1)
}

proof fn lemma_end_kept(tag: Seq<char>, rest: Seq<char>, i: int, quote: Option<char>)
    requires
        end_from(tag, i, quote) is Some,
    ensures
        end_from(tag + rest, i, quote) == end_from(tag, i, quote),
    decreases tag.len() - i,
{
    let all = tag + rest;
    if 0 <= i < tag.len() {
        assert(all[i] == tag[i]);
        match quote {
            Some(q) => {
                lemma_end_kept(
                    tag,
                    rest,
                    i + 1,
                    if tag[i] == q {
                        None
                    } else {
                        quote
                    },
                );
            },
            None => {
                if tag[i] == '"' || tag[i] == '\'' {
                    lemma_end_kept(tag, rest, i + 1, Some(tag[i]));
                } else if tag[i] != '>' {
                    lemma_end_kept(tag, rest, i + 1, None);
                }
            },
        }
    }
}

/// A whole tag ends where it closes, whatever follows it.
pub proof fn lemma_whole_tag_end(tag: Seq<char>, rest: Seq<char>)
    requires
        whole_tag(tag),
    ensures
        tag_end(tag + rest) == Some(tag.len() - 1),
{
    lemma_end_kept(tag, rest, 0, None);
    assert((tag + rest)[1] == tag[1]);
}

/// Where the tag ends that `s` begins with.
pub fn find_tag_end(s: &[char]) -> (r: Option<usize>)
    ensures
        match r {
            Some(i) => tag_end(s@) == Some(i as int) && i < s.len(),
            None => tag_end(s@) is None,
        },
{
    proof {
        lemma_tag_end(s@);
    }
    if s.len() > 1 && is_ascii_alnum(s[1]) {
        let mut quote: Option<char> = None;
        let mut i: usize = 0;
        while i < s.len()
            invariant
                i <= s.len(),
                s.len() > 1,
                ascii_alnum(s@[1]),
                end_from(s@, 0, None) == end_from(s@, i as int, quote),
            decreases s.len() - i,
        {
            let c = s[i];
            match quote {
                Some(q) => {
                    if c == q {
                        quote = None;
                    }
                },
                None => {
                    if c == '>' {
                        return Some(i);
                    }
                    if c == '"' || c == '\'' {
                        quote = Some(c);
                    }
                },
            }
            i = i + 1;
        }
    }
    find_char(s, '>')
}

/// What a tag is called, in lower case; the slash of a closing tag is not part
/// of it.
pub open spec fn name_of_tag(tag: Seq<char>) -> Seq<char> {
    lowered(alnum_head(without_lead(without_lead(tag, '<'), '/')))
}

pub fn skip_lead<'a>(s: &'a [char], c: char) -> (r: &'a [char])
    ensures
        r@ == without_lead(s@, c),
{
    let mut n: usize = 0;
    assert(s@.skip(0) =~= s@);
    while n < s.len() && s[n] == c
        invariant
            n <= s.len(),
            without_lead(s@, c) == without_lead(s@.skip(n as int), c),
        decreases s.len() - n,
    {
        proof {
            assert(s@.skip(n as int).drop_first() =~= s@.skip(n + 1));
        }
        n = n + 1;
    }
    let r = slice_subrange(s, n, s.len());
    assert(r@ =~= s@.skip(n as int));
    r
}

/// What a tag is called, in lower case; nothing where it has no name.
pub fn tag_name(tag: &[char]) -> (r: Option<Vec<char>>)
    ensures
        match r {
            Some(name) => name@ == name_of_tag(tag@) && name@.len() > 0,
            None => name_of_tag(tag@).len() == 0,
        },
{
    let body = skip_lead(skip_lead(tag, '<'), '/');
    let mut n: usize = 0;
    proof {
        assert(body@.skip(0) =~= body@);
        assert(body@.take(0) + alnum_head(body@) =~= alnum_head(body@));
    }
    while n < body.len() && is_ascii_alnum(body[n])
        invariant
            n <= body.len(),
            alnum_head(body@) == body@.take(n as int) + alnum_head(body@.skip(n as int)),
        decreases body.len() - n,
    {
        proof {
            assert(body@.skip(n as int).drop_first() =~= body@.skip(n + 1));
            assert(body@.take(n as int) + alnum_head(body@.skip(n as int)) =~= body@.take(n + 1)
                + alnum_head(body@.skip(n + 1)));
        }
        n = n + 1;
    }
    let head = slice_subrange(body, 0, n);
    proof {
        assert(head@ =~= body@.take(n as int));
        assert(alnum_head(body@) =~= head@);
    }
    let name = lower_all(head);
    if name.len() == 0 {
        None
    } else {
        Some(name)
    }
}

} // verus!
