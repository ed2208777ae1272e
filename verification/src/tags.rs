//! Tags in use, as completions of what is typed.
use crate::library::texts;
use crate::marks::{fold_tag, plural_text, tag_suggestion, tag_text};
use crate::text::{begins, chars_of, decimal, same_chars, stands_at, string_of, views};
use vstd::prelude::*;

verus! {

/// Does `a` come before `b` by the numbers of their characters?
pub open spec fn text_before(a: Seq<char>, b: Seq<char>) -> bool
    decreases a.len(),
{
    if b.len() == 0 {
        false
    } else if a.len() == 0 {
        true
    } else if a[0] == b[0] {
        text_before(a.drop_first(), b.drop_first())
    } else {
        (a[0] as u32) < (b[0] as u32)
    }
}

fn is_before(a: &[char], b: &[char]) -> (r: bool)
    ensures
        r == text_before(a@, b@),
{
    let mut i: usize = 0;
    proof {
        assert(a@.skip(0) =~= a@);
        assert(b@.skip(0) =~= b@);
    }
    while i < a.len() && i < b.len() && a[i] == b[i]
        invariant
            i <= a.len(),
            i <= b.len(),
            text_before(a@, b@) == text_before(a@.skip(i as int), b@.skip(i as int)),
        decreases a.len() - i,
    {
        proof {
            assert(a@.skip(i as int).drop_first() =~= a@.skip(i + 1));
            assert(b@.skip(i as int).drop_first() =~= b@.skip(i + 1));
        }
        i = i + 1;
    }
    if i >= b.len() {
        false
    } else if i >= a.len() {
        true
    } else {
        (a[i] as u32) < (b[i] as u32)
    }
}

/// How often `tag` is among some tags.
pub open spec fn times(tags: Seq<Seq<char>>, tag: Seq<char>) -> nat
    decreases tags.len(),
{
    if tags.len() == 0 {
        0
    } else {
        times(tags.drop_last(), tag) + if tags.last() == tag {
            1nat
        } else {
            0
        }
    }
}

/// The tags that begin with `prefix`, each once, in the order they are met.
pub open spec fn in_use(tags: Seq<Seq<char>>, prefix: Seq<char>) -> Seq<Seq<char>>
    decreases tags.len(),
{
    if tags.len() == 0 {
        seq![]
    } else {
        let before = in_use(tags.drop_last(), prefix);
        if stands_at(tags.last(), prefix, 0) && !before.contains(tags.last()) {
            before.push(tags.last())
        } else {
            before
        }
    }
}

/// The tags in use that begin with `prefix`, and how many books have each.
pub open spec fn counted(tags: Seq<Seq<char>>, prefix: Seq<char>) -> Seq<(Seq<char>, nat)> {
    let names = in_use(tags, prefix);
    Seq::new(names.len(), |i: int| (names[i], times(tags, names[i])))
}

/// Is `a` offered ahead of `b`? The one that more books have is; of two that as
/// many have, the one that comes first as a text.
pub open spec fn ahead(a: (Seq<char>, nat), b: (Seq<char>, nat)) -> bool {
    a.1 > b.1 || (a.1 == b.1 && text_before(a.0, b.0))
}

/// `s` with `x` put behind everything that is not offered behind it.
pub open spec fn put(s: Seq<(Seq<char>, nat)>, x: (Seq<char>, nat)) -> Seq<(Seq<char>, nat)>
    decreases s.len(),
{
    if s.len() > 0 && ahead(x, s.last()) {
        put(s.drop_last(), x).push(s.last())
    } else {
        s.push(x)
    }
}

/// Counted tags in the order they are offered in.
pub open spec fn ranked(s: Seq<(Seq<char>, nat)>) -> Seq<(Seq<char>, nat)>
    decreases s.len(),
{
    if s.len() == 0 {
        s
    } else {
        put(ranked(s.drop_last()), s.last())
    }
}

/// The counted tags of a list.
pub open spec fn tag_views(s: Seq<(Vec<char>, usize)>) -> Seq<(Seq<char>, nat)> {
    Seq::new(s.len(), |i: int| (s[i].0@, s[i].1 as nat))
}

fn count(tags: &Vec<String>, tag: &[char]) -> (n: usize)
    ensures
        n == times(texts(tags@), tag@),
{
    let ghost all = texts(tags@);
    let mut n: usize = 0;
    let mut i: usize = 0;
    assert(all.take(0) =~= seq![]);
    while i < tags.len()
        invariant
            i <= tags.len(),
            all == texts(tags@),
            n <= i,
            n == times(all.take(i as int), tag@),
        decreases tags.len() - i,
    {
        proof {
            assert(all.take(i + 1).drop_last() =~= all.take(i as int));
            assert(all.take(i + 1).last() == tags@[i as int]@);
        }
        if same_chars(&chars_of(tags[i].as_str()), tag) {
            n = n + 1;
        }
        i = i + 1;
    }
    assert(all.take(i as int) =~= all);
    n
}

fn is_among(names: &Vec<Vec<char>>, name: &[char]) -> (r: bool)
    ensures
        r == views(names@).contains(name@),
{
    let ghost all = views(names@);
    let mut i: usize = 0;
    while i < names.len()
        invariant
            i <= names.len(),
            all == views(names@),
            forall|k: int| 0 <= k < i ==> all[k] != name@,
        decreases names.len() - i,
    {
        if same_chars(&names[i], name) {
            assert(all[i as int] == name@);
            return true;
        }
        i = i + 1;
    }
    false
}

fn names_in_use(tags: &Vec<String>, prefix: &str) -> (r: Vec<Vec<char>>)
    ensures
        views(r@) == in_use(texts(tags@), prefix@),
{
    let ghost all = texts(tags@);
    let mut names: Vec<Vec<char>> = Vec::new();
    let mut i: usize = 0;
    assert(all.take(0) =~= seq![]);
    assert(views(names@) =~= seq![]);
    while i < tags.len()
        invariant
            i <= tags.len(),
            all == texts(tags@),
            views(names@) == in_use(all.take(i as int), prefix@),
        decreases tags.len() - i,
    {
        let ghost before = views(names@);
        proof {
            assert(all.take(i + 1).drop_last() =~= all.take(i as int));
            assert(all.take(i + 1).last() == tags@[i as int]@);
        }
        let tag = chars_of(tags[i].as_str());
        if begins(&tag, prefix) && !is_among(&names, &tag) {
            let ghost t = tag@;
            names.push(tag);
            assert(views(names@) =~= before.push(t));
        }
        i = i + 1;
    }
    assert(all.take(i as int) =~= all);
    names
}

proof fn lemma_put(s: Seq<(Seq<char>, nat)>, x: (Seq<char>, nat), p: int)
    requires
        0 <= p <= s.len(),
        forall|k: int| p <= k < s.len() ==> ahead(x, #[trigger] s[k]),
        p > 0 ==> !ahead(x, s[p - 1]),
    ensures
        put(s, x) == s.take(p).push(x) + s.skip(p),
    decreases s.len(),
{
    if p == s.len() {
        assert(s.take(p) =~= s);
        assert(put(s, x) =~= s.take(p).push(x) + s.skip(p));
    } else {
        assert(ahead(x, s.last()));
        let front = s.drop_last();
        assert forall|k: int| p <= k < front.len() implies ahead(x, #[trigger] front[k]) by {
            assert(ahead(x, s[k]));
        }
        lemma_put(front, x, p);
        assert(front.take(p) =~= s.take(p));
        assert(put(s, x) =~= s.take(p).push(x) + s.skip(p));
    }
}

fn put_in(list: &mut Vec<(Vec<char>, usize)>, name: Vec<char>, n: usize)
    ensures
        tag_views(final(list)@) == put(tag_views(old(list)@), (name@, n as nat)),
{
    let ghost s = tag_views(list@);
    let ghost x = (name@, n as nat);
    let mut p: usize = list.len();
    while p > 0 && (n > list[p - 1].1 || (n == list[p - 1].1 && is_before(&name, &list[p - 1].0)))
        invariant
            p <= list.len(),
            s == tag_views(list@),
            x == (name@, n as nat),
            forall|k: int| p <= k < s.len() ==> ahead(x, #[trigger] s[k]),
        decreases p,
    {
        assert(s[p - 1] == (list@[p - 1].0@, list@[p - 1].1 as nat));
        p = p - 1;
    }
    proof {
        if p > 0 {
            assert(s[p - 1] == (list@[p - 1].0@, list@[p - 1].1 as nat));
        }
        lemma_put(s, x, p as int);
    }
    list.insert(p, (name, n));
    assert(tag_views(list@) =~= s.take(p as int).push(x) + s.skip(p as int));
}

/// A counted tag as a completion: the tag behind a hash, and how many books have
/// it.
pub open spec fn completion(x: (Seq<char>, nat)) -> (Seq<char>, Seq<char>) {
    ("#"@ + x.0, decimal(x.1) + " book"@ + plural_text(x.1))
}

/// Tags in use that begin with what was typed, with their book counts; `tags` holds
/// each tag once for each book that has it. The most used come first.
pub fn all_tags(tags: &Vec<String>, typed: &str) -> (r: Vec<(String, String)>)
    ensures
        ({
            let offered = ranked(counted(texts(tags@), tag_text(typed@)));
            &&& r@.len() == offered.len()
            &&& forall|i: int|
                0 <= i < r@.len() ==> ((#[trigger] r@[i]).0@, r@[i].1@) == completion(offered[i])
        }),
{
    let prefix = fold_tag(typed);
    let names = names_in_use(tags, prefix.as_str());
    let ghost all = counted(texts(tags@), prefix@);
    let mut list: Vec<(Vec<char>, usize)> = Vec::new();
    let mut i: usize = 0;
    assert(views(names@).len() == names@.len());
    assert(all.take(0) =~= seq![]);
    assert(tag_views(list@) =~= seq![]);
    while i < names.len()
        invariant
            i <= names.len(),
            all == counted(texts(tags@), prefix@),
            all.len() == names@.len(),
            views(names@) == in_use(texts(tags@), prefix@),
            tag_views(list@) == ranked(all.take(i as int)),
        decreases names.len() - i,
    {
        let n: usize = count(tags, &names[i]);
        let name = vstd::slice::slice_to_vec(names[i].as_slice());
        proof {
            assert(views(names@)[i as int] == names@[i as int]@);
            assert(all.take(i + 1).drop_last() =~= all.take(i as int));
            assert(all.take(i + 1).last() == (name@, n as nat));
        }
        put_in(&mut list, name, n);
        i = i + 1;
    }
    assert(all.take(i as int) =~= all);
    let ghost offered = tag_views(list@);
    let mut out: Vec<(String, String)> = Vec::new();
    let mut k: usize = 0;
    while k < list.len()
        invariant
            k <= list.len(),
            offered == tag_views(list@),
            out@.len() == k,
            forall|j: int| 0 <= j < k ==> ((#[trigger] out@[j]).0@, out@[j].1@) == completion(offered[j]),
        decreases list.len() - k,
    {
        let name = string_of(&list[k].0);
        let said = tag_suggestion(name.as_str(), list[k].1);
        assert((said.0@, said.1@) == completion(offered[k as int]));
        out.push(said);
        k = k + 1;
    }
    out
}

proof fn lemma_chars_differ(x: char, y: char)
    requires
        x != y,
    ensures
        x as u32 != y as u32,
{
}

proof fn lemma_text_order(a: Seq<char>, b: Seq<char>, c: Seq<char>)
    ensures
        text_before(a, b) && text_before(b, c) ==> text_before(a, c),
        !(text_before(a, b) && text_before(b, a)),
        a != b ==> text_before(a, b) || text_before(b, a),
    decreases a.len(),
{
    if a.len() > 0 && b.len() > 0 && a[0] == b[0] {
        let (ra, rb) = (a.drop_first(), b.drop_first());
        if c.len() > 0 {
            lemma_text_order(ra, rb, c.drop_first());
        } else {
            lemma_text_order(ra, rb, c);
        }
        if ra == rb {
            assert(a =~= seq![a[0]] + ra);
            assert(b =~= seq![b[0]] + rb);
        }
    } else if a.len() > 0 && b.len() > 0 {
        lemma_chars_differ(a[0], b[0]);
    }
    if a.len() == 0 && b.len() == 0 {
        assert(a =~= b);
    }
}

proof fn lemma_ahead(a: (Seq<char>, nat), b: (Seq<char>, nat), c: (Seq<char>, nat))
    ensures
        ahead(a, b) && ahead(b, c) ==> ahead(a, c),
        !(ahead(a, b) && ahead(b, a)),
        ahead(a, b) && !ahead(c, b) ==> ahead(a, c),
{
    lemma_text_order(a.0, b.0, c.0);
    lemma_text_order(b.0, c.0, a.0);
}

/// Nothing is offered behind something that belongs behind it.
pub open spec fn well_ranked(s: Seq<(Seq<char>, nat)>) -> bool {
    forall|i: int, j: int| 0 <= i < j < s.len() ==> !ahead(#[trigger] s[j], #[trigger] s[i])
}

proof fn lemma_put_keeps_order(s: Seq<(Seq<char>, nat)>, x: (Seq<char>, nat))
    requires
        well_ranked(s),
    ensures
        well_ranked(put(s, x)),
        put(s, x).len() == s.len() + 1,
        forall|e: (Seq<char>, nat)| #[trigger] put(s, x).contains(e) <==> s.contains(e) || e == x,
    decreases s.len(),
{
    let all = put(s, x);
    if s.len() > 0 && ahead(x, s.last()) {
        let front = s.drop_last();
        let last = s.last();
        lemma_put_keeps_order(front, x);
        let placed = put(front, x);
        assert forall|i: int, j: int| 0 <= i < j < all.len() implies !ahead(
            #[trigger] all[j],
            #[trigger] all[i],
        ) by {
            if j == placed.len() {
                assert(placed.contains(placed[i]));
                lemma_ahead(x, last, x);
                if placed[i] != x {
                    assert(front.contains(placed[i]));
                    let k = choose|k: int| 0 <= k < front.len() && front[k] == placed[i];
                    assert(!ahead(s[s.len() - 1], s[k]));
                }
            } else {
                assert(!ahead(placed[j], placed[i]));
            }
        }
        assert forall|e: (Seq<char>, nat)| #[trigger] all.contains(e) <==> s.contains(e) || e == x by {
            if all.contains(e) {
                let k = choose|k: int| 0 <= k < all.len() && all[k] == e;
                if k < placed.len() {
                    assert(placed.contains(e));
                    if e != x {
                        let m = choose|m: int| 0 <= m < front.len() && front[m] == e;
                        assert(s[m] == e);
                    }
                } else {
                    assert(s[s.len() - 1] == e);
                }
            }
            if s.contains(e) || e == x {
                if e == last {
                    assert(all[placed.len() as int] == e);
                } else {
                    if e != x {
                        let m = choose|m: int| 0 <= m < s.len() && s[m] == e;
                        assert(front[m] == e);
                    }
                    assert(placed.contains(e));
                    let k = choose|k: int| 0 <= k < placed.len() && placed[k] == e;
                    assert(all[k] == e);
                }
            }
        }
    } else {
        assert forall|i: int, j: int| 0 <= i < j < all.len() implies !ahead(
            #[trigger] all[j],
            #[trigger] all[i],
        ) by {
            if j == s.len() {
                lemma_ahead(x, s[i], s.last());
                if i < s.len() - 1 {
                    assert(!ahead(s[s.len() - 1], s[i]));
                }
            } else {
                assert(!ahead(s[j], s[i]));
            }
        }
        assert forall|e: (Seq<char>, nat)| #[trigger] all.contains(e) <==> s.contains(e) || e == x by {
            if s.contains(e) {
                let m = choose|m: int| 0 <= m < s.len() && s[m] == e;
                assert(all[m] == e);
            }
            assert(all[s.len() as int] == x);
        }
    }
}

/// Ranking keeps what is ranked, and offers nothing behind something that belongs
/// behind it.
pub proof fn law_tags_are_offered_by_use(s: Seq<(Seq<char>, nat)>)
    ensures
        well_ranked(ranked(s)),
        ranked(s).len() == s.len(),
        forall|e: (Seq<char>, nat)| #[trigger] ranked(s).contains(e) <==> s.contains(e),
    decreases s.len(),
{
    if s.len() > 0 {
        let front = s.drop_last();
        law_tags_are_offered_by_use(front);
        lemma_put_keeps_order(ranked(front), s.last());
        assert forall|e: (Seq<char>, nat)| #[trigger] ranked(s).contains(e) <==> s.contains(e) by {
            if s.contains(e) && e != s.last() {
                let m = choose|m: int| 0 <= m < s.len() && s[m] == e;
                assert(front[m] == e);
            }
            if front.contains(e) {
                let m = choose|m: int| 0 <= m < front.len() && front[m] == e;
                assert(s[m] == e);
            }
            assert(s[s.len() - 1] == s.last());
        }
    }
}

/// A tag is offered once, if it is in use and begins with what was typed.
pub proof fn law_each_tag_is_offered_once(tags: Seq<Seq<char>>, prefix: Seq<char>, tag: Seq<char>)
    ensures
        in_use(tags, prefix).no_duplicates(),
        in_use(tags, prefix).contains(tag) <==> tags.contains(tag) && stands_at(tag, prefix, 0),
    decreases tags.len(),
{
    if tags.len() > 0 {
        let front = tags.drop_last();
        let before = in_use(front, prefix);
        law_each_tag_is_offered_once(front, prefix, tag);
        law_each_tag_is_offered_once(front, prefix, tags.last());
        if tags.contains(tag) && tag != tags.last() {
            let m = choose|m: int| 0 <= m < tags.len() && tags[m] == tag;
            assert(front[m] == tag);
        }
        if front.contains(tag) {
            let m = choose|m: int| 0 <= m < front.len() && front[m] == tag;
            assert(tags[m] == tag);
        }
        assert(tags[tags.len() - 1] == tags.last());
        let all = in_use(tags, prefix);
        if all.len() > before.len() {
            assert(all[before.len() as int] == tags.last());
            if before.contains(tag) {
                let m = choose|m: int| 0 <= m < before.len() && before[m] == tag;
                assert(all[m] == tag);
            }
            if all.contains(tag) && tag != tags.last() {
                let m = choose|m: int| 0 <= m < all.len() && all[m] == tag;
                assert(before[m] == tag);
            }
        }
    }
}

} // verus!
