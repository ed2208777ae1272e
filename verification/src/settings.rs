//! The settings file: `key=value` lines.
//!
//! Writing one setting leaves the others alone.
use crate::style::{ReadingStyle, Theme};
use crate::text::{
    chars_of, decimal, equal, find_char, lemma_lines_free, lemma_lines_written, lemma_no_spot,
    lemma_spot, lemma_trim_carried, lemma_trim_kept, lines, lines_of, push_decimal, push_line, same,
    spot, string_of, trim, trimmed, uncarried, views, white, written,
};
use vstd::prelude::*;
use vstd::slice::slice_subrange;

verus! {

/// The key and the value of a line, if it has an equals sign.
pub open spec fn entry(line: Seq<char>) -> Option<(Seq<char>, Seq<char>)> {
    match spot(line, '=') {
        Some(i) => Some((trimmed(line.take(i)), trimmed(line.skip(i + 1)))),
        None => None,
    }
}

/// Does a line set `key`?
pub open spec fn sets(line: Seq<char>, key: Seq<char>) -> bool {
    entry(line) matches Some(e) && e.0 == key
}

/// What the first line that sets `key` sets it to.
pub open spec fn value_in(ls: Seq<Seq<char>>, key: Seq<char>) -> Option<Seq<char>>
    decreases ls.len(),
{
    if ls.len() == 0 {
        None
    } else if sets(ls[0], key) {
        Some((entry(ls[0])->0).1)
    } else {
        value_in(ls.drop_first(), key)
    }
}

/// The lines that do not set `key`.
pub open spec fn others(ls: Seq<Seq<char>>, key: Seq<char>) -> Seq<Seq<char>>
    decreases ls.len(),
{
    if ls.len() == 0 {
        seq![]
    } else if sets(ls[0], key) {
        others(ls.drop_first(), key)
    } else {
        seq![ls[0]] + others(ls.drop_first(), key)
    }
}

/// The line that sets `key` to `value`.
pub open spec fn setting_line(key: Seq<char>, value: Seq<char>) -> Seq<char> {
    key + seq!['='] + value
}

/// The settings after `key` was set to `value`: the lines of the others, then
/// its own.
pub open spec fn after_setting(text: Seq<char>, key: Seq<char>, value: Seq<char>) -> Seq<char> {
    written(others(lines(text), key).push(setting_line(key, value)))
}

/// What the settings say of `key`.
pub open spec fn value_of(text: Seq<char>, key: Seq<char>) -> Option<Seq<char>> {
    value_in(lines(text), key)
}

fn read_entry(line: &[char], key: &str) -> (r: Option<String>)
    ensures
        match r {
            Some(v) => sets(line@, key@) && v@ == (entry(line@)->0).1,
            None => !sets(line@, key@),
        },
{
    match find_char(line, '=') {
        Some(i) => {
            let k = slice_subrange(line, 0, i);
            let v = slice_subrange(line, i + 1, line.len());
            proof {
                assert(k@ =~= line@.take(i as int));
                assert(v@ =~= line@.skip(i + 1));
            }
            if same(trim(k), key) {
                Some(string_of(trim(v)))
            } else {
                None
            }
        },
        None => None,
    }
}

/// What the settings say of `key`.
pub fn setting(text: &str, key: &str) -> (r: Option<String>)
    ensures
        match r {
            Some(v) => value_of(text@, key@) == Some(v@),
            None => value_of(text@, key@) is None,
        },
{
    let chars = chars_of(text);
    let ls = lines_of(&chars);
    let ghost all = views(ls@);
    let mut i: usize = 0;
    assert(all.skip(0) =~= all);
    while i < ls.len()
        invariant
            i <= ls.len(),
            all == views(ls@),
            all == lines(text@),
            value_in(all, key@) == value_in(all.skip(i as int), key@),
        decreases ls.len() - i,
    {
        proof {
            assert(all.skip(i as int)[0] == ls@[i as int]@);
            assert(all.skip(i as int).drop_first() =~= all.skip(i + 1));
        }
        let got = read_entry(&ls[i], key);
        if got.is_some() {
            return got;
        }
        i = i + 1;
    }
    None
}

/// The settings after `key` was set to `value`.
pub fn set_setting(text: &str, key: &str, value: &str) -> (r: String)
    ensures
        r@ == after_setting(text@, key@, value@),
{
    let chars = chars_of(text);
    let ls = lines_of(&chars);
    let ghost all = views(ls@);
    let mut out = String::new();
    let mut i: usize = 0;
    let ghost own = setting_line(key@, value@);
    proof {
        assert(all.skip(0) =~= all);
        assert(out@ + after_setting(text@, key@, value@) =~= after_setting(text@, key@, value@));
    }
    while i < ls.len()
        invariant
            i <= ls.len(),
            all == views(ls@),
            own == setting_line(key@, value@),
            after_setting(text@, key@, value@) == out@ + written(
                others(all.skip(i as int), key@).push(own),
            ),
        decreases ls.len() - i,
    {
        let ghost rest = all.skip(i as int);
        let ghost tail = others(all.skip(i + 1), key@).push(own);
        proof {
            assert(rest[0] == ls@[i as int]@);
            assert(rest.drop_first() =~= all.skip(i + 1));
        }
        if read_entry(&ls[i], key).is_none() {
            let ghost before = out@;
            push_line(&mut out, &ls[i]);
            proof {
                let whole = others(rest, key@).push(own);
                assert(whole =~= seq![rest[0]] + tail);
                assert(whole[0] == rest[0]);
                assert(whole.drop_first() =~= tail);
                assert(before + written(whole) =~= out@ + written(tail));
            }
        }
        i = i + 1;
    }
    let mut line: Vec<char> = chars_of(key);
    line.push('=');
    let v = chars_of(value);
    let ghost head = line@;
    let mut k: usize = 0;
    while k < v.len()
        invariant
            k <= v.len(),
            line@ =~= head + v@.take(k as int),
        decreases v.len() - k,
    {
        line.push(v[k]);
        k = k + 1;
    }
    proof {
        assert(v@.take(k as int) =~= v@);
        assert(line@ =~= own);
        assert(others(all.skip(i as int), key@).push(own) =~= seq![own]);
        assert(seq![own].drop_first() =~= seq![]);
        assert(written(seq![own]) =~= own.push('\n')) by {
            reveal_with_fuel(written, 2);
        }
    }
    push_line(&mut out, &line);
    out
}

proof fn lemma_entry_carried(line: Seq<char>)
    ensures
        entry(uncarried(line)) == entry(line),
{
    if line.len() > 0 && line.last() == '\r' {
        let cut = line.drop_last();
        lemma_spot(line, '=');
        match spot(line, '=') {
            Some(i) => {
                assert(i < cut.len());
                crate::text::lemma_spot_is(cut, '=', i);
                assert(cut.take(i) =~= line.take(i));
                assert(line.skip(i + 1) =~= cut.skip(i + 1).push('\r'));
                lemma_trim_carried(cut.skip(i + 1));
            },
            None => {
                lemma_no_spot(cut, '=');
            },
        }
    }
}

proof fn lemma_others(ls: Seq<Seq<char>>, key: Seq<char>, other: Seq<char>, own: Seq<char>)
    requires
        sets(own, key),
        forall|k: int| 0 <= k < ls.len() ==> spot(#[trigger] ls[k], '\n') is None,
    ensures
        ({
            let kept = others(ls, key).push(own).map_values(|l: Seq<char>| uncarried(l));
            &&& value_in(kept, key) == Some((entry(own)->0).1)
            &&& other != key ==> value_in(kept, other) == value_in(ls, other)
            &&& forall|k: int| 0 <= k < others(ls, key).len() ==> spot(#[trigger] others(ls, key)[k], '\n') is None
        }),
    decreases ls.len(),
{
    let strip = |l: Seq<char>| uncarried(l);
    let kept = others(ls, key).push(own).map_values(strip);
    if ls.len() == 0 {
        assert(kept =~= seq![uncarried(own)]);
        lemma_entry_carried(own);
        assert(kept.drop_first() =~= seq![]);
        reveal_with_fuel(value_in, 2);
    } else {
        let rest = ls.drop_first();
        assert(spot(ls[0], '\n') is None);
        assert forall|k: int| 0 <= k < rest.len() implies spot(#[trigger] rest[k], '\n') is None by {
            assert(spot(ls[k + 1], '\n') is None);
        }
        lemma_others(rest, key, other, own);
        if sets(ls[0], key) {
        } else {
            lemma_entry_carried(ls[0]);
            let below = others(rest, key).push(own).map_values(strip);
            assert(kept[0] == uncarried(ls[0]));
            assert(kept.drop_first() =~= below);
            assert forall|k: int| 0 <= k < others(ls, key).len() implies spot(#[trigger] others(ls, key)[k], '\n') is None by {
                if k > 0 {
                    assert(others(ls, key)[k] == others(rest, key)[k - 1]);
                }
            }
        }
    }
}

/// A key or a value as it can stand on a line: without line feeds, and with no
/// white space around it.
pub open spec fn plain(s: Seq<char>) -> bool {
    &&& spot(s, '\n') is None
    &&& s.len() == 0 || (!white(s[0]) && !white(s.last()))
}

/// A setting reads back as it was written, and writing it changes no other.
pub proof fn law_writing_a_setting_leaves_the_others_alone(
    text: Seq<char>,
    key: Seq<char>,
    value: Seq<char>,
    other: Seq<char>,
)
    requires
        plain(key),
        plain(value),
        spot(key, '=') is None,
    ensures
        value_of(after_setting(text, key, value), key) == Some(value),
        other != key ==> value_of(after_setting(text, key, value), other) == value_of(text, other),
{
    let own = setting_line(key, value);
    lemma_spot(key, '=');
    assert(own =~= key.push('=') + value);
    crate::text::lemma_split_first(key, '=', value);
    assert(own.take(key.len() as int) =~= key);
    assert(own.skip(key.len() as int + 1) =~= value);
    lemma_trim_kept(key);
    lemma_trim_kept(value);
    lemma_lines_free(text);
    lemma_others(lines(text), key, other, own);
    let ls = others(lines(text), key).push(own);
    lemma_spot(key, '\n');
    lemma_spot(value, '\n');
    assert forall|i: int| 0 <= i < own.len() implies own[i] != '\n' by {
        if i > key.len() {
            assert(own[i] == value[i - key.len() - 1]);
        }
    }
    lemma_no_spot(own, '\n');
    assert forall|k: int| 0 <= k < ls.len() implies spot(#[trigger] ls[k], '\n') is None by {
        if k < ls.len() - 1 {
            assert(ls[k] == others(lines(text), key)[k]);
        }
    }
    lemma_lines_written(ls);
}

/// The theme that a setting names, if it names one.
pub open spec fn theme_set(value: Seq<char>) -> Theme {
    if value == "white"@ {
        Theme::White
    } else if value == "grey"@ {
        Theme::Grey
    } else if value == "night"@ {
        Theme::Night
    } else {
        Theme::Sepia
    }
}

/// The theme and the letter size that the settings ask for.
pub open spec fn style_set(theme: Option<&str>, scale: Option<i64>) -> (Theme, i64) {
    (
        match theme {
            Some(t) => theme_set(t@),
            None => Theme::Sepia,
        },
        match scale {
            Some(n) => n,
            None => 1000,
        },
    )
}

/// The reading style the settings ask for: `scale` is the letter size, in
/// thousandths, where one is set.
pub fn saved_style(theme: Option<&str>, scale: Option<i64>) -> (r: ReadingStyle)
    ensures
        (r.theme, r.scale) == style_set(theme, scale),
{
    let theme = match theme {
        Some(t) => if equal(t, "white") {
            Theme::White
        } else if equal(t, "grey") {
            Theme::Grey
        } else if equal(t, "night") {
            Theme::Night
        } else {
            Theme::Sepia
        },
        None => Theme::Sepia,
    };
    let scale: i64 = match scale {
        Some(n) => n,
        None => 1000,
    };
    ReadingStyle { theme, scale }
}

/// A theme that was set is the theme that is read back.
pub proof fn law_themes_are_read_back(theme: Theme)
    ensures
        theme_set(theme.word()) == theme,
{
    reveal_strlit("white");
    reveal_strlit("sepia");
    reveal_strlit("grey");
    reveal_strlit("night");
    assert("sepia"@[0] == 's');
    assert("white"@[0] == 'w');
    assert("grey"@[0] == 'g');
    assert("night"@[0] == 'n');
}

/// A letter size as it is set: a factor with two decimals.
pub open spec fn scale_text(scale: nat) -> Seq<char> {
    let h = (scale + 5) / 10;
    decimal((h / 100) as nat) + "."@ + decimal((h / 10 % 10) as nat) + decimal((h % 10) as nat)
}

pub fn scale_setting(scale: u64) -> (r: String)
    requires
        scale <= 1_000_000,
    ensures
        r@ == scale_text(scale as nat),
{
    let h: u64 = (scale + 5) / 10;
    let mut out = String::new();
    push_decimal(&mut out, h / 100);
    proof {
        assert(Seq::<char>::empty() + decimal((h / 100) as nat) =~= decimal((h / 100) as nat));
    }
    out.append(".");
    push_decimal(&mut out, h / 10 % 10);
    push_decimal(&mut out, h % 10);
    out
}

} // verus!
