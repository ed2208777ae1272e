//! Watched folders, names and covers.
//!
//! Watched folders are read-only: a file there is never renamed or moved.
//! Opening a book copies it into the managed library under a canonical name.
use crate::book::{catalogue_title, named, worded};
use crate::db::{join_path, path_in, BookRow};
use crate::text::{
    begins, bytes_len, chars_of, control, is_control, join, joined, lemma_bytes_head,
    lemma_lines_written, lemma_no_spot, lemma_trim_kept, lines, lines_of, lower_all, lowered, owned,
    push_line, same, split, split_on, spot, stands_at, string_of, trim, trimmed, uncarried, views,
    white, within_bytes, words, words_from, words_of, written,
};
use vstd::prelude::*;
use vstd::slice::slice_subrange;

verus! {

/// What stands at the top of the folder list.
pub const HEADER: &'static str = "# Folders Omaread scans. One path per line.\n# These are read-only: Omaread never renames or moves files here.\n";

/// Folders scanned at startup are listed here, one path per line.
/// `config_home` and `home` are what the environment says.
pub fn folders_file(config_home: Option<&str>, home: Option<&str>) -> (r: String)
    ensures
        r@ == path_in(crate::db::user_dir(config_home, home, ".config"@), "omaread/folders.txt"@),
{
    let base = crate::db::find_user_dir(config_home, home, ".config");
    join_path(base.as_str(), "omaread/folders.txt")
}

/// The strings' characters.
pub open spec fn texts(v: Seq<String>) -> Seq<Seq<char>> {
    v.map_values(|s: String| s@)
}

/// The folder list as it is written: the header, then one path per line.
pub open spec fn folders_written(dirs: Seq<Seq<char>>) -> Seq<char> {
    HEADER@ + written(dirs)
}

/// The folder list as it is written.
pub fn folders_text(dirs: &Vec<String>) -> (r: String)
    ensures
        r@ == folders_written(texts(dirs@)),
{
    let ghost all = texts(dirs@);
    let mut out = owned(HEADER);
    let mut i: usize = 0;
    assert(all.skip(0) =~= all);
    while i < dirs.len()
        invariant
            i <= dirs.len(),
            all == texts(dirs@),
            folders_written(all) == out@ + written(all.skip(i as int)),
        decreases dirs.len() - i,
    {
        let ghost before = out@;
        let chars = chars_of(dirs[i].as_str());
        push_line(&mut out, &chars);
        proof {
            assert(all.skip(i as int)[0] == dirs@[i as int]@);
            assert(all.skip(i as int).drop_first() =~= all.skip(i + 1));
            assert(before + written(all.skip(i as int)) =~= out@ + written(all.skip(i + 1)));
        }
        i = i + 1;
    }
    assert(out@ + written(all.skip(i as int)) =~= out@);
    out
}

/// A path with a leading `~/` put under the home directory.
pub open spec fn at_home(s: Seq<char>, home: Option<&str>) -> Seq<char> {
    if stands_at(s, "~/"@, 0) {
        match home {
            Some(h) => path_in(h@, s.skip("~/"@.len() as int)),
            None => s,
        }
    } else {
        s
    }
}

/// A path with a leading `~/` put under the home directory.
pub fn expand_home(s: &str, home: Option<&str>) -> (r: String)
    ensures
        r@ == at_home(s@, home),
{
    let chars = chars_of(s);
    if begins(&chars, "~/") {
        match home {
            Some(h) => {
                let n: usize = chars_of("~/").len();
                let rest = slice_subrange(chars.as_slice(), n, chars.len());
                assert(rest@ =~= s@.skip("~/"@.len() as int));
                let tail = string_of(rest);
                join_path(h, tail.as_str())
            },
            None => owned(s),
        }
    } else {
        owned(s)
    }
}

/// Does a line of the folder list name a folder? Blank lines and those behind a
/// hash do not.
pub open spec fn names_folder(line: Seq<char>) -> bool {
    trimmed(line).len() > 0 && trimmed(line)[0] != '#'
}

/// The folders that the lines of a list name.
pub open spec fn folders_named(ls: Seq<Seq<char>>, home: Option<&str>) -> Seq<Seq<char>>
    decreases ls.len(),
{
    if ls.len() == 0 {
        seq![]
    } else {
        let before = folders_named(ls.drop_last(), home);
        if names_folder(ls.last()) {
            before.push(at_home(trimmed(ls.last()), home))
        } else {
            before
        }
    }
}

/// The watched folders that a list names.
pub fn folders(text: &str, home: Option<&str>) -> (r: Vec<String>)
    ensures
        texts(r@) == folders_named(lines(text@), home),
{
    let chars = chars_of(text);
    let ls = lines_of(&chars);
    let ghost all = views(ls@);
    let mut out: Vec<String> = Vec::new();
    let mut i: usize = 0;
    assert(all.take(0) =~= seq![]);
    assert(texts(out@) =~= seq![]);
    while i < ls.len()
        invariant
            i <= ls.len(),
            all == views(ls@),
            texts(out@) == folders_named(all.take(i as int), home),
        decreases ls.len() - i,
    {
        let ghost before = texts(out@);
        proof {
            assert(all.take(i + 1).drop_last() =~= all.take(i as int));
            assert(all.take(i + 1).last() == ls@[i as int]@);
        }
        let line = trim(&ls[i]);
        if line.len() > 0 && line[0] != '#' {
            let named = string_of(line);
            let path = expand_home(named.as_str(), home);
            let ghost p = path@;
            out.push(path);
            assert(texts(out@) =~= before.push(p));
        }
        i = i + 1;
    }
    assert(all.take(i as int) =~= all);
    out
}

/// The obvious folders to start with: those of the home directory that hold
/// books for most people.
pub fn seed_folders(home: Option<&str>) -> (r: Vec<String>)
    ensures
        texts(r@) == match home {
            Some(h) => seq![path_in(h@, "Documents"@), path_in(h@, "Downloads"@)],
            None => seq![],
        },
{
    let mut out: Vec<String> = Vec::new();
    if let Some(h) = home {
        out.push(join_path(h, "Documents"));
        out.push(join_path(h, "Downloads"));
        assert(texts(out@) =~= seq![path_in(h@, "Documents"@), path_in(h@, "Downloads"@)]);
    } else {
        assert(texts(out@) =~= seq![]);
    }
    out
}

/// A path that can stand in the folder list: something, without white space
/// around it, on one line, and neither a comment nor relative to home.
pub open spec fn listable(dir: Seq<char>) -> bool {
    &&& dir.len() > 0
    &&& !white(dir[0]) && !white(dir.last())
    &&& dir[0] != '#'
    &&& spot(dir, '\n') is None
    &&& !stands_at(dir, "~/"@, 0)
}

proof fn lemma_named(dirs: Seq<Seq<char>>, home: Option<&str>)
    requires
        forall|k: int| 0 <= k < dirs.len() ==> listable(#[trigger] dirs[k]),
    ensures
        folders_named(dirs, home) == dirs,
    decreases dirs.len(),
{
    if dirs.len() > 0 {
        let front = dirs.drop_last();
        assert forall|k: int| 0 <= k < front.len() implies listable(#[trigger] front[k]) by {
            assert(listable(dirs[k]));
        }
        lemma_named(front, home);
        assert(listable(dirs[dirs.len() - 1]));
        lemma_trim_kept(dirs.last());
        assert(front.push(dirs.last()) =~= dirs);
    } else {
        assert(dirs =~= seq![]);
    }
}

proof fn lemma_named_concat(a: Seq<Seq<char>>, b: Seq<Seq<char>>, home: Option<&str>)
    ensures
        folders_named(a + b, home) == folders_named(a, home) + folders_named(b, home),
    decreases b.len(),
{
    if b.len() == 0 {
        assert(a + b =~= a);
        assert(folders_named(a, home) + folders_named(b, home) =~= folders_named(a, home));
    } else {
        lemma_named_concat(a, b.drop_last(), home);
        assert((a + b).drop_last() =~= a + b.drop_last());
        assert(folders_named(a + b, home) =~= folders_named(a, home) + folders_named(b, home));
    }
}

/// A folder list reads back as it was written.
pub proof fn law_folder_lists_round_trip(dirs: Seq<Seq<char>>, home: Option<&str>)
    requires
        forall|k: int| 0 <= k < dirs.len() ==> listable(#[trigger] dirs[k]),
    ensures
        folders_named(lines(folders_written(dirs)), home) == dirs,
{
    reveal_strlit("# Folders Omaread scans. One path per line.\n# These are read-only: Omaread never renames or moves files here.\n");
    reveal_strlit("# Folders Omaread scans. One path per line.");
    reveal_strlit("# These are read-only: Omaread never renames or moves files here.");
    let one = "# Folders Omaread scans. One path per line."@;
    let two = "# These are read-only: Omaread never renames or moves files here."@;
    let head = seq![one, two];
    let all = head + dirs;
    assert(head.drop_first() =~= seq![two]);
    assert(seq![two].drop_first() =~= seq![]);
    assert(written(head) =~= HEADER@) by {
        reveal_with_fuel(written, 3);
        assert(HEADER@.len() == one.len() + two.len() + 2);
        assert(one.push('\n') + (two.push('\n') + seq![]) =~= HEADER@);
    }
    lemma_written_concat(head, dirs);
    assert(folders_written(dirs) == written(all));
    assert forall|i: int| 0 <= i < one.len() implies one[i] != '\n' by {}
    assert forall|i: int| 0 <= i < two.len() implies two[i] != '\n' by {}
    lemma_no_spot(one, '\n');
    lemma_no_spot(two, '\n');
    assert forall|k: int| 0 <= k < all.len() implies spot(#[trigger] all[k], '\n') is None by {
        if k >= 2 {
            assert(listable(dirs[k - 2]));
        }
    }
    lemma_lines_written(all);
    let strip = |l: Seq<char>| uncarried(l);
    assert forall|k: int| 0 <= k < all.len() implies uncarried(#[trigger] all[k]) == all[k] by {
        if k >= 2 {
            assert(listable(dirs[k - 2]));
        }
    }
    assert(all.map_values(strip) =~= all);
    lemma_named_concat(head, dirs, home);
    lemma_named(dirs, home);
    lemma_trim_kept(one);
    lemma_trim_kept(two);
    assert(folders_named(head, home) =~= seq![]) by {
        reveal_with_fuel(folders_named, 3);
        assert(head.drop_last() =~= seq![one]);
        assert(seq![one].drop_last() =~= seq![]);
    }
    assert(seq![] + dirs =~= dirs);
}

proof fn lemma_written_concat(a: Seq<Seq<char>>, b: Seq<Seq<char>>)
    ensures
        written(a + b) == written(a) + written(b),
    decreases a.len(),
{
    if a.len() == 0 {
        assert(a + b =~= b);
        assert(written(a) + written(b) =~= written(b));
    } else {
        lemma_written_concat(a.drop_first(), b);
        assert((a + b).drop_first() =~= a.drop_first() + b);
        assert(written(a + b) =~= written(a) + written(b));
    }
}

/// The segments of a path: empty ones do not count, nor does a `.` that is not its
/// first.
pub open spec fn path_segments(pieces: Seq<Seq<char>>) -> Seq<Seq<char>>
    decreases pieces.len(),
{
    if pieces.len() == 0 {
        seq![]
    } else if pieces.last().len() == 0 || (pieces.len() > 1 && pieces.last() == "."@) {
        path_segments(pieces.drop_last())
    } else {
        path_segments(pieces.drop_last()).push(pieces.last())
    }
}

/// The last segment of a path, if it names a file.
pub open spec fn file_name(path: Seq<char>) -> Option<Seq<char>> {
    let segments = path_segments(split(path, '/'));
    if segments.len() == 0 || segments.last() == ".."@ || segments.last() == "."@ {
        None
    } else {
        Some(segments.last())
    }
}

/// What stands behind the last dot of a file name, if something stands before it.
pub open spec fn extension(name: Seq<char>) -> Option<Seq<char>> {
    match crate::grid::last_spot(name, '.') {
        Some(i) => if i > 0 {
            Some(name.skip(i + 1))
        } else {
            None
        },
        None => None,
    }
}

/// A path whose file name ends in `.epub`, in any case.
pub open spec fn epub_path(path: Seq<char>) -> bool {
    file_name(path) matches Some(name) && (extension(name) matches Some(e) && lowered(e) == "epub"@)
}

fn segments_of(path: &[char]) -> (r: Vec<Vec<char>>)
    ensures
        views(r@) == path_segments(split(path@, '/')),
{
    let pieces = split_on(path, '/');
    let ghost all = views(pieces@);
    let mut out: Vec<Vec<char>> = Vec::new();
    let mut i: usize = 0;
    assert(all.take(0) =~= seq![]);
    assert(views(out@) =~= seq![]);
    while i < pieces.len()
        invariant
            i <= pieces.len(),
            all == views(pieces@),
            views(out@) == path_segments(all.take(i as int)),
        decreases pieces.len() - i,
    {
        let ghost before = views(out@);
        proof {
            assert(all.take(i + 1).drop_last() =~= all.take(i as int));
            assert(all.take(i + 1).last() == pieces@[i as int]@);
        }
        if pieces[i].len() > 0 && (i == 0 || !same(&pieces[i], ".")) {
            let copy = vstd::slice::slice_to_vec(pieces[i].as_slice());
            let ghost c = copy@;
            out.push(copy);
            assert(views(out@) =~= before.push(c));
        }
        i = i + 1;
    }
    assert(all.take(i as int) =~= all);
    out
}

/// Is a path an `.epub`?
pub fn is_epub(path: &str) -> (r: bool)
    ensures
        r == epub_path(path@),
{
    let chars = chars_of(path);
    let segments = segments_of(&chars);
    let ghost all = views(segments@);
    assert(all.len() == segments@.len());
    if segments.len() == 0 {
        return false;
    }
    let name = &segments[segments.len() - 1];
    assert(all.last() == name@);
    if same(name, "..") || same(name, ".") {
        return false;
    }
    match crate::grid::find_last(name, '.') {
        Some(i) => {
            if i == 0 {
                return false;
            }
            let ext = slice_subrange(name.as_slice(), i + 1, name.len());
            assert(ext@ =~= name@.skip(i + 1));
            let low = lower_all(ext);
            same(&low, "epub")
        },
        None => false,
    }
}

/// Is every one of `a`'s segments `b`'s, in order, from the first?
pub open spec fn starts_with(b: Seq<Seq<char>>, a: Seq<Seq<char>>) -> bool {
    a.len() <= b.len() && forall|k: int| 0 <= k < a.len() ==> a[k] == #[trigger] b[k]
}

/// Is a path in a directory or below it, both from the root or both not?
pub open spec fn path_under(path: Seq<char>, dir: Seq<char>) -> bool {
    (path.len() > 0 && path[0] == '/') == (dir.len() > 0 && dir[0] == '/') && starts_with(
        path_segments(split(path, '/')),
        path_segments(split(dir, '/')),
    )
}

/// Is a path in a directory or below it?
pub fn is_under(path: &str, dir: &str) -> (r: bool)
    ensures
        r == path_under(path@, dir@),
{
    let p = chars_of(path);
    let d = chars_of(dir);
    let rooted = p.len() > 0 && p[0] == '/';
    let dir_rooted = d.len() > 0 && d[0] == '/';
    if rooted != dir_rooted {
        return false;
    }
    let ps = segments_of(&p);
    let ds = segments_of(&d);
    let ghost pv = views(ps@);
    let ghost dv = views(ds@);
    if ds.len() > ps.len() {
        return false;
    }
    let mut i: usize = 0;
    while i < ds.len()
        invariant
            i <= ds.len() <= ps.len(),
            pv == views(ps@),
            dv == views(ds@),
            pv == path_segments(split(path@, '/')),
            dv == path_segments(split(dir@, '/')),
            p@ == path@,
            d@ == dir@,
            forall|k: int| 0 <= k < i ==> dv[k] == #[trigger] pv[k],
        decreases ds.len() - i,
    {
        if !crate::text::same_chars(&ds[i], &ps[i]) {
            assert(dv[i as int] != pv[i as int]);
            assert(!starts_with(pv, dv));
            return false;
        }
        assert(dv[i as int] == ds@[i as int]@);
        i = i + 1;
    }
    true
}

/// A character that a file name must not hold.
pub open spec fn unfit(c: char) -> bool {
    c == '/' || c == '\\' || c == '\0' || c == ':' || c == '*' || c == '?' || c == '"' || c == '<' || c == '>'
        || c == '|' || control(c)
}

/// A character as it can stand in a file name: one that must not is a space.
pub open spec fn fit(c: char) -> char {
    if unfit(c) {
        ' '
    } else {
        c
    }
}

/// A name with everything a filesystem dislikes removed and runs of white space
/// made one space.
pub open spec fn sanitized(s: Seq<char>) -> Seq<char> {
    joined(words(s.map_values(|c: char| fit(c))), " "@)
}

fn is_unfit(c: char) -> (r: bool)
    ensures
        r == unfit(c),
{
    c == '/' || c == '\\' || c == '\0' || c == ':' || c == '*' || c == '?' || c == '"' || c == '<' || c == '>'
        || c == '|' || is_control(c)
}

/// A name with everything a filesystem dislikes removed.
pub fn sanitize(s: &str) -> (r: String)
    ensures
        r@ == sanitized(s@),
{
    let chars = chars_of(s);
    let ghost clean = |c: char| fit(c);
    let mut out: Vec<char> = Vec::new();
    let mut i: usize = 0;
    while i < chars.len()
        invariant
            i <= chars.len(),
            chars@ == s@,
            clean == (|c: char| fit(c)),
            out@ =~= s@.take(i as int).map_values(clean),
        decreases chars.len() - i,
    {
        if is_unfit(chars[i]) {
            out.push(' ');
        } else {
            out.push(chars[i]);
        }
        i = i + 1;
    }
    assert(s@.take(i as int) =~= s@);
    let ws = words_of(&out);
    join(&ws, " ")
}

/// `s` without spaces and dots at its end.
pub open spec fn undotted(s: Seq<char>) -> Seq<char>
    decreases s.len(),
{
    if s.len() > 0 && (s.last() == ' ' || s.last() == '.') {
        undotted(s.drop_last())
    } else {
        s
    }
}

/// A book's name in a file name: author and title, or the title alone.
pub open spec fn stem_of(author: Seq<char>, title: Seq<char>) -> Seq<char> {
    if title.len() == 0 {
        "Untitled"@
    } else if author.len() == 0 {
        title
    } else {
        author + " - "@ + title
    }
}

/// The first `n` characters.
pub open spec fn head_of(s: Seq<char>, n: int) -> Seq<char> {
    if s.len() <= n {
        s
    } else {
        s.take(n)
    }
}

/// The longest head of `s` that takes at most `max` bytes.
pub open spec fn brief(s: Seq<char>, max: nat) -> Seq<char>
    decreases s.len(),
{
    if bytes_len(s) <= max {
        s
    } else {
        brief(s.drop_last(), max)
    }
}

/// `Author - Title.epub`, with anything a filesystem dislikes removed, short
/// enough for common filename limits, which are counted in bytes.
pub open spec fn canonical(author: Seq<char>, title: Seq<char>) -> Seq<char> {
    undotted(brief(head_of(stem_of(sanitized(author), sanitized(title)), 180), 250)) + ".epub"@
}

/// `Author - Title.epub`, with anything a filesystem dislikes removed.
pub fn canonical_name(author: &str, title: &str) -> (r: String)
    ensures
        r@ == canonical(author@, title@),
{
    let by = sanitize(author);
    let name = sanitize(title);
    let a = chars_of(by.as_str());
    let t = chars_of(name.as_str());
    let stem = if t.len() == 0 {
        owned("Untitled")
    } else if a.len() == 0 {
        name
    } else {
        let mut s = by;
        s.append(" - ");
        s.append(name.as_str());
        s
    };
    // Leave room for the extension inside common filename limits.
    let all = chars_of(stem.as_str());
    let mut n: usize = if all.len() <= 180 {
        all.len()
    } else {
        180
    };
    let ghost cut = head_of(all@, 180);
    proof {
        assert(cut =~= all@.take(n as int));
    }
    while !within_bytes(slice_subrange(all.as_slice(), 0, n), 250)
        invariant
            n <= all.len(),
            brief(cut, 250) == brief(all@.take(n as int), 250),
        ensures
            n <= all.len(),
            brief(cut, 250) == all@.take(n as int),
        decreases n,
    {
        proof {
            assert(all@.subrange(0, n as int) =~= all@.take(n as int));
            assert(all@.take(n as int).drop_last() =~= all@.take(n - 1));
        }
        n = n - 1;
    }
    let ghost short = brief(cut, 250);
    while n > 0 && (all[n - 1] == ' ' || all[n - 1] == '.')
        invariant
            n <= all.len(),
            undotted(short) == undotted(all@.take(n as int)),
        decreases n,
    {
        proof {
            assert(all@.take(n as int).drop_last() =~= all@.take(n - 1));
        }
        n = n - 1;
    }
    let head = slice_subrange(all.as_slice(), 0, n);
    assert(head@ =~= all@.take(n as int));
    let mut out = string_of(head);
    out.append(".epub");
    out
}

proof fn lemma_words_fit(s: Seq<char>, word: Seq<char>)
    requires
        forall|i: int| 0 <= i < s.len() ==> !unfit(#[trigger] s[i]),
        forall|i: int| 0 <= i < word.len() ==> !unfit(#[trigger] word[i]),
    ensures
        forall|k: int, i: int|
            0 <= k < words_from(s, word).len() && 0 <= i < words_from(s, word)[k].len() ==> !unfit(
                #[trigger] words_from(s, word)[k][i],
            ),
    decreases s.len(),
{
    if s.len() > 0 {
        let rest = s.drop_first();
        assert forall|i: int| 0 <= i < rest.len() implies !unfit(#[trigger] rest[i]) by {
            assert(!unfit(s[i + 1]));
        }
        assert(!unfit(s[0]));
        if white(s[0]) {
            lemma_words_fit(rest, seq![]);
            if word.len() > 0 {
                let below = words_from(rest, seq![]);
                let all = words_from(s, word);
                assert forall|k: int, i: int| 0 <= k < all.len() && 0 <= i < all[k].len() implies !unfit(
                    #[trigger] all[k][i],
                ) by {
                    if k > 0 {
                        assert(all[k] == below[k - 1]);
                        assert(!unfit(below[k - 1][i]));
                    } else {
                        assert(all[0] == word);
                    }
                }
            } else {
                assert(words_from(s, word) == words_from(rest, seq![]));
            }
        } else {
            let longer = word.push(s[0]);
            assert forall|i: int| 0 <= i < longer.len() implies !unfit(#[trigger] longer[i]) by {
                if i < word.len() {
                    assert(longer[i] == word[i]);
                }
            }
            lemma_words_fit(rest, longer);
            assert(words_from(s, word) == words_from(rest, longer));
        }
    } else {
        let all = words_from(s, word);
        assert forall|k: int, i: int| 0 <= k < all.len() && 0 <= i < all[k].len() implies !unfit(
            #[trigger] all[k][i],
        ) by {
            assert(all[0] == word);
        }
    }
}

proof fn lemma_joined_fit(parts: Seq<Seq<char>>)
    requires
        forall|k: int, i: int|
            0 <= k < parts.len() && 0 <= i < parts[k].len() ==> !unfit(#[trigger] parts[k][i]),
    ensures
        forall|i: int| 0 <= i < joined(parts, " "@).len() ==> !unfit(#[trigger] joined(parts, " "@)[i]),
    decreases parts.len(),
{
    reveal_strlit(" ");
    if parts.len() == 1 {
        assert forall|i: int| 0 <= i < joined(parts, " "@).len() implies !unfit(#[trigger] joined(parts, " "@)[i]) by {
            assert(!unfit(parts[0][i]));
        }
    } else if parts.len() > 1 {
        let front = parts.drop_last();
        assert forall|k: int, i: int| 0 <= k < front.len() && 0 <= i < front[k].len() implies !unfit(
            #[trigger] front[k][i],
        ) by {
            assert(!unfit(parts[k][i]));
        }
        lemma_joined_fit(front);
        let head = joined(front, " "@);
        let last = parts.len() - 1;
        assert forall|i: int| 0 <= i < joined(parts, " "@).len() implies !unfit(#[trigger] joined(parts, " "@)[i]) by {
            if i < head.len() {
                assert(joined(parts, " "@)[i] == head[i]);
            } else if i == head.len() {
            } else {
                assert(joined(parts, " "@)[i] == parts[last][i - head.len() - 1]);
                assert(!unfit(parts[last][i - head.len() - 1]));
            }
        }
    }
}

proof fn lemma_sanitized_fit(s: Seq<char>)
    ensures
        forall|i: int| 0 <= i < sanitized(s).len() ==> !unfit(#[trigger] sanitized(s)[i]),
{
    let clean = s.map_values(|c: char| fit(c));
    assert forall|i: int| 0 <= i < clean.len() implies !unfit(#[trigger] clean[i]) by {
        assert(clean[i] == fit(s[i]));
    }
    lemma_words_fit(clean, seq![]);
    lemma_joined_fit(words(clean));
}

proof fn lemma_undotted(s: Seq<char>)
    ensures
        undotted(s).len() <= s.len(),
        forall|i: int| 0 <= i < undotted(s).len() ==> undotted(s)[i] == s[i],
        undotted(s).len() > 0 ==> undotted(s).last() != ' ' && undotted(s).last() != '.',
    decreases s.len(),
{
    if s.len() > 0 && (s.last() == ' ' || s.last() == '.') {
        lemma_undotted(s.drop_last());
        assert forall|i: int| 0 <= i < undotted(s).len() implies undotted(s)[i] == s[i] by {
            assert(undotted(s.drop_last())[i] == s.drop_last()[i]);
        }
    }
}

proof fn lemma_brief(s: Seq<char>, max: nat)
    ensures
        brief(s, max).len() <= s.len(),
        brief(s, max) == s.take(brief(s, max).len() as int),
        bytes_len(brief(s, max)) <= max,
    decreases s.len(),
{
    if bytes_len(s) <= max {
        assert(s.take(s.len() as int) =~= s);
    } else {
        let front = s.drop_last();
        lemma_brief(front, max);
        assert(front.take(brief(front, max).len() as int) =~= s.take(brief(front, max).len() as int));
    }
}

/// A canonical name is fit for a filesystem: it holds no separator, control or
/// reserved character, has at most 185 characters and 255 bytes, and ends in
/// `.epub`.
pub proof fn law_canonical_names_are_filesystem_safe(author: Seq<char>, title: Seq<char>)
    ensures
        forall|i: int| 0 <= i < canonical(author, title).len() ==> !unfit(#[trigger] canonical(author, title)[i]),
        5 <= canonical(author, title).len() <= 185,
        bytes_len(canonical(author, title)) <= 255,
        canonical(author, title).skip(canonical(author, title).len() - 5) == ".epub"@,
{
    reveal_strlit("Untitled");
    reveal_strlit(" - ");
    reveal_strlit(".epub");
    let a = sanitized(author);
    let t = sanitized(title);
    lemma_sanitized_fit(author);
    lemma_sanitized_fit(title);
    let stem = stem_of(a, t);
    assert forall|i: int| 0 <= i < stem.len() implies !unfit(#[trigger] stem[i]) by {
        if t.len() > 0 && a.len() > 0 {
            if i < a.len() {
                assert(stem[i] == a[i]);
            } else if i < a.len() + 3 {
            } else {
                assert(stem[i] == t[i - a.len() - 3]);
            }
        }
    }
    let cut = head_of(stem, 180);
    let short = brief(cut, 250);
    let kept = undotted(short);
    lemma_brief(cut, 250);
    lemma_undotted(short);
    let name = canonical(author, title);
    assert forall|i: int| 0 <= i < name.len() implies !unfit(#[trigger] name[i]) by {
        if i < kept.len() {
            assert(name[i] == kept[i]);
            assert(kept[i] == short[i]);
            assert(short[i] == cut[i]);
            assert(cut[i] == stem[i]);
        } else {
            assert(name[i] == ".epub"@[i - kept.len()]);
        }
    }
    assert(name.skip(name.len() - 5) =~= ".epub"@);
    assert(kept =~= short.take(kept.len() as int));
    lemma_bytes_head(short, kept.len() as int);
    lemma_bytes_suffix(kept);
}

proof fn lemma_bytes_suffix(s: Seq<char>)
    ensures
        bytes_len(s + ".epub"@) == bytes_len(s) + 5,
{
    reveal_strlit(".epub");
    reveal_with_fuel(bytes_len, 6);
    let t = s + ".epub"@;
    assert(t.drop_last().drop_last().drop_last().drop_last().drop_last() =~= s);
}

/// Widest a stored cover needs to be: twice the card, so a HiDPI screen still
/// has pixels to spare.
pub const COVER_MAX_W: u32 = 450;

/// The level of what a transparent cover is laid on: white.
pub const COVER_GROUND: u8 = 255;

/// The quality a shrunk cover is encoded at.
pub const COVER_QUALITY: u8 = 82;

#[verifier::external_type_specification]
#[verifier::external_body]
pub struct ExDynamicImage(image::DynamicImage);

/// The width of the picture that some bytes hold, if they hold one that can be
/// read.
pub uninterp spec fn picture_width(bytes: Seq<u8>) -> Option<u32>;

/// The width of a decoded picture.
pub uninterp spec fn width_of(picture: image::DynamicImage) -> u32;

/// Is this picture a decoding of some bytes? Machines may differ in the last
/// bits of a pixel.
pub uninterp spec fn decodes_to(bytes: Seq<u8>, picture: image::DynamicImage) -> bool;

/// A picture made narrower, in proportion.
pub uninterp spec fn narrowed(picture: image::DynamicImage, w: u32) -> image::DynamicImage;

/// The height of a decoded picture.
pub uninterp spec fn height_of(picture: image::DynamicImage) -> u32;

/// A picture of one colour.
pub uninterp spec fn filled(w: u32, h: u32, red: u8, green: u8, blue: u8, alpha: u8) -> image::DynamicImage;

/// A picture laid over another.
pub uninterp spec fn overlaid(below: image::DynamicImage, above: image::DynamicImage, x: i64, y: i64) -> image::DynamicImage;

/// A picture on opaque paper of its own size.
pub open spec fn on_paper(picture: image::DynamicImage) -> image::DynamicImage {
    let paper = filled(
        width_of(picture),
        height_of(picture),
        COVER_GROUND,
        COVER_GROUND,
        COVER_GROUND,
        u8::MAX,
    );
    overlaid(paper, picture, 0, 0)
}

/// A picture as a JPEG of a quality, if it can be encoded.
pub uninterp spec fn jpeg_of(picture: image::DynamicImage, quality: u8) -> Option<Seq<u8>>;

/// `image::load_from_memory`: the picture that some bytes hold. Whether they hold
/// one, and how wide it is, depends on the bytes alone; which pixels it has is up
/// to the machine's decoder, so the picture is only called a decoding of them.
#[verifier::external_body]
fn decode(bytes: &[u8]) -> (r: Option<image::DynamicImage>)
    ensures
        r is Some == picture_width(bytes@) is Some,
        r matches Some(p) ==> picture_width(bytes@) == Some(width_of(p)) && decodes_to(bytes@, p),
{
    image::load_from_memory(bytes).ok()
}

/// `DynamicImage::width`: how wide the picture is.
#[verifier::external_body]
fn width(picture: &image::DynamicImage) -> (w: u32)
    ensures
        w == width_of(*picture),
{
    picture.width()
}

/// `DynamicImage::resize` with a triangle filter and no bound on the height: a
/// wider picture becomes exactly as wide as asked. Its pixels depend on the
/// picture and the width alone; which they are is not said.
#[verifier::external_body]
fn narrow(picture: &image::DynamicImage, w: u32) -> (r: image::DynamicImage)
    requires
        0 < w < width_of(*picture),
    ensures
        r == narrowed(*picture, w),
        width_of(r) == w,
{
    picture.resize(w, u32::MAX, image::imageops::FilterType::Triangle)
}

/// `DynamicImage::height`: how high the picture is.
#[verifier::external_body]
fn height(picture: &image::DynamicImage) -> (h: u32)
    ensures
        h == height_of(*picture),
{
    picture.height()
}

/// `ImageBuffer::from_pixel` with 8-bit channels: a picture as wide and as high as
/// asked, all of one colour. It depends on what it is asked alone. One too large to
/// count the bytes of cannot be made, so it is a narrow one.
#[verifier::external_body]
fn fill(w: u32, h: u32, red: u8, green: u8, blue: u8, alpha: u8) -> (r: image::DynamicImage)
    requires
        w <= COVER_MAX_W,
    ensures
        r == filled(w, h, red, green, blue, alpha),
        width_of(r) == w,
        height_of(r) == h,
{
    image::RgbaImage::from_pixel(w, h, image::Rgba([red, green, blue, alpha])).into()
}

/// `image::imageops::overlay`: a picture laid over another, its corner at `x` and
/// `y` of the other. Where the upper one is transparent the lower one shows. The
/// result is as large as the lower one, and depends on the two and the place alone;
/// which pixels it has is not said.
#[verifier::external_body]
fn overlay(
    below: image::DynamicImage,
    above: &image::DynamicImage,
    x: i64,
    y: i64,
) -> (r: image::DynamicImage)
    ensures
        r == overlaid(below, *above, x, y),
        width_of(r) == width_of(below),
        height_of(r) == height_of(below),
{
    let mut out = below;
    image::imageops::overlay(&mut out, above, x, y);
    out
}

/// A picture on opaque paper of its own size.
fn lay_on_paper(picture: &image::DynamicImage) -> (r: image::DynamicImage)
    requires
        width_of(*picture) <= COVER_MAX_W,
    ensures
        r == on_paper(*picture),
        width_of(r) == width_of(*picture),
{
    let paper = fill(
        width(picture),
        height(picture),
        COVER_GROUND,
        COVER_GROUND,
        COVER_GROUND,
        u8::MAX,
    );
    overlay(paper, picture, 0, 0)
}

/// `JpegEncoder::encode_image` on the picture's 8-bit RGB pixels: the bytes of a
/// JPEG file, or nothing where it cannot be encoded. Which bytes is not said.
#[verifier::external_body]
fn encode(picture: &image::DynamicImage, quality: u8) -> (r: Option<Vec<u8>>)
    ensures
        match r {
            Some(v) => jpeg_of(*picture, quality) == Some(v@),
            None => jpeg_of(*picture, quality) is None,
        },
{
    let mut out = std::io::Cursor::new(Vec::new());
    let mut enc = image::codecs::jpeg::JpegEncoder::new_with_quality(&mut out, quality);
    let rgb = image::DynamicImage::ImageRgb8(picture.to_rgb8());
    enc.encode_image(&rgb).ok().map(|_| out.into_inner())
}

/// The cover that is kept of one `width` wide.
pub open spec fn kept_cover(bytes: Seq<u8>, width: Option<u32>, small: Option<Seq<u8>>) -> Seq<u8> {
    match (width, small) {
        (Some(w), Some(s)) => if w > COVER_MAX_W {
            s
        } else {
            bytes
        },
        _ => bytes,
    }
}

/// The cover to keep of one `width` wide, when `small` is what shrinking it gave:
/// a picture no wider than needed, and what is no picture, stay as they are.
pub fn pick_cover(bytes: Vec<u8>, width: Option<u32>, small: Option<Vec<u8>>) -> (r: Vec<u8>)
    ensures
        r@ == kept_cover(
            bytes@,
            width,
            match small {
                Some(s) => Some(s@),
                None => None,
            },
        ),
{
    match (width, small) {
        (Some(w), Some(s)) => if w > COVER_MAX_W {
            s
        } else {
            bytes
        },
        _ => bytes,
    }
}

/// A cover as narrow as it is kept, on white.
pub open spec fn shrunk(picture: image::DynamicImage) -> image::DynamicImage {
    on_paper(narrowed(picture, COVER_MAX_W))
}

/// Shrink a cover to `COVER_MAX_W`, or hand it back untouched.
///
/// Re-encoded as JPEG, so a cover with transparency is flattened onto white. Which
/// decoding of the bytes is shrunk is up to the machine.
pub fn shrink_cover(bytes: Vec<u8>) -> (r: Vec<u8>)
    ensures
        match picture_width(bytes@) {
            Some(w) => if w <= COVER_MAX_W {
                r@ == bytes@
            } else {
                exists|picture: image::DynamicImage| #[trigger]
                    decodes_to(bytes@, picture) && width_of(picture) == w && width_of(
                        shrunk(picture),
                    ) == COVER_MAX_W && r@ == match jpeg_of(shrunk(picture), COVER_QUALITY) {
                        Some(j) => j,
                        None => bytes@,
                    }
            },
            None => r@ == bytes@,
        },
{
    match decode(&bytes) {
        Some(picture) => {
            let w: u32 = width(&picture);
            if w <= COVER_MAX_W {
                return pick_cover(bytes, Some(w), None);
            }
            let small = narrow(&picture, COVER_MAX_W);
            let flat = lay_on_paper(&small);
            let jpeg = encode(&flat, COVER_QUALITY);
            assert(decodes_to(bytes@, picture));
            pick_cover(bytes, Some(w), jpeg)
        },
        None => pick_cover(bytes, None, None),
    }
}

/// What is read out of a book for the catalogue.
pub struct Described {
    pub title: Option<String>,
    /// The name of the file without its extension.
    pub stem: Option<String>,
    pub author: Option<String>,
    /// The cover as it is kept.
    pub cover: Option<Vec<u8>>,
}

/// Is this the catalogue row of a book that has not been opened?
pub open spec fn describes(
    row: BookRow,
    hash: Seq<char>,
    path: Seq<char>,
    d: Described,
    library: Seq<char>,
) -> bool {
    &&& row.hash@ == hash
    &&& row.path@ == path
    &&& row.title@ == named(worded(d.title), d.stem)
    &&& row.author@ == match d.author {
        Some(a) => a@,
        None => seq![],
    }
    &&& row.has_cover == d.cover is Some
    &&& row.cover == d.cover
    &&& row.managed == path_under(path, library)
    &&& !row.missing && !row.started && row.progress == 0 && row.tags@.len() == 0
}

/// The catalogue row of a book at `path`, before it has been opened.
pub fn describe(hash: String, path: String, d: Described, library: &str) -> (row: BookRow)
    ensures
        describes(row, hash@, path@, d, library@),
{
    let managed = is_under(path.as_str(), library);
    let author = match d.author {
        Some(a) => a,
        None => String::new(),
    };
    proof {
        if d.author is None {
            assert(author@ =~= seq![]);
        }
    }
    let has_cover = d.cover.is_some();
    BookRow {
        hash,
        path,
        title: catalogue_title(d.title, d.stem),
        author,
        cover: d.cover,
        has_cover,
        managed,
        missing: false,
        started: false,
        progress: 0,
        tags: Vec::new(),
    }
}

/// Where a book is copied to: its canonical name in the managed library.
pub fn library_copy(library: &str, author: &str, title: &str) -> (r: String)
    ensures
        r@ == path_in(library@, canonical(author@, title@)),
{
    let name = canonical_name(author, title);
    join_path(library, name.as_str())
}

} // verus!
