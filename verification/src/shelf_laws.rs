//! What holds of the library: its files, its records and how far a book is read.
use crate::book::{in_parts, named, rounded, share, weight_to, worded, BookError};
use crate::catalogue::{
    bytes_in, copying_to, known_as, opened, shows, texts, Copying, Entry, Record,
};
use crate::db::{
    caseless, class_of, classes, count_indexed, glob_pattern, hex, hex_digit, like_pattern, path_in,
    select_books, select_tagged, user_dir, BookRow, Sort,
};
use crate::library::{
    at_home, canonical, describes, epub_path, extension, file_name, filled, folders_named,
    height_of, kept_cover, narrowed, overlaid, path_segments, path_under, sanitized, shrunk,
    starts_with, undotted, width_of, Described,
};
use crate::net::{archive_path, hex_byte, hex_value, plain_segment, unquoted_bytes, walked, ORIGIN};
use crate::places::first_chapter;
use crate::search::prose;
use crate::settings::{style_set, theme_set};
use crate::style::Theme;
use crate::tags::{ranked, text_before};
use crate::text::{
    bytes_len, decimal, joined, lemma_no_spot, lowered, split, stands_at, trimmed, white, words,
};
use crate::text_laws::{law_white_space_parts_words, lemma_split_join};
use vstd::prelude::*;

verus! {

/// A book is described by what is found in its file; a cover that it has is kept where
/// none is found, and when it was added is noted once.
pub proof fn law_a_description_is_what_was_found(e: Entry, row: BookRow, now: u64)
    ensures
        ({
            let d = e.described(false, row, now);
            let again = e.described(true, row, now);
            &&& d.path == row.path@ && d.title == row.title@ && d.author == row.author@
            &&& again.path == row.path@ && again.title == row.title@ && again.author == row.author@
            &&& row.cover is Some ==> again.cover == bytes_in(row.cover)
            &&& row.cover is None ==> again.cover == e.cover
            &&& d.added_at == Some(now) && again.added_at == e.added_at
            &&& !d.missing && !again.missing
            &&& again.managed <==> e.managed || row.managed
            &&& again.indexed == e.indexed
        }),
        e.lost().missing,
        e.with_text().indexed,
{
}

/// Reading a book notes where and when, and where its file is now.
pub proof fn law_reading_is_noted(
    e: Entry,
    path: Seq<char>,
    title: Seq<char>,
    place: Seq<char>,
    progress: u32,
    now: u64,
)
    ensures
        ({
            let r = e.read_to(path, title, place, progress, now);
            r.path == path && r.title == title && r.opened_at == Some(now)
        }),
        ({
            let b = Entry::blank(path);
            b.hash == path && b.place is None && b.progress == 0 && b.opened_at is None && !b.indexed
                && !b.missing
        }),
{
}

/// A file is copied only where nothing has its place; where another book has it, the
/// file stays where it is and is opened there.
pub proof fn law_copies_are_made_once(row: BookRow, library: Seq<char>, dest: Seq<char>)
    requires
        row.path@ != dest,
    ensures
        copying_to(row.path@, dest, None) == Copying::Copy,
        copying_to(row.path@, dest, Some(true)) == Copying::Keep,
        copying_to(row.path@, dest, Some(false)) == Copying::Leave,
        copying_to(dest, dest, Some(false)) == Copying::Keep,
        opened(row, library, Copying::Leave, true) == row.path@,
        opened(row, library, Copying::Copy, false) == row.path@,
        opened(row, library, Copying::Copy, true) == path_in(library, canonical(row.author@, row.title@)),
        opened(row, library, Copying::Keep, false) == path_in(library, canonical(row.author@, row.title@)),
{
}

/// Only chapters that can be read are indexed, each under its own number.
pub proof fn law_only_readable_chapters_are_indexed(chapters: Seq<Option<String>>, k: int)
    requires
        0 <= k < texts(chapters).len(),
    ensures
        ({
            let t = texts(chapters)[k];
            0 <= t.0 < chapters.len() && (chapters[t.0] matches Some(html) && t.1 == prose(html@))
        }),
    decreases chapters.len(),
{
    if chapters.len() > 0 {
        let front = chapters.drop_last();
        if k < texts(front).len() {
            law_only_readable_chapters_are_indexed(front, k);
            let t = texts(front)[k];
            assert(front[t.0] == chapters[t.0]);
        }
    }
}

/// A book is called what it says, else what its file is called, else nothing in
/// particular; a title of white space is none in the catalogue.
pub proof fn law_books_have_names(title: String, stem: String)
    ensures
        named(Some(title), Some(stem)) == title@,
        named(None, Some(stem)) == stem@,
        named(None, None) == "Untitled"@,
        trimmed(title@).len() == 0 ==> named(worded(Some(title)), Some(stem)) == stem@,
        trimmed(title@).len() > 0 ==> named(worded(Some(title)), Some(stem)) == title@,
{
}

/// How far a book is read goes by the length of its items: from the head of an item to
/// the head of the next it grows by the item's share of the whole, and the last item
/// ends at the whole.
pub proof fn law_progress_goes_by_length(weights: Seq<u64>, i: int)
    requires
        0 <= i < weights.len(),
        weight_to(weights, weights.len() as int) > 0,
    ensures
        share(weights, 0, 0, 0).0 == 0,
        i + 1 < weights.len() ==> share(weights, i + 1, 0, 0).0 - share(weights, i, 0, 0).0 == weights[i],
        i + 1 == weights.len() ==> share(weights, i, 0, 0).1 - share(weights, i, 0, 0).0 == weights[i],
        share(weights, i, 0, 0).1 == share(weights, 0, 0, 0).1,
{
}

/// Inside an item it grows by how much of the item's height is behind: at its head it
/// is that of the head, at its foot that of the whole item.
pub proof fn law_progress_goes_by_height(weights: Seq<u64>, i: int, top: int, content: int)
    requires
        0 <= i < weights.len(),
        weight_to(weights, weights.len() as int) > 0,
        content > 0,
    ensures
        ({
            let start = share(weights, i, 0, 0);
            let here = share(weights, i, top, content);
            here.1 == start.1 * content && here.0 - start.0 * content == weights[i] * top
        }),
{
}

/// A fraction in parts is the whole number of parts that it reaches; in percent it is
/// the nearest.
pub proof fn law_fractions_are_counted_in_parts(n: int, d: int, parts: int)
    requires
        0 <= n <= d,
        0 < d,
        0 < parts,
    ensures
        in_parts((n, d), parts) * d <= n * parts < (in_parts((n, d), parts) + 1) * d,
        -d <= 2 * (n * 100 - rounded((n, d)) * d) <= d,
{
    let q = in_parts((n, d), parts);
    assert(q * d <= n * parts < (q + 1) * d) by (nonlinear_arith)
        requires
            q == (n * parts) / d,
            d > 0,
    ;
    let r = rounded((n, d));
    assert(r == (n * 200 + d) / (2 * d));
    assert(r * (2 * d) <= n * 200 + d < (r + 1) * (2 * d)) by (nonlinear_arith)
        requires
            r == (n * 200 + d) / (2 * d),
            d > 0,
    ;
    assert(r * (2 * d) == 2 * (r * d) && (r + 1) * (2 * d) == 2 * (r * d) + 2 * d) by (nonlinear_arith);
}

/// The columns that a row of the shelf is read from, in their order, and the order of
/// the rows, whatever is sought.
pub proof fn law_rows_are_read_from_these_columns(sort: Sort, full_text: bool)
    ensures
        ({
            let head = "SELECT file_hash, file_path, title, author, cover, managed, missing,
                    last_cfi IS NOT NULL
             FROM books
             WHERE ("@;
            &&& stands_at(select_books(sort, full_text), head, 0)
            &&& stands_at(select_tagged(sort), head, 0)
        }),
        Sort::Recent.clause() == "coalesce(opened_at, added_at) DESC"@,
        Sort::Title.clause() == "title COLLATE NOCASE ASC"@,
        Sort::Author.clause() == "author COLLATE NOCASE ASC, title COLLATE NOCASE ASC"@,
        crate::text::ends(select_books(sort, full_text), sort.clause()),
        crate::text::ends(select_tagged(sort), sort.clause()),
{
    let head = "SELECT file_hash, file_path, title, author, cover, managed, missing,
                    last_cfi IS NOT NULL
             FROM books
             WHERE ("@;
    let a = select_books(sort, full_text);
    let b = select_tagged(sort);
    assert(a.subrange(0, head.len() as int) =~= head);
    assert(b.subrange(0, head.len() as int) =~= head);
    let c = sort.clause();
    assert(a.subrange(a.len() - c.len(), a.len() as int) =~= c);
    assert(b.subrange(b.len() - c.len(), b.len() as int) =~= c);
}

/// What is typed is sought anywhere in a title or a name, without the white space
/// around it.
pub proof fn law_typed_words_are_sought_anywhere(word: Seq<char>)
    requires
        word.len() > 0,
        !white(word[0]) && !white(word.last()),
    ensures
        like_pattern(seq![' '] + word + seq![' ']) == like_pattern(word),
        glob_pattern(seq![' '] + word + seq![' ']) == glob_pattern(word),
        like_pattern(word)[0] == '%' && like_pattern(word).last() == '%',
        glob_pattern(word)[0] == '*' && glob_pattern(word).last() == '*',
{
    reveal_strlit("%");
    reveal_strlit("*");
    crate::text_laws::law_trimming_takes_only_white_space(seq![' '], word, seq![' ']);
    crate::text::lemma_trim_kept(word);
}

/// A path in a directory is behind it and a slash; a path from the root is itself.
pub proof fn law_paths_are_joined_by_a_slash(dir: Seq<char>, name: Seq<char>)
    requires
        dir.len() > 0,
        name.len() > 0,
    ensures
        name[0] == '/' ==> path_in(dir, name) == name,
        name[0] != '/' && dir.last() != '/' ==> path_in(dir, name) == dir + seq!['/'] + name,
        name[0] != '/' && dir.last() == '/' ==> path_in(dir, name) == dir + name,
{
    reveal_strlit("/");
    assert("/"@ =~= seq!['/']);
}

/// A tilde stands for the home directory.
pub proof fn law_a_tilde_is_the_home_directory(rest: Seq<char>, home: &str)
    ensures
        at_home(seq!['~', '/'] + rest, Some(home)) == path_in(home@, rest),
        !stands_at(rest, "~/"@, 0) ==> at_home(rest, Some(home)) == rest,
{
    reveal_strlit("~/");
    let s = seq!['~', '/'] + rest;
    assert(s.subrange(0, 2) =~= "~/"@);
    assert(s.skip(2) =~= rest);
}

/// The characters that no file name may hold.
pub open spec fn unsafe_in_names(c: char) -> bool {
    c == '/' || c == '\\' || c == ':' || c == '*' || c == '?' || c == '"' || c == '<' || c == '>' || c == '|'
        || (c as u32) < 0x20 || 0x7f <= (c as u32) <= 0x9f
}

/// No name that a book is filed under holds a character that file systems refuse.
pub proof fn law_filed_names_are_safe(author: Seq<char>, title: Seq<char>, i: int)
    requires
        0 <= i < canonical(author, title).len(),
    ensures
        !unsafe_in_names(canonical(author, title)[i]),
{
    crate::library::law_canonical_names_are_filesystem_safe(author, title);
}

/// A word that may stand in a file name.
pub open spec fn safe_word(s: Seq<char>) -> bool {
    s.len() > 0 && s.last() != '.' && forall|i: int|
        0 <= i < s.len() ==> !white(#[trigger] s[i]) && !unsafe_in_names(s[i])
}

proof fn lemma_sanitized_word(s: Seq<char>)
    requires
        safe_word(s),
    ensures
        sanitized(s) == s,
{
    let f = |c: char| crate::library::fit(c);
    assert forall|i: int| 0 <= i < s.len() implies s.map_values(f)[i] == s[i] by {
        assert(!white(s[i]) && !unsafe_in_names(s[i]));
    }
    assert(s.map_values(f) =~= s);
    law_white_space_parts_words(s, ' ', seq![]);
    assert(joined(seq![s], " "@) == s);
}

proof fn lemma_no_dots(s: Seq<char>)
    requires
        s.len() == 0 || s.last() != ' ' && s.last() != '.',
    ensures
        crate::library::undotted(s) == s,
{
}

/// A book is filed under its author and its title, by its title alone where it has no
/// author, and as untitled where it has neither.
pub proof fn law_books_are_filed_under_their_names(author: Seq<char>, title: Seq<char>)
    requires
        safe_word(author),
        safe_word(title),
        author.len() + title.len() <= 177,
        bytes_len(author + seq![' ', '-', ' '] + title) <= 250,
        bytes_len(title) <= 250,
    ensures
        canonical(author, title) == author + seq![' ', '-', ' '] + title + seq!['.', 'e', 'p', 'u', 'b'],
        canonical(seq![], title) == title + seq!['.', 'e', 'p', 'u', 'b'],
        canonical(author, seq![]) == "Untitled"@ + seq!['.', 'e', 'p', 'u', 'b'],
{
    reveal_strlit(" - ");
    reveal_strlit(".epub");
    reveal_strlit("Untitled");
    let none = Seq::<char>::empty();
    lemma_sanitized_word(author);
    lemma_sanitized_word(title);
    let f = |c: char| crate::library::fit(c);
    assert(none.map_values(f) =~= none);
    assert(words(none) =~= Seq::<Seq<char>>::empty());
    assert(sanitized(none) =~= none);
    assert(" - "@ =~= seq![' ', '-', ' ']);
    assert(".epub"@ =~= seq!['.', 'e', 'p', 'u', 'b']);
    assert(!white(title[title.len() - 1]));
    let both = author + seq![' ', '-', ' '] + title;
    assert(both.last() == title.last());
    lemma_no_dots(both);
    lemma_no_dots(title);
    let bare = "Untitled"@;
    assert(bare.len() == 8);
    assert forall|i: int| 0 <= i < bare.len() implies (#[trigger] bare[i]) as u32 <= 127 by {}
    crate::search::lemma_ascii_bytes(bare);
    lemma_no_dots(bare);
}

proof fn lemma_segments_prefix(a: Seq<Seq<char>>, b: Seq<Seq<char>>)
    ensures
        starts_with(path_segments(a + b), path_segments(a)),
    decreases b.len(),
{
    if b.len() == 0 {
        assert(a + b =~= a);
    } else {
        lemma_segments_prefix(a, b.drop_last());
        let all = a + b;
        assert(all.drop_last() =~= a + b.drop_last());
        let front = path_segments(a + b.drop_last());
        let head = path_segments(a);
        assert forall|k: int| 0 <= k < head.len() implies head[k] == #[trigger] path_segments(all)[k] by {
            assert(head[k] == front[k]);
        }
    }
}

/// What stands behind a directory and a slash is in the directory.
pub proof fn law_files_are_in_their_directory(dir: Seq<char>, rest: Seq<char>)
    requires
        dir.len() > 0,
    ensures
        path_under(dir + seq!['/'] + rest, dir),
{
    let path = dir + seq!['/'] + rest;
    assert(path =~= dir.push('/') + rest);
    lemma_split_join(dir, '/', rest);
    lemma_segments_prefix(split(dir, '/'), split(rest, '/'));
    assert(path[0] == dir[0]);
}

proof fn lemma_segments_last(pieces: Seq<Seq<char>>)
    requires
        pieces.len() > 0,
        pieces.last().len() > 0,
        pieces.last() != "."@,
    ensures
        path_segments(pieces).len() > 0,
        path_segments(pieces).last() == pieces.last(),
{
}

proof fn lemma_extension(stem: Seq<char>, ext: Seq<char>)
    requires
        stem.len() > 0,
        forall|i: int| 0 <= i < ext.len() ==> (#[trigger] ext[i]) != '.',
    ensures
        extension(stem + seq!['.'] + ext) == Some(ext),
{
    let name = stem + seq!['.'] + ext;
    lemma_last_dot(stem, ext);
    assert(name.skip(stem.len() as int + 1) =~= ext);
}

proof fn lemma_last_dot(stem: Seq<char>, ext: Seq<char>)
    requires
        forall|i: int| 0 <= i < ext.len() ==> (#[trigger] ext[i]) != '.',
    ensures
        crate::grid::last_spot(stem + seq!['.'] + ext, '.') == Some(stem.len() as int),
    decreases ext.len(),
{
    let s = stem + seq!['.'] + ext;
    if ext.len() == 0 {
        assert(s.last() == '.');
    } else {
        let front = ext.drop_last();
        assert forall|i: int| 0 <= i < front.len() implies (#[trigger] front[i]) != '.' by {
            assert(ext[i] != '.');
        }
        assert(ext[ext.len() - 1] != '.');
        lemma_last_dot(stem, front);
        assert(s.drop_last() =~= stem + seq!['.'] + front);
        assert(s.last() == ext.last());
    }
}

/// A file is a book if its name ends in `.epub`, in any case, and in no other case.
pub proof fn law_books_end_in_epub(dir: Seq<char>, stem: Seq<char>, ext: Seq<char>)
    requires
        stem.len() > 0,
        ext.len() > 0,
        forall|i: int| 0 <= i < stem.len() ==> (#[trigger] stem[i]) != '/',
        forall|i: int| 0 <= i < ext.len() ==> (#[trigger] ext[i]) != '/' && ext[i] != '.',
    ensures
        epub_path(dir + seq!['/'] + stem + seq!['.'] + ext) <==> lowered(ext) == seq!['e', 'p', 'u', 'b'],
{
    reveal_strlit("epub");
    reveal_strlit(".");
    reveal_strlit("..");
    assert("epub"@ =~= seq!['e', 'p', 'u', 'b']);
    let name = stem + seq!['.'] + ext;
    let path = dir + seq!['/'] + stem + seq!['.'] + ext;
    assert(path =~= dir.push('/') + name);
    lemma_split_join(dir, '/', name);
    assert forall|i: int| 0 <= i < name.len() implies name[i] != '/' by {
        if i < stem.len() {
            assert(name[i] == stem[i]);
        } else if i > stem.len() {
            assert(name[i] == ext[i - stem.len() - 1]);
        }
    }
    crate::text::lemma_split_none(name, '/');
    let pieces = split(dir, '/') + seq![name];
    assert(pieces.last() == name);
    assert(name.last() == ext[ext.len() - 1]);
    assert(name != "."@ && name != ".."@) by {
        if name == ".."@ {
            assert(name.last() == '.');
        }
    }
    lemma_segments_last(pieces);
    assert(file_name(path) == Some(name));
    lemma_extension(stem, ext);
}

/// A percent sign and two hexadecimal digits, in either case, are the byte they spell;
/// any other byte is itself.
pub proof fn law_escapes_are_the_bytes_they_spell(b: u8, hi: u8, lo: u8, rest: Seq<u8>)
    requires
        b != 37,
        hex_value(hi) is Some,
        hex_value(lo) is Some,
    ensures
        unquoted_bytes(seq![37u8, hi, lo] + rest) == seq![(hex_value(hi)->0 * 16 + hex_value(lo)->0) as u8]
            + unquoted_bytes(rest),
        unquoted_bytes(seq![b] + rest) == seq![b] + unquoted_bytes(rest),
{
    let s = seq![37u8, hi, lo] + rest;
    assert(s.skip(3) =~= rest);
    assert(hex_byte(s[1], s[2]) == Some((hex_value(hi)->0 * 16 + hex_value(lo)->0) as u8));
    let t = seq![b] + rest;
    assert(t.skip(1) =~= rest);
}

/// The sixteen digits, in either case, by what they count.
pub proof fn law_hexadecimal_digits_count(d: int)
    requires
        0 <= d < 16,
    ensures
        d < 10 ==> hex_value((48 + d) as u8) == Some(d as u8),
        d >= 10 ==> hex_value((87 + d) as u8) == Some(d as u8) && hex_value((55 + d) as u8) == Some(
            d as u8,
        ),
{
}

/// A path of plain names is served as it is, with or without the slash at its head.
pub proof fn law_plain_paths_are_served(segments: Seq<Seq<char>>)
    requires
        segments.len() > 0,
        forall|k: int| 0 <= k < segments.len() ==> plain_segment(#[trigger] segments[k]),
    ensures
        archive_path(seq!['/'] + joined(segments, "/"@)) == Some(seq!['/'] + joined(segments, "/"@)),
        archive_path(joined(segments, "/"@)) == Some(seq!['/'] + joined(segments, "/"@)),
{
    let below = joined(segments, "/"@);
    let none = Seq::<char>::empty();
    let empty = Seq::<Seq<char>>::empty();
    assert(seq!['/'] + below =~= none.push('/') + below);
    crate::text::lemma_split_first(none, '/', below);
    crate::net::lemma_split_joined(segments);
    crate::net::lemma_plain_walk(segments, empty);
    assert(empty + segments =~= segments);
    let slashed = seq![none] + segments;
    assert(slashed.drop_first() =~= segments);
    assert(slashed[0] == none);
}

/// A slash at the head of a path, a dot on its own, and a name that the path climbs
/// out of again make no difference.
pub proof fn law_detours_make_no_difference(name: Seq<char>, rest: Seq<char>)
    requires
        plain_segment(name),
    ensures
        archive_path(seq!['/'] + rest) == archive_path(rest),
        archive_path(seq!['.', '/'] + rest) == archive_path(rest),
        archive_path(name + seq!['/', '.', '.', '/'] + rest) == archive_path(rest),
{
    reveal_strlit(".");
    reveal_strlit("..");
    let none = Seq::<char>::empty();
    let empty = Seq::<Seq<char>>::empty();
    let dot = seq!['.'];
    let up = seq!['.', '.'];
    assert("."@ =~= dot && ".."@ =~= up);
    let after = split(rest, '/');
    assert(seq!['/'] + rest =~= none.push('/') + rest);
    crate::text::lemma_split_first(none, '/', rest);
    assert((seq![none] + after).drop_first() =~= after);
    assert(seq!['.', '/'] + rest =~= dot.push('/') + rest);
    crate::text::lemma_split_first(dot, '/', rest);
    assert((seq![dot] + after).drop_first() =~= after);
    assert forall|i: int| 0 <= i < name.len() implies name[i] != '/' by {
        assert(name[i] != '\0');
    }
    assert(name + seq!['/', '.', '.', '/'] + rest =~= name.push('/') + (up.push('/') + rest));
    crate::text::lemma_split_first(up, '/', rest);
    crate::text::lemma_split_first(name, '/', up.push('/') + rest);
    let one = seq![up] + after;
    let two = seq![name] + one;
    assert(two.drop_first() =~= one);
    assert(one.drop_first() =~= after);
    assert(two[0] == name && one[0] == up);
    assert forall|i: int| 0 <= i < name.len() implies name[i] != '\\' && name[i] != '\0' by {
        assert(name[i] != '\0');
    }
    lemma_no_spot(name, '\\');
    lemma_no_spot(name, '\0');
    assert(empty.push(name).drop_last() =~= empty);
    assert(walked(one, empty.push(name)) == walked(after, empty));
}

/// A chapter's references are read in its own directory, under the origin that only
/// the book is served from.
pub proof fn law_chapters_are_served_from_the_book(dir: Seq<char>, file: Seq<char>)
    requires
        dir.len() > 0,
        dir[0] != '/',
        forall|i: int| 0 <= i < file.len() ==> (#[trigger] file[i]) != '/',
    ensures
        crate::chapter::base_of(dir + seq!['/'] + file) == "omaread-book://book/"@ + dir + seq!['/'],
        ORIGIN@ == "omaread-book://book/"@,
{
    reveal_strlit("/");
    let href = dir + seq!['/'] + file;
    assert(href[0] == dir[0]);
    crate::places_laws::lemma_last_spot_is(dir, file);
    assert(href.take(dir.len() as int) =~= dir);
    assert("/"@ =~= seq!['/']);
}

/// A theme is read by its name; any other word is the usual one.
pub proof fn law_themes_are_read_by_name(word: Seq<char>)
    ensures
        word == "white"@ ==> theme_set(word) == Theme::White,
        word == "grey"@ ==> theme_set(word) == Theme::Grey,
        word == "night"@ ==> theme_set(word) == Theme::Night,
        word != "white"@ && word != "grey"@ && word != "night"@ ==> theme_set(word) == Theme::Sepia,
{
    reveal_strlit("white");
    reveal_strlit("grey");
    reveal_strlit("night");
    assert("white"@.len() == 5 && "grey"@.len() == 4 && "night"@.len() == 5);
    assert("white"@[0] == 'w' && "night"@[0] == 'n');
}

/// The tag that more books have is offered first, and of two that as many have the one
/// whose first character that differs comes first.
pub proof fn law_the_most_used_tag_is_first(s: Seq<(Seq<char>, nat)>, i: int, j: int)
    requires
        0 <= i < j < ranked(s).len(),
    ensures
        ranked(s)[i].1 >= ranked(s)[j].1,
        ranked(s)[i].1 == ranked(s)[j].1 ==> !text_before(ranked(s)[j].0, ranked(s)[i].0),
{
    crate::tags::law_tags_are_offered_by_use(s);
    assert(!crate::tags::ahead(ranked(s)[j], ranked(s)[i]));
}

/// Texts are ordered by the first character that differs; one that another continues
/// comes before it.
pub proof fn law_texts_are_ordered_by_their_first_difference(
    a: Seq<char>,
    x: char,
    b: Seq<char>,
    y: char,
    c: Seq<char>,
)
    requires
        (x as u32) < (y as u32),
    ensures
        text_before(a + seq![x] + b, a + seq![y] + c),
        !text_before(a + seq![y] + c, a + seq![x] + b),
        text_before(a, a + seq![x] + b),
        !text_before(a + seq![x] + b, a),
    decreases a.len(),
{
    let s = a + seq![x] + b;
    let t = a + seq![y] + c;
    if a.len() == 0 {
        assert(s[0] == x && t[0] == y);
    } else {
        let rest = a.drop_first();
        law_texts_are_ordered_by_their_first_difference(rest, x, b, y, c);
        assert(s.drop_first() =~= rest + seq![x] + b);
        assert(t.drop_first() =~= rest + seq![y] + c);
        assert(s[0] == a[0] && t[0] == a[0]);
    }
}

/// A book that was never opened is listed as what was found of it: unread, untagged,
/// by its title or its file's name, and as kept by the library if it is in its
/// directory.
pub proof fn law_a_new_book_is_listed_as_found(
    row: BookRow,
    hash: Seq<char>,
    dir: Seq<char>,
    rest: Seq<char>,
    d: Described,
)
    requires
        describes(row, hash, dir + seq!['/'] + rest, d, dir),
        dir.len() > 0,
    ensures
        row.hash@ == hash && row.path@ == dir + seq!['/'] + rest,
        row.managed && !row.missing && !row.started,
        row.progress == 0 && row.tags@.len() == 0,
        row.cover == d.cover && row.has_cover == (d.cover is Some),
        d.title matches Some(t) && trimmed(t@).len() > 0 ==> row.title@ == d.title->0@,
        d.title is None && d.stem is Some ==> row.title@ == d.stem->0@,
        d.title is None && d.stem is None ==> row.title@ == "Untitled"@,
        d.author matches Some(a) ==> row.author@ == a@,
        d.author is None ==> row.author@.len() == 0,
{
    law_files_are_in_their_directory(dir, rest);
}

/// The shelf shows of a book what its record holds: as begun if it has a position.
pub proof fn law_rows_show_their_records(row: BookRow, r: Record, tags: Vec<String>)
    requires
        shows(row, r, tags),
    ensures
        row.hash@ == r.hash@ && row.path@ == r.path@ && row.title@ == r.title@ && row.author@
            == r.author@,
        row.started <==> r.place is Some,
        row.has_cover <==> r.cover is Some,
        row.cover == r.cover && row.missing == r.missing && row.managed == r.managed,
        row.progress == r.progress && row.tags@ == tags@,
{
}

/// Only a picture wider than 450 pixels is shrunk; a narrower one, and what is no
/// picture, stay as they are.
pub proof fn law_only_wide_covers_are_shrunk(bytes: Seq<u8>, w: u32, small: Seq<u8>)
    ensures
        w > 450 ==> kept_cover(bytes, Some(w), Some(small)) == small,
        w <= 450 ==> kept_cover(bytes, Some(w), Some(small)) == bytes,
        kept_cover(bytes, None, Some(small)) == bytes,
        kept_cover(bytes, Some(w), None) == bytes,
{
}

/// A book opens at the chapter where it was left, if it still has it, else at the one
/// that was asked for.
pub proof fn law_a_book_opens_where_it_was_left(saved: usize, count: usize, start: usize)
    ensures
        saved < count ==> first_chapter(Some(saved), count, start) == saved,
        saved >= count ==> first_chapter(Some(saved), count, start) == start,
        first_chapter(None, count, start) == start,
{
}

/// The style is the one that was saved; of none it is sepia, at its full size.
pub proof fn law_the_style_is_as_saved(theme: Option<&str>, n: i64)
    ensures
        style_set(None, None) == (Theme::Sepia, 1000i64),
        style_set(theme, Some(n)).1 == n,
        style_set(theme, None).1 == 1000,
        theme matches Some(t) && t@ == "night"@ ==> style_set(theme, Some(n)).0 == Theme::Night,
        theme matches Some(t) && t@ == "white"@ ==> style_set(theme, Some(n)).0 == Theme::White,
        theme matches Some(t) && t@ == "grey"@ ==> style_set(theme, Some(n)).0 == Theme::Grey,
        theme matches Some(t) && t@ == "sepia"@ ==> style_set(theme, Some(n)).0 == Theme::Sepia,
{
    reveal_strlit("night");
    reveal_strlit("white");
    reveal_strlit("grey");
    reveal_strlit("sepia");
    assert("night"@[0] == 'n' && "white"@[0] == 'w' && "grey"@[0] == 'g' && "sepia"@[0] == 's');
}

/// An error says what is wrong, and of which item.
pub proof fn law_errors_say_what_is_wrong(i: usize)
    ensures
        BookError::EmptySpine.text() == "epub has an empty spine"@,
        BookError::NoSpineItem(i).text() == "no spine item "@ + decimal(i as nat),
{
}

/// A directory is the one that is named, else the usual one in the home directory,
/// else the one that the program runs in.
pub proof fn law_directories_have_their_usual_place(named_dir: &str, home: &str, usual: Seq<char>)
    requires
        home@.len() > 0,
        home@.last() != '/',
        usual.len() > 0,
        usual[0] != '/',
    ensures
        user_dir(Some(named_dir), Some(home), usual) == named_dir@,
        user_dir(Some(named_dir), None, usual) == named_dir@,
        user_dir(None, Some(home), usual) == home@ + seq!['/'] + usual,
        user_dir(None, None, usual) == "."@,
{
    law_paths_are_joined_by_a_slash(home@, usual);
}

/// A book that the catalogue does not know has nothing but its hash; one that it knows
/// has all of its record.
pub proof fn law_unknown_books_are_blank(r: Record, hash: Seq<char>)
    ensures
        known_as(Some(r), hash) == r@,
        ({
            let e = known_as(None, hash);
            &&& e.hash == hash
            &&& e.path.len() == 0 && e.title.len() == 0 && e.author.len() == 0
            &&& e.cover is None && e.place is None && e.added_at is None && e.opened_at is None
            &&& !e.managed && !e.missing && !e.indexed && e.progress == 0
        }),
{
}

/// A chapter counts as indexed if it says something.
pub proof fn law_chapters_that_say_something_are_counted(
    chapters: Seq<(usize, String)>,
    chapter: (usize, String),
)
    ensures
        count_indexed(Seq::empty()) == 0,
        trimmed(chapter.1@).len() > 0 ==> count_indexed(chapters.push(chapter)) == count_indexed(
            chapters,
        ) + 1,
        trimmed(chapter.1@).len() == 0 ==> count_indexed(chapters.push(chapter)) == count_indexed(
            chapters,
        ),
{
    assert(chapters.push(chapter).drop_last() =~= chapters);
}

/// A byte is written as two hexadecimal digits, the higher first and in small letters.
pub proof fn law_bytes_are_written_in_hexadecimal(bytes: Seq<u8>, b: u8, d: int)
    requires
        0 <= d < 16,
    ensures
        hex(Seq::empty()).len() == 0,
        hex(bytes.push(b)) == hex(bytes) + seq![hex_digit(b as int / 16), hex_digit(b as int % 16)],
        hex_value(hex_digit(d) as u8) == Some(d as u8),
        hex_digit(d) as u32 <= 57 || 97 <= hex_digit(d) as u32 <= 102,
{
    assert(bytes.push(b).drop_last() =~= bytes);
}

/// A name ends in neither dot nor space: only these are taken from its end.
pub proof fn law_only_dots_and_spaces_are_taken_from_the_end(s: Seq<char>, i: int)
    ensures
        undotted(s).len() > 0 ==> undotted(s).last() != ' ' && undotted(s).last() != '.',
        undotted(s).len() <= s.len(),
        undotted(s) == s.take(undotted(s).len() as int),
        undotted(s).len() <= i < s.len() ==> s[i] == ' ' || s[i] == '.',
    decreases s.len(),
{
    if s.len() > 0 && (s.last() == ' ' || s.last() == '.') {
        law_only_dots_and_spaces_are_taken_from_the_end(s.drop_last(), i);
        let n = undotted(s).len() as int;
        assert(s.drop_last().take(n) =~= s.take(n));
    } else {
        assert(s.take(s.len() as int) =~= s);
    }
}

/// A character that a name cannot hold parts it as a space would.
pub proof fn law_unsafe_characters_part_words(a: Seq<char>, c: char, b: Seq<char>)
    requires
        safe_word(a),
        safe_word(b),
        unsafe_in_names(c) || c == ' ',
    ensures
        sanitized(a + seq![c] + b) == a + seq![' '] + b,
{
    reveal_strlit(" ");
    let f = |x: char| crate::library::fit(x);
    let s = a + seq![c] + b;
    assert forall|i: int| 0 <= i < a.len() implies f(a[i]) == a[i] by {
        assert(!unsafe_in_names(a[i]));
    }
    assert forall|i: int| 0 <= i < b.len() implies f(b[i]) == b[i] by {
        assert(!unsafe_in_names(b[i]));
    }
    assert(s.map_values(f) =~= a.push(' ') + b);
    law_white_space_parts_words(a, ' ', b);
    law_white_space_parts_words(b, ' ', b);
    assert(words(s.map_values(f)) =~= seq![a, b]);
    let both = seq![a, b];
    reveal_with_fuel(joined, 3);
    assert(both.drop_first() =~= seq![b]);
    assert(both.drop_last() =~= seq![a]);
    assert(joined(both, " "@) =~= a + seq![' '] + b);
}

/// A line of the folder list names a folder unless it is blank or begins with a hash;
/// folders are named in order.
pub proof fn law_comments_name_no_folder(ls: Seq<Seq<char>>, line: Seq<char>, home: Option<&str>)
    ensures
        trimmed(line).len() == 0 ==> folders_named(ls.push(line), home) == folders_named(ls, home),
        trimmed(line).len() > 0 && trimmed(line)[0] == '#' ==> folders_named(ls.push(line), home)
            == folders_named(ls, home),
        trimmed(line).len() > 0 && trimmed(line)[0] != '#' ==> folders_named(ls.push(line), home)
            == folders_named(ls, home).push(at_home(trimmed(line), home)),
{
    assert(ls.push(line).drop_last() =~= ls);
}

/// A plus sign before a hexadecimal digit adds nothing to it.
pub proof fn law_a_plus_adds_nothing(d: int)
    requires
        0 <= d < 10,
    ensures
        hex_byte(43, (48 + d) as u8) == Some(d as u8),
{
}

/// A cover that is shrunk lies at the corner of white paper of its own size.
pub proof fn law_covers_lie_on_white_paper(picture: image::DynamicImage)
    ensures
        shrunk(picture) == overlaid(
            filled(
                width_of(narrowed(picture, 450)),
                height_of(narrowed(picture, 450)),
                255,
                255,
                255,
                255,
            ),
            narrowed(picture, 450),
            0,
            0,
        ),
{
}

/// What would stand for something else in a pattern is sought as itself, and letters
/// are sought by their class; each character of a query is sought in its turn.
pub proof fn law_patterns_stand_for_what_was_typed(s: Seq<char>, c: char)
    ensures
        classes(Seq::empty()).len() == 0,
        classes(s.push(c)) == classes(s) + class_of(c),
        caseless(c) && (c == '*' || c == '?' || c == '[') ==> class_of(c) == seq!['[', c, ']'],
        caseless(c) && c != '*' && c != '?' && c != '[' ==> class_of(c) == seq![c],
        !caseless(c) ==> class_of(c)[0] == '[' && class_of(c)[1] == c && class_of(c).last() == ']',
{
    assert(s.push(c).drop_last() =~= s);
}

} // verus!
