//! What the catalogue keeps of a book, and what reading, scanning and indexing
//! make of it.
//!
//! A record is found by the book's identity, so it outlives a rename or a move
//! of the file. The rules stand here; the store writes the record they give.
use crate::db::{count_indexed, indexed_chapters, path_in, BookRow};
use crate::library::{canonical, library_copy};
use crate::search::{prose, text_of_html};
use crate::text::{equal, owned, text_in};
use vstd::prelude::*;

verus! {

/// A book as the catalogue stores it. Times are seconds since the epoch.
#[derive(Debug, Clone)]
pub struct Record {
    pub hash: String,
    pub path: String,
    pub title: String,
    pub author: String,
    pub cover: Option<Vec<u8>>,
    /// Is the file the library's own copy?
    pub managed: bool,
    /// Was the file gone when it was last looked for?
    pub missing: bool,
    /// Where the reader left off.
    pub place: Option<String>,
    /// How far through the book that is, in thousandths.
    pub progress: u32,
    pub opened_at: Option<u64>,
    pub added_at: Option<u64>,
    /// Is its text in the index?
    pub indexed: bool,
}

/// What a record says.
#[verifier::ext_equal]
pub struct Entry {
    pub hash: Seq<char>,
    pub path: Seq<char>,
    pub title: Seq<char>,
    pub author: Seq<char>,
    pub cover: Option<Seq<u8>>,
    pub managed: bool,
    pub missing: bool,
    pub place: Option<Seq<char>>,
    pub progress: u32,
    pub opened_at: Option<u64>,
    pub added_at: Option<u64>,
    pub indexed: bool,
}

pub open spec fn bytes_in(b: Option<Vec<u8>>) -> Option<Seq<u8>> {
    match b {
        Some(v) => Some(v@),
        None => None,
    }
}

impl View for Record {
    type V = Entry;

    open spec fn view(&self) -> Entry {
        Entry {
            hash: self.hash@,
            path: self.path@,
            title: self.title@,
            author: self.author@,
            cover: bytes_in(self.cover),
            managed: self.managed,
            missing: self.missing,
            place: text_in(self.place),
            progress: self.progress,
            opened_at: self.opened_at,
            added_at: self.added_at,
            indexed: self.indexed,
        }
    }
}

impl Entry {
    /// The record of a book that nothing is known of yet.
    pub open spec fn blank(hash: Seq<char>) -> Entry {
        Entry {
            hash,
            path: seq![],
            title: seq![],
            author: seq![],
            cover: None,
            managed: false,
            missing: false,
            place: None,
            progress: 0,
            opened_at: None,
            added_at: None,
            indexed: false,
        }
    }

    /// After reading up to a place.
    pub open spec fn read_to(
        self,
        path: Seq<char>,
        title: Seq<char>,
        place: Seq<char>,
        progress: u32,
        now: u64,
    ) -> Entry {
        Entry { path, title, place: Some(place), progress, opened_at: Some(now), ..self }
    }

    /// After the file was found and described, for the first time or again.
    pub open spec fn described(self, known: bool, row: BookRow, now: u64) -> Entry {
        Entry {
            path: row.path@,
            title: row.title@,
            author: row.author@,
            cover: if row.cover is Some {
                bytes_in(row.cover)
            } else {
                self.cover
            },
            managed: self.managed || row.managed,
            missing: false,
            added_at: if known {
                self.added_at
            } else {
                Some(now)
            },
            ..self
        }
    }

    /// After its text went into the index.
    pub open spec fn with_text(self) -> Entry {
        Entry { indexed: true, ..self }
    }

    /// After its file was not found where it was.
    pub open spec fn lost(self) -> Entry {
        Entry { missing: true, ..self }
    }
}

/// What a store knows of a book: its record, or that of a book not seen before.
pub open spec fn known_as(found: Option<Record>, hash: Seq<char>) -> Entry {
    match found {
        Some(r) => r@,
        None => Entry::blank(hash),
    }
}

/// The record of a book that nothing is known of yet.
fn blank(hash: &str) -> (r: Record)
    ensures
        r@ == Entry::blank(hash@),
{
    let r = Record {
        hash: owned(hash),
        path: String::new(),
        title: String::new(),
        author: String::new(),
        cover: None,
        managed: false,
        missing: false,
        place: None,
        progress: 0,
        opened_at: None,
        added_at: None,
        indexed: false,
    };
    assert(r@ =~= Entry::blank(hash@));
    r
}

/// Store a place in a book, with the path and the title it has now.
pub fn save_progress(
    found: Option<Record>,
    hash: &str,
    path: &str,
    title: &str,
    cfi: &str,
    progress: u32,
    now: u64,
) -> (r: Record)
    ensures
        r@ == known_as(found, hash@).read_to(path@, title@, cfi@, progress, now),
{
    let before = match found {
        Some(r) => r,
        None => blank(hash),
    };
    let r = Record {
        path: owned(path),
        title: owned(title),
        place: Some(owned(cfi)),
        progress,
        opened_at: Some(now),
        ..before
    };
    assert(r@ =~= known_as(found, hash@).read_to(path@, title@, cfi@, progress, now));
    r
}

/// Insert or refresh a book's catalogue entry. Reading progress is left alone:
/// re-indexing a book must never lose your place.
pub fn upsert_book(found: Option<Record>, b: BookRow, now: u64) -> (r: Record)
    ensures
        r@ == known_as(found, b.hash@).described(found is Some, b, now),
{
    let known = found.is_some();
    let before = match found {
        Some(r) => r,
        None => blank(b.hash.as_str()),
    };
    let r = Record {
        path: b.path,
        title: b.title,
        author: b.author,
        cover: match b.cover {
            Some(c) => Some(c),
            None => before.cover,
        },
        managed: before.managed || b.managed,
        missing: false,
        added_at: if known {
            before.added_at
        } else {
            Some(now)
        },
        ..before
    };
    assert(r@ =~= known_as(found, b.hash@).described(found is Some, b, now));
    r
}

/// Note that a book's text is in the index.
pub fn mark_indexed(r: Record) -> (n: Record)
    ensures
        n@ == r@.with_text(),
{
    Record { indexed: true, ..r }
}

/// Flag a record whose file is gone; one whose file is there is not touched.
/// Ghost rows keep their reading progress rather than being deleted.
pub fn mark_missing(r: Record, present: bool) -> (n: Record)
    ensures
        n@ == if present {
            r@
        } else {
            r@.lost()
        },
{
    if present {
        r
    } else {
        Record { missing: true, ..r }
    }
}

/// Where the reader left off in a book, if it was ever read.
pub fn last_cfi(found: &Option<Record>) -> (r: Option<String>)
    ensures
        text_in(r) == match *found {
            Some(k) => k@.place,
            None => None,
        },
{
    match found {
        Some(k) => match &k.place {
            Some(p) => Some(owned(p.as_str())),
            None => None,
        },
        None => None,
    }
}

/// Is a book's text in the index?
pub fn is_indexed(found: &Option<Record>) -> (r: bool)
    ensures
        r == (*found matches Some(k) && k.indexed),
{
    match found {
        Some(k) => k.indexed,
        None => false,
    }
}

/// Does a row of the shelf show a record and its tags?
pub open spec fn shows(row: BookRow, r: Record, tags: Vec<String>) -> bool {
    &&& row.hash == r.hash && row.path == r.path && row.title == r.title && row.author == r.author
    &&& row.cover == r.cover && row.has_cover == (r.cover is Some)
    &&& row.managed == r.managed && row.missing == r.missing
    &&& row.started == (r.place is Some)
    &&& row.progress == r.progress && row.tags == tags
}

/// A record as the shelf shows it, with its tags.
pub fn row_of(r: Record, tags: Vec<String>) -> (row: BookRow)
    ensures
        shows(row, r, tags),
{
    let has_cover = r.cover.is_some();
    let started = r.place.is_some();
    BookRow {
        hash: r.hash,
        path: r.path,
        title: r.title,
        author: r.author,
        cover: r.cover,
        has_cover,
        managed: r.managed,
        missing: r.missing,
        started,
        progress: r.progress,
        tags,
    }
}

/// Is a catalogued book to be indexed: is its file there, and its text not yet
/// in the index?
pub fn wants_index(r: &Record) -> (w: bool)
    ensures
        w == (!r.missing && !r.indexed),
{
    !r.missing && !r.indexed
}

/// What is indexed of some chapters: those that could be read, each under its
/// own number.
pub open spec fn texts(chapters: Seq<Option<String>>) -> Seq<(int, Seq<char>)>
    decreases chapters.len(),
{
    if chapters.len() == 0 {
        seq![]
    } else {
        match chapters.last() {
            Some(html) => texts(chapters.drop_last()).push((chapters.len() - 1, prose(html@))),
            None => texts(chapters.drop_last()),
        }
    }
}

pub open spec fn plain_texts(v: Seq<(usize, String)>) -> Seq<(int, Seq<char>)> {
    v.map_values(|t: (usize, String)| (t.0 as int, t.1@))
}

/// The text of a book's chapters, taken from their markup as it was read, and
/// how many of them have any. A chapter that could not be read is passed over.
pub fn index_book(chapters: &Vec<Option<String>>) -> (r: (Vec<(usize, String)>, usize))
    ensures
        plain_texts(r.0@) == texts(chapters@),
        r.1 == count_indexed(r.0@),
{
    let mut out: Vec<(usize, String)> = Vec::new();
    let mut i: usize = 0;
    assert(chapters@.take(0) =~= seq![]);
    assert(plain_texts(out@) =~= seq![]);
    while i < chapters.len()
        invariant
            i <= chapters.len(),
            plain_texts(out@) == texts(chapters@.take(i as int)),
        decreases chapters.len() - i,
    {
        proof {
            assert(chapters@.take(i + 1).drop_last() =~= chapters@.take(i as int));
            assert(chapters@.take(i + 1).last() == chapters@[i as int]);
        }
        let ghost before = out@;
        if let Some(html) = &chapters[i] {
            out.push((i, text_of_html(html.as_str())));
            assert(plain_texts(out@) =~= plain_texts(before).push((i as int, prose(html@))));
        }
        i = i + 1;
    }
    assert(chapters@.take(i as int) =~= chapters@);
    let n: usize = indexed_chapters(&out);
    (out, n)
}

/// What is to be done with a book that is opened from outside the library.
#[derive(Debug, Clone, Copy, PartialEq, Eq, Structural)]
pub enum Copying {
    /// The copy is there already, or is the file itself.
    Keep,
    /// Copy the file to the place it has in the library.
    Copy,
    /// Another book has that place: the file stays where it is.
    Leave,
}

/// What is to be done with the file at `path`, whose place is `dest`.
pub open spec fn copying_to(path: Seq<char>, dest: Seq<char>, present: Option<bool>) -> Copying {
    if path == dest {
        Copying::Keep
    } else {
        match present {
            None => Copying::Copy,
            Some(true) => Copying::Keep,
            Some(false) => Copying::Leave,
        }
    }
}

/// Is the file at `path` to be copied to `dest`? Never over a file that is there.
/// `present` says whether one is, and if so whether it is this book.
pub fn copying(path: &str, dest: &str, present: Option<bool>) -> (r: Copying)
    ensures
        r == copying_to(path@, dest@, present),
{
    if equal(path, dest) {
        return Copying::Keep;
    }
    match present {
        None => Copying::Copy,
        Some(true) => Copying::Keep,
        Some(false) => Copying::Leave,
    }
}

/// Is the library's copy this book, when `done` says whether it was copied?
pub open spec fn has_copy(how: Copying, done: bool) -> bool {
    match how {
        Copying::Keep => true,
        Copying::Copy => done,
        Copying::Leave => false,
    }
}

/// The file that an import opens.
pub open spec fn opened(row: BookRow, library: Seq<char>, how: Copying, done: bool) -> Seq<char> {
    if has_copy(how, done) {
        path_in(library, canonical(row.author@, row.title@))
    } else {
        row.path@
    }
}

/// What an import catalogues and which file is opened: the library's copy where
/// it is this book, else the file it came from. `done` says whether a copy that
/// was asked for was made.
pub fn import(row: BookRow, library: &str, how: Copying, done: bool) -> (r: (BookRow, String))
    ensures
        r.0.path@ == r.1@,
        r.1@ == opened(row, library@, how, done),
        r.0.managed == (has_copy(how, done) || row.managed),
        r.0.hash == row.hash && r.0.title == row.title && r.0.author == row.author,
        r.0.cover == row.cover && r.0.has_cover == row.has_cover,
        r.0.missing == row.missing && r.0.started == row.started,
        r.0.progress == row.progress && r.0.tags == row.tags,
{
    let copied = match how {
        Copying::Keep => true,
        Copying::Copy => done,
        Copying::Leave => false,
    };
    if copied {
        let dest = library_copy(library, row.author.as_str(), row.title.as_str());
        let opened = owned(dest.as_str());
        (BookRow { path: dest, managed: true, ..row }, opened)
    } else {
        let opened = owned(row.path.as_str());
        (row, opened)
    }
}

/// An import opens the file it was given, or a file in the library that is that
/// book: never another book's that has its place.
pub proof fn law_an_import_never_opens_another_book(
    row: BookRow,
    library: Seq<char>,
    present: Option<bool>,
    done: bool,
)
    ensures
        ({
            let dest = path_in(library, canonical(row.author@, row.title@));
            let how = copying_to(row.path@, dest, present);
            let file = opened(row, library, how, done);
            &&& file == row.path@ || file == dest && (present == Some(true) || present is None && done)
            &&& how is Copy ==> present is None && row.path@ != dest
        }),
{
}

/// A place that was stored is the place that is read back, whatever was stored
/// before.
pub proof fn law_a_stored_place_is_read_back(
    e: Entry,
    path: Seq<char>,
    title: Seq<char>,
    place: Seq<char>,
    progress: u32,
    now: u64,
)
    ensures
        e.read_to(path, title, place, progress, now).place == Some(place),
        e.read_to(path, title, place, progress, now).progress == progress,
        e.read_to(path, title, place, progress, now).hash == e.hash,
{
}

/// Describing a book again, finding it in another folder, indexing its text and
/// losing its file all keep the reader's place and the book's identity.
pub proof fn law_the_catalogue_never_loses_a_place(e: Entry, row: BookRow, now: u64)
    ensures
        e.described(true, row, now).place == e.place,
        e.described(true, row, now).progress == e.progress,
        e.described(true, row, now).hash == e.hash,
        e.described(true, row, now).opened_at == e.opened_at,
        e.with_text().place == e.place,
        e.lost().place == e.place,
        e.lost().hash == e.hash,
{
}

/// A book whose file comes back is no longer missing, and is as it was: a file
/// that went and was described again at its old path differs in nothing.
pub proof fn law_a_ghost_comes_back_whole(e: Entry, row: BookRow, now: u64)
    requires
        row.path@ == e.path,
        row.title@ == e.title,
        row.author@ == e.author,
        row.cover is None || bytes_in(row.cover) == e.cover,
        row.managed ==> e.managed,
        !e.missing,
    ensures
        e.lost().described(true, row, now) == e,
{
    assert(e.lost().described(true, row, now) =~= e);
}

/// Cataloguing the same book twice is cataloguing it once.
pub proof fn law_cataloguing_again_changes_nothing(
    e: Entry,
    known: bool,
    row: BookRow,
    now: u64,
    later: u64,
)
    ensures
        e.described(known, row, now).described(true, row, later) == e.described(known, row, now),
{
    assert(e.described(known, row, now).described(true, row, later) =~= e.described(
        known,
        row,
        now,
    ));
}

/// Reading a book says nothing of its author, its cover, its copy or its index.
pub proof fn law_reading_leaves_the_description_alone(
    e: Entry,
    path: Seq<char>,
    title: Seq<char>,
    place: Seq<char>,
    progress: u32,
    now: u64,
)
    ensures
        e.read_to(path, title, place, progress, now).author == e.author,
        e.read_to(path, title, place, progress, now).cover == e.cover,
        e.read_to(path, title, place, progress, now).managed == e.managed,
        e.read_to(path, title, place, progress, now).missing == e.missing,
        e.read_to(path, title, place, progress, now).added_at == e.added_at,
        e.read_to(path, title, place, progress, now).indexed == e.indexed,
{
}

/// Every chapter that could be read is indexed, under its own number.
pub proof fn law_every_readable_chapter_is_indexed(chapters: Seq<Option<String>>, i: int)
    requires
        0 <= i < chapters.len(),
    ensures
        chapters[i] matches Some(html) ==> texts(chapters).contains((i, prose(html@))),
    decreases chapters.len(),
{
    let front = chapters.drop_last();
    if i < front.len() {
        law_every_readable_chapter_is_indexed(front, i);
        if let Some(html) = chapters[i] {
            assert(front[i] == chapters[i]);
            let k = choose|k: int|
                0 <= k < texts(front).len() && texts(front)[k] == (i, prose(html@));
            assert(texts(chapters)[k] == (i, prose(html@)));
        }
    } else if let Some(html) = chapters[i] {
        let t = texts(chapters);
        assert(t[t.len() - 1] == (i, prose(html@)));
    }
}

} // verus!
