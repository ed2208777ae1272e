//! The catalogue: what a book row holds, how it is found and how a book is told
//! apart from another.
//!
//! Books are identified by SHA-256 so progress survives a rename or a move.
use crate::marks::{completing_tag, fold_tag, tag_prefix, tag_text};
use crate::search::{fts_query, match_expression, search_terms};
use crate::text::{chars_of, lowercase, owned, to_lowercase, to_uppercase, trim, trimmed, uppercase};
use vstd::prelude::*;

verus! {

/// How the library is ordered.
#[derive(Debug, Clone, Copy, PartialEq, Eq, Structural)]
pub enum Sort {
    Recent,
    Title,
    Author,
}

impl Sort {
    /// The order after this one: Recent, Title, Author and round again.
    pub open spec fn following(self) -> Sort {
        match self {
            Sort::Recent => Sort::Title,
            Sort::Title => Sort::Author,
            Sort::Author => Sort::Recent,
        }
    }

    pub fn next(self) -> (r: Self)
        ensures
            r == self.following(),
    {
        match self {
            Sort::Recent => Sort::Title,
            Sort::Title => Sort::Author,
            Sort::Author => Sort::Recent,
        }
    }

    pub open spec fn name(self) -> Seq<char> {
        match self {
            Sort::Recent => "Recent"@,
            Sort::Title => "Title"@,
            Sort::Author => "Author"@,
        }
    }

    pub fn label(self) -> (r: &'static str)
        ensures
            r@ == self.name(),
    {
        match self {
            Sort::Recent => "Recent",
            Sort::Title => "Title",
            Sort::Author => "Author",
        }
    }

    /// The SQL ordering: newest read first unless the order says otherwise.
    pub open spec fn clause(self) -> Seq<char> {
        match self {
            Sort::Recent => "coalesce(opened_at, added_at) DESC"@,
            Sort::Title => "title COLLATE NOCASE ASC"@,
            Sort::Author => "author COLLATE NOCASE ASC, title COLLATE NOCASE ASC"@,
        }
    }

    fn order(self) -> (r: &'static str)
        ensures
            r@ == self.clause(),
    {
        match self {
            Sort::Recent => "coalesce(opened_at, added_at) DESC",
            Sort::Title => "title COLLATE NOCASE ASC",
            Sort::Author => "author COLLATE NOCASE ASC, title COLLATE NOCASE ASC",
        }
    }
}

/// Changing the order three times leads back to the first.
pub proof fn law_orders_come_round(s: Sort)
    ensures
        s.following() != s,
        s.following().following() != s,
        s.following().following().following() == s,
{
}

/// A book in the catalogue.
#[derive(Debug, Clone)]
pub struct BookRow {
    pub hash: String,
    pub path: String,
    pub title: String,
    pub author: String,
    pub cover: Option<Vec<u8>>,
    pub has_cover: bool,
    pub managed: bool,
    pub missing: bool,
    pub started: bool,
    /// How far through the book the reader is, in thousandths.
    pub progress: u32,
    pub tags: Vec<String>,
}

impl Default for BookRow {
    fn default() -> (r: Self)
        ensures
            r.hash@.len() == 0 && r.path@.len() == 0 && r.title@.len() == 0 && r.author@.len() == 0,
            r.cover is None && !r.has_cover && !r.managed && !r.missing && !r.started,
            r.progress == 0 && r.tags@.len() == 0,
    {
        BookRow {
            hash: String::new(),
            path: String::new(),
            title: String::new(),
            author: String::new(),
            cover: None,
            has_cover: false,
            managed: false,
            missing: false,
            started: false,
            progress: 0,
            tags: Vec::new(),
        }
    }
}

/// One full-text hit: which spine item, and enough words around the match to
/// recognise it in a list.
#[derive(Debug, Clone)]
pub struct Hit {
    pub spine: usize,
    pub snippet: String,
}

/// What a row of the catalogue is made of.
pub const COLUMNS: &'static str = "SELECT file_hash, file_path, title, author, cover, managed, missing,
                    last_cfi IS NOT NULL
             FROM books
             WHERE (";

/// Books by what their title or author holds.
pub const NAMED: &'static str = "?1 = '%%' OR title LIKE ?1 ESCAPE '\\' OR author LIKE ?1 ESCAPE '\\'
                OR title GLOB ?2 OR author GLOB ?2";

/// Books by what their text holds.
pub const FULL_TEXT: &'static str =
    " OR file_hash IN (SELECT file_hash FROM chapters WHERE chapters MATCH ?3)";

/// Books by a tag.
pub const TAGGED: &'static str = "file_hash IN (SELECT file_hash FROM tags WHERE tag = ?1)";

pub const ORDER_BY: &'static str = ")
             ORDER BY ";

/// A character that means something in a pattern.
pub open spec fn wild(c: char) -> bool {
    c == '%' || c == '_' || c == '\\'
}

/// A text as it stands in a pattern: a backslash before each character that would
/// mean something else.
pub open spec fn literal(s: Seq<char>) -> Seq<char>
    decreases s.len(),
{
    if s.len() == 0 {
        s
    } else if wild(s.last()) {
        literal(s.drop_last()).push('\\').push(s.last())
    } else {
        literal(s.drop_last()).push(s.last())
    }
}

/// Appends a text as it stands in a pattern.
fn push_literal(out: &mut String, s: &[char])
    ensures
        final(out)@ == old(out)@ + literal(s@),
{
    let ghost start = out@;
    let mut i: usize = 0;
    assert(s@.take(0) =~= seq![]);
    assert(start + literal(s@.take(0)) =~= start);
    while i < s.len()
        invariant
            i <= s.len(),
            out@ == start + literal(s@.take(i as int)),
        decreases s.len() - i,
    {
        let ghost before = out@;
        proof {
            assert(s@.take(i + 1).drop_last() =~= s@.take(i as int));
            assert(s@.take(i + 1).last() == s@[i as int]);
        }
        let c = s[i];
        if c == '%' || c == '_' || c == '\\' {
            out.push('\\');
        }
        out.push(c);
        assert(out@ =~= start + literal(s@.take(i + 1)));
        i = i + 1;
    }
    assert(s@.take(i as int) =~= s@);
}

/// A text as it stands in a pattern.
pub fn escape_like(text: &str) -> (r: String)
    ensures
        r@ == literal(text@),
{
    let mut out = String::new();
    push_literal(&mut out, &chars_of(text));
    assert(Seq::<char>::empty() + literal(text@) =~= literal(text@));
    out
}

/// The pattern for a substring of a title or an author.
pub open spec fn like_pattern(query: Seq<char>) -> Seq<char> {
    "%"@ + literal(trimmed(query)) + "%"@
}

/// Does a character have no case?
pub open spec fn caseless(c: char) -> bool {
    lowercase(c) == seq![c] && uppercase(c) == seq![c]
}

/// A mapping of a character to one character.
pub open spec fn single(mapped: Seq<char>) -> Seq<char> {
    if mapped.len() == 1 {
        mapped
    } else {
        seq![]
    }
}

/// A character as it is sought: in either case, and as nothing but itself.
pub open spec fn class_of(c: char) -> Seq<char> {
    if !caseless(c) {
        seq!['[', c] + single(lowercase(c)) + single(uppercase(c)) + seq![']']
    } else if c == '*' || c == '?' || c == '[' {
        seq!['[', c, ']']
    } else {
        seq![c]
    }
}

/// A text as it is sought in either case.
pub open spec fn classes(s: Seq<char>) -> Seq<char>
    decreases s.len(),
{
    if s.len() == 0 {
        s
    } else {
        classes(s.drop_last()) + class_of(s.last())
    }
}

/// The pattern for a substring of a title or an author in either case, letters
/// beyond the unaccented ones included.
pub open spec fn glob_pattern(query: Seq<char>) -> Seq<char> {
    "*"@ + classes(trimmed(query)) + "*"@
}

/// Appends a character as it is sought.
fn push_class(out: &mut String, c: char)
    ensures
        final(out)@ == old(out)@ + class_of(c),
{
    let ghost before = out@;
    let low = to_lowercase(c);
    let up = to_uppercase(c);
    let plain = low.len() == 1 && up.len() == 1 && low[0] == c && up[0] == c;
    proof {
        if plain {
            assert(low@ =~= seq![c]);
            assert(up@ =~= seq![c]);
        }
        assert(plain == caseless(c));
    }
    if plain {
        if c == '*' || c == '?' || c == '[' {
            out.push('[');
            out.push(c);
            out.push(']');
        } else {
            out.push(c);
        }
    } else {
        out.push('[');
        out.push(c);
        if low.len() == 1 {
            out.push(low[0]);
            assert(low@ =~= seq![low@[0]]);
        }
        if up.len() == 1 {
            out.push(up[0]);
            assert(up@ =~= seq![up@[0]]);
        }
        out.push(']');
    }
    assert(out@ =~= before + class_of(c));
}

/// Appends a text as it is sought in either case.
fn push_classes(out: &mut String, s: &[char])
    ensures
        final(out)@ == old(out)@ + classes(s@),
{
    let ghost start = out@;
    let mut i: usize = 0;
    assert(s@.take(0) =~= seq![]);
    assert(start + classes(s@.take(0)) =~= start);
    while i < s.len()
        invariant
            i <= s.len(),
            out@ == start + classes(s@.take(i as int)),
        decreases s.len() - i,
    {
        proof {
            assert(s@.take(i + 1).drop_last() =~= s@.take(i as int));
            assert(s@.take(i + 1).last() == s@[i as int]);
        }
        push_class(out, s[i]);
        assert(out@ =~= start + classes(s@.take(i + 1)));
        i = i + 1;
    }
    assert(s@.take(i as int) =~= s@);
}

/// A letter is sought in either case, whichever was typed.
pub proof fn law_letters_are_sought_in_either_case(c: char)
    requires
        !caseless(c),
    ensures
        class_of(c).contains(c),
        lowercase(c).len() == 1 ==> class_of(c).contains(lowercase(c)[0]),
        uppercase(c).len() == 1 ==> class_of(c).contains(uppercase(c)[0]),
{
    let class = class_of(c);
    assert(class[1] == c);
    if lowercase(c).len() == 1 {
        assert(class[2] == lowercase(c)[0]);
    }
    if uppercase(c).len() == 1 {
        let k = 2 + single(lowercase(c)).len() as int;
        assert(class[k] == uppercase(c)[0]);
    }
}

/// The text that a pattern stands for, where it stands for one alone.
pub open spec fn meant(pattern: Seq<char>) -> Option<Seq<char>>
    decreases pattern.len(),
{
    if pattern.len() == 0 {
        Some(pattern)
    } else if pattern[0] == '\\' && pattern.len() > 1 {
        match meant(pattern.skip(2)) {
            Some(rest) => Some(seq![pattern[1]] + rest),
            None => None,
        }
    } else if wild(pattern[0]) {
        None
    } else {
        match meant(pattern.skip(1)) {
            Some(rest) => Some(seq![pattern[0]] + rest),
            None => None,
        }
    }
}

proof fn lemma_literal_first(s: Seq<char>)
    requires
        s.len() > 0,
    ensures
        literal(s) == literal(seq![s[0]]) + literal(s.skip(1)),
    decreases s.len(),
{
    if s.len() == 1 {
        assert(s =~= seq![s[0]]);
        assert(s.skip(1) =~= seq![]);
        assert(literal(s) =~= literal(s) + literal(s.skip(1)));
    } else {
        let front = s.drop_last();
        lemma_literal_first(front);
        assert(front[0] == s[0]);
        assert(s.skip(1).drop_last() =~= front.skip(1));
        assert(s.skip(1).last() == s.last());
        assert(literal(s) =~= literal(seq![s[0]]) + literal(s.skip(1)));
    }
}

/// What is typed stands for itself in a pattern, percent signs and all.
pub proof fn law_typed_text_stands_for_itself(s: Seq<char>)
    ensures
        meant(literal(s)) == Some(s),
    decreases s.len(),
{
    if s.len() > 0 {
        lemma_literal_first(s);
        let first = seq![s[0]];
        let rest = s.skip(1);
        law_typed_text_stands_for_itself(rest);
        assert(first.drop_last() =~= seq![]);
        assert(literal(seq![]) =~= seq![]);
        if wild(s[0]) {
            assert(literal(first) =~= seq!['\\', s[0]]);
            assert(literal(s).skip(2) =~= literal(rest));
        } else {
            assert(literal(first) =~= first);
            assert(literal(s).skip(1) =~= literal(rest));
        }
        assert(first + rest =~= s);
    }
}

/// The statement that lists books by what was typed, with the full-text clause or
/// without.
pub open spec fn select_books(sort: Sort, full_text: bool) -> Seq<char> {
    COLUMNS@ + NAMED@ + (if full_text {
        FULL_TEXT@
    } else {
        seq![]
    }) + ORDER_BY@ + sort.clause()
}

/// The statement that lists the books with a tag.
pub open spec fn select_tagged(sort: Sort) -> Seq<char> {
    COLUMNS@ + TAGGED@ + ORDER_BY@ + sort.clause()
}

/// The query that lists books: those whose title or author holds what was typed,
/// and those whose text matches it, in the order of `sort`. What is typed behind
/// a hash is a tag, and lists the books that have it.
///
/// The full-text clause is only there when there is something to match, because
/// MATCH against nothing is an error rather than an empty result; its parameter
/// is then the third argument.
pub fn books_query(query: &str, sort: Sort) -> (r: (String, Vec<String>))
    ensures
        match tag_prefix(None, query@) {
            Some(tag) => {
                &&& r.0@ == select_tagged(sort)
                &&& r.1@.len() == 1
                &&& r.1@[0]@ == tag_text(tag)
            },
            None => {
                &&& r.0@ == select_books(sort, search_terms(query@).len() > 0)
                &&& r.1@.len() == if search_terms(query@).len() > 0 {
                    3int
                } else {
                    2int
                }
                &&& r.1@[0]@ == like_pattern(query@)
                &&& r.1@[1]@ == glob_pattern(query@)
                &&& search_terms(query@).len() > 0 ==> r.1@[2]@ == match_expression(
                    search_terms(query@),
                )
            },
        },
{
    let mut args: Vec<String> = Vec::new();
    let mut sql = owned(COLUMNS);
    if let Some(tag) = completing_tag(None, query) {
        args.push(fold_tag(tag.as_str()));
        sql.append(TAGGED);
        sql.append(ORDER_BY);
        sql.append(sort.order());
        return (sql, args);
    }
    let typed = chars_of(query);
    let mut like = owned("%");
    push_literal(&mut like, trim(&typed));
    like.append("%");
    args.push(like);
    let mut glob = owned("*");
    push_classes(&mut glob, trim(&typed));
    glob.append("*");
    args.push(glob);
    sql.append(NAMED);
    if let Some(fts) = fts_query(query) {
        sql.append(FULL_TEXT);
        args.push(fts);
    }
    sql.append(ORDER_BY);
    sql.append(sort.order());
    proof {
        assert(sql@ =~= select_books(sort, search_terms(query@).len() > 0));
    }
    (sql, args)
}

/// Is there anything in a text to index?
pub fn worth_indexing(text: &str) -> (r: bool)
    ensures
        r == (trimmed(text@).len() > 0),
{
    let chars = chars_of(text);
    trim(&chars).len() > 0
}

/// How many of some chapters have anything to index.
pub open spec fn count_indexed(chapters: Seq<(usize, String)>) -> nat
    decreases chapters.len(),
{
    if chapters.len() == 0 {
        0
    } else {
        count_indexed(chapters.drop_last()) + if trimmed(chapters.last().1@).len() > 0 {
            1nat
        } else {
            0nat
        }
    }
}

/// How many of a book's chapters go into the index.
pub fn indexed_chapters(chapters: &Vec<(usize, String)>) -> (n: usize)
    ensures
        n == count_indexed(chapters@),
        n <= chapters.len(),
{
    let mut n: usize = 0;
    let mut i: usize = 0;
    assert(chapters@.take(0) =~= seq![]);
    while i < chapters.len()
        invariant
            i <= chapters.len(),
            n <= i,
            n == count_indexed(chapters@.take(i as int)),
        decreases chapters.len() - i,
    {
        proof {
            assert(chapters@.take(i + 1).drop_last() =~= chapters@.take(i as int));
        }
        if worth_indexing(chapters[i].1.as_str()) {
            n = n + 1;
        }
        i = i + 1;
    }
    assert(chapters@.take(i as int) =~= chapters@);
    n
}

/// `name` inside the directory `dir`.
pub open spec fn path_in(dir: Seq<char>, name: Seq<char>) -> Seq<char> {
    if dir.len() == 0 || (name.len() > 0 && name[0] == '/') {
        name
    } else if dir.last() == '/' {
        dir + name
    } else {
        dir + "/"@ + name
    }
}

/// `name` inside the directory `dir`.
pub fn join_path(dir: &str, name: &str) -> (r: String)
    ensures
        r@ == path_in(dir@, name@),
{
    let d = chars_of(dir);
    let n = chars_of(name);
    if d.len() == 0 || (n.len() > 0 && n[0] == '/') {
        return owned(name);
    }
    let mut out = owned(dir);
    if d[d.len() - 1] != '/' {
        out.append("/");
    }
    out.append(name);
    out
}

/// The user's directory of one kind: the one named for it, else the usual one
/// under the home directory, else the working directory.
pub open spec fn user_dir(named: Option<&str>, home: Option<&str>, usual: Seq<char>) -> Seq<char> {
    match named {
        Some(d) => d@,
        None => match home {
            Some(h) => path_in(h@, usual),
            None => "."@,
        },
    }
}

pub fn find_user_dir(named: Option<&str>, home: Option<&str>, usual: &str) -> (r: String)
    ensures
        r@ == user_dir(named, home, usual@),
{
    match named {
        Some(d) => owned(d),
        None => match home {
            Some(h) => join_path(h, usual),
            None => owned("."),
        },
    }
}

/// Where the database is kept: `omaread` in the user's data directory.
/// `data_home` and `home` are what the environment says.
pub fn data_dir(data_home: Option<&str>, home: Option<&str>) -> (r: String)
    ensures
        r@ == path_in(user_dir(data_home, home, ".local/share"@), "omaread"@),
{
    let base = find_user_dir(data_home, home, ".local/share");
    join_path(base.as_str(), "omaread")
}

/// Where copied books live. Watched folders are never written to.
pub fn library_dir(data_home: Option<&str>, home: Option<&str>) -> (r: String)
    ensures
        r@ == path_in(
            path_in(user_dir(data_home, home, ".local/share"@), "omaread"@),
            "library"@,
        ),
{
    let data = data_dir(data_home, home);
    join_path(data.as_str(), "library")
}

/// The SHA-256 of some bytes.
pub uninterp spec fn sha256(bytes: Seq<u8>) -> Seq<u8>;

/// `Sha256::digest`: the SHA-256 of the bytes, 32 bytes. Nothing is said of which
/// they are.
#[verifier::external_body]
fn digest(bytes: &[u8]) -> (r: Vec<u8>)
    ensures
        r@ == sha256(bytes@),
        r@.len() == 32,
{
    <sha2::Sha256 as sha2::Digest>::digest(bytes).to_vec()
}

/// The character of a hexadecimal digit.
pub open spec fn hex_digit(d: int) -> char {
    if d < 10 {
        ((48 + d) as u32) as char
    } else {
        ((87 + d) as u32) as char
    }
}

/// Two hexadecimal digits for each byte.
pub open spec fn hex(bytes: Seq<u8>) -> Seq<char>
    decreases bytes.len(),
{
    if bytes.len() == 0 {
        seq![]
    } else {
        hex(bytes.drop_last()) + seq![
            hex_digit(bytes.last() as int / 16),
            hex_digit(bytes.last() as int % 16),
        ]
    }
}

fn to_hex_digit(d: u8) -> (c: char)
    requires
        d < 16,
    ensures
        c == hex_digit(d as int),
{
    if d < 10 {
        (48 + d) as char
    } else {
        (87 + d) as char
    }
}

/// Two hexadecimal digits for each byte.
pub fn to_hex(bytes: &[u8]) -> (r: String)
    ensures
        r@ == hex(bytes@),
{
    let mut out = String::new();
    let mut i: usize = 0;
    assert(bytes@.take(0) =~= seq![]);
    assert(out@ =~= seq![]);
    while i < bytes.len()
        invariant
            i <= bytes.len(),
            out@ == hex(bytes@.take(i as int)),
        decreases bytes.len() - i,
    {
        proof {
            assert(bytes@.take(i + 1).drop_last() =~= bytes@.take(i as int));
        }
        let ghost before = out@;
        let b: u8 = bytes[i];
        out.push(to_hex_digit(b / 16));
        out.push(to_hex_digit(b % 16));
        assert(out@ =~= before + seq![hex_digit(b as int / 16), hex_digit(b as int % 16)]);
        i = i + 1;
    }
    assert(bytes@.take(i as int) =~= bytes@);
    out
}

/// The identity of a file: the SHA-256 of its bytes, in hexadecimal.
pub fn file_hash(bytes: &[u8]) -> (r: String)
    ensures
        r@ == hex(sha256(bytes@)),
        r@.len() == 64,
{
    let d = digest(bytes);
    proof {
        lemma_hex_len(d@);
    }
    to_hex(&d)
}

proof fn lemma_hex_len(bytes: Seq<u8>)
    ensures
        hex(bytes).len() == 2 * bytes.len(),
    decreases bytes.len(),
{
    if bytes.len() > 0 {
        lemma_hex_len(bytes.drop_last());
    }
}

/// Different bytes have different hexadecimal text, so two files share an
/// identity only where their digests are the same.
pub proof fn law_hex_tells_bytes_apart(a: Seq<u8>, b: Seq<u8>)
    ensures
        hex(a) == hex(b) <==> a == b,
    decreases a.len(),
{
    lemma_hex_len(a);
    lemma_hex_len(b);
    if hex(a) == hex(b) {
        if a.len() > 0 {
            let x = hex(a);
            let n = x.len() as int;
            let fa = hex(a.drop_last());
            let fb = hex(b.drop_last());
            lemma_hex_len(a.drop_last());
            lemma_hex_len(b.drop_last());
            assert(fa =~= x.take(n - 2));
            assert(fb =~= hex(b).take(n - 2));
            assert(x[n - 2] == hex_digit(a.last() as int / 16));
            assert(x[n - 1] == hex_digit(a.last() as int % 16));
            assert(hex(b)[n - 2] == hex_digit(b.last() as int / 16));
            assert(hex(b)[n - 1] == hex_digit(b.last() as int % 16));
            lemma_hex_digit(a.last() as int / 16, b.last() as int / 16);
            lemma_hex_digit(a.last() as int % 16, b.last() as int % 16);
            law_hex_tells_bytes_apart(a.drop_last(), b.drop_last());
            assert(a =~= a.drop_last().push(a.last()));
            assert(b =~= b.drop_last().push(b.last()));
        } else {
            assert(a =~= b);
        }
    }
}

proof fn lemma_hex_digit(x: int, y: int)
    requires
        0 <= x < 16,
        0 <= y < 16,
        hex_digit(x) == hex_digit(y),
    ensures
        x == y,
{
    let p = hex_digit(x) as u32;
    let q = hex_digit(y) as u32;
    assert(p == if x < 10 { 48 + x } else { 87 + x });
    assert(q == if y < 10 { 48 + y } else { 87 + y });
}

} // verus!
