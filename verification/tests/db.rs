use omaread::db::{
    books_query, data_dir, escape_like, file_hash, indexed_chapters, library_dir, to_hex, worth_indexing, Sort,
};
use omaread::search::fts_query;
use rusqlite::Connection;

/// A catalogue with three books, one of them tagged.
fn catalogue() -> Connection {
    let c = Connection::open_in_memory().unwrap();
    c.execute_batch(
        "CREATE TABLE books (file_hash TEXT PRIMARY KEY, file_path TEXT, title TEXT, author TEXT,
            cover BLOB, managed INTEGER DEFAULT 0, missing INTEGER DEFAULT 0, last_cfi TEXT,
            opened_at INTEGER, added_at INTEGER);
         CREATE TABLE tags (file_hash TEXT, tag TEXT);
         CREATE VIRTUAL TABLE chapters USING fts5(text, file_hash UNINDEXED, spine UNINDEXED,
            tokenize = 'unicode61 remove_diacritics 2');
         INSERT INTO books (file_hash, file_path, title, author, added_at) VALUES
            ('h1', '/a', 'Zeta', 'Borges', 1), ('h2', '/b', 'alfa', 'Zamora', 2),
            ('h3', '/c', 'Beta', 'Borges', 3);
         INSERT INTO tags VALUES ('h2', 'sci-fi');
         INSERT INTO chapters (text, file_hash, spine) VALUES ('La canción de la resonancia', 'h1', 0);",
    )
    .unwrap();
    c
}

fn listed(c: &Connection, query: &str, sort: Sort) -> Vec<String> {
    let (sql, args) = books_query(query, sort);
    let mut stmt = c.prepare(&sql).unwrap();
    let rows = stmt.query_map(rusqlite::params_from_iter(args), |r| r.get::<_, String>(0)).unwrap();
    rows.map(|r| r.unwrap()).collect()
}

#[test]
fn full_text_search_finds_words_and_ignores_accents() {
    let c = catalogue();
    assert_eq!(listed(&c, "cancion", Sort::Recent), ["h1"]);
    assert_eq!(listed(&c, "canción", Sort::Recent), ["h1"]);
    assert_eq!(listed(&c, "resonancia", Sort::Recent), ["h1"]);
    assert_eq!(listed(&c, "zzzznotaword", Sort::Recent).len(), 0);
    assert_eq!(fts_query("!!!"), None);
}

#[test]
fn what_is_typed_is_no_pattern() {
    let c = catalogue();
    for typed in ["_", "%", "\\", "a%a", "B_rges"] {
        assert_eq!(listed(&c, typed, Sort::Recent).len(), 0, "{typed}");
    }
    c.execute_batch("UPDATE books SET title = '100% a_b\\c' WHERE file_hash = 'h2'").unwrap();
    for typed in ["_", "%", "\\", "100%", "A_B\\"] {
        assert_eq!(listed(&c, typed, Sort::Recent), ["h2"], "{typed}");
    }
    assert_eq!(escape_like("100% a_b\\c"), "100\\% a\\_b\\\\c");
}

#[test]
fn titles_and_authors_are_found_in_either_case() {
    let c = catalogue();
    c.execute_batch(
        "UPDATE books SET title = 'MAÑANA', author = 'Álvaro Öst' WHERE file_hash = 'h1';
         UPDATE books SET title = '[a] *b* z? ^d]e' WHERE file_hash = 'h2';",
    )
    .unwrap();
    for typed in ["mañana", "MAÑANA", "Ña", "álvaro", "ÁLVARO ö", "öST"] {
        assert_eq!(listed(&c, typed, Sort::Recent), ["h1"], "{typed}");
    }
    for typed in ["[A]", "*B*", "z?", "^D]E", "[", "]", "^", "*", "?"] {
        assert_eq!(listed(&c, typed, Sort::Recent), ["h2"], "{typed}");
    }
    assert_eq!(listed(&c, "[q]", Sort::Recent).len(), 0);
}

#[test]
fn the_shelf_is_listed_in_order() {
    let c = catalogue();
    assert_eq!(listed(&c, "", Sort::Recent), ["h3", "h2", "h1"]);
    assert_eq!(listed(&c, "  ", Sort::Title), ["h2", "h3", "h1"]);
    assert_eq!(listed(&c, "", Sort::Author), ["h3", "h1", "h2"]);
    assert_eq!(listed(&c, "borg", Sort::Title), ["h3", "h1"]);
    assert_eq!(Sort::Author.next(), Sort::Recent);
    assert_eq!(Sort::Title.label(), "Title");
}

#[test]
fn a_hash_filters_by_tag() {
    let c = catalogue();
    for typed in ["#sci-fi", " #Sci Fi ", "#SCI-FI"] {
        assert_eq!(listed(&c, typed, Sort::Recent), ["h2"], "{typed}");
    }
    assert_eq!(listed(&c, "#sci", Sort::Recent).len(), 0);
}

#[test]
fn hash_is_stable_and_content_keyed() {
    assert_eq!(file_hash(b"hello"), file_hash(b"hello"));
    assert_ne!(file_hash(b"hello"), file_hash(b"world"));
    assert_eq!(
        file_hash(b"abc"),
        "ba7816bf8f01cfea414140de5dae2223b00361a396177a9cb410ff61f20015ad"
    );
    assert_eq!(to_hex(&[0, 15, 255]), "000fff");
}

#[test]
fn blank_chapters_are_not_indexed() {
    assert!(worth_indexing(" a "));
    assert!(!worth_indexing(" \n\t"));
    let chapters = vec![(0, "a".to_string()), (1, "  ".to_string()), (2, "b".to_string())];
    assert_eq!(indexed_chapters(&chapters), 2);
}

#[test]
fn data_is_where_the_user_keeps_it() {
    assert_eq!(data_dir(Some("/data"), Some("/home/me")), "/data/omaread");
    assert_eq!(library_dir(None, Some("/home/me")), "/home/me/.local/share/omaread/library");
    assert_eq!(data_dir(None, None), "./omaread");
}
