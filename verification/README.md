# Omaread

An EPUB reader: paginated, hermetic, with a library, marks, tags and full-text
search.

- `src/` is the library, every item of it verified with Verus: pagination,
  positions (EPUB CFI), search, hyphenation, styling, the markup of every view,
  the catalogue's rules, and the decisions of the reading window. Lengths are
  whole thousandths of a CSS pixel, scales and progress thousandths, times
  milliseconds.
- `app/` is the program around it: the window, the layout engine, the disk and
  SQLite. An event goes to `omaread::reader::Reader`, which answers with actions;
  the program performs them.
- `tests/` runs the library, together with the crates it calls.

What the proofs take on trust is marked where it stands: Unicode's letter tables
and case mappings, UTF-8 decoding, hyphenation patterns, SHA-256, and the image
codecs.

The reading faces are read from `assets/fonts` beside the program, or from the
directory that `OMAREAD_FONTS` names.
