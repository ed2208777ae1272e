//! The library view, authored in HTML/CSS.
//!
//! The grid is a document rendered through the same pipeline as a book: one
//! layout engine, one paint path, one styling language.
use crate::db::{BookRow, Sort};
use crate::markup::{declared, DOCTYPE};
use crate::text::{chars_of, decimal, owned, push_count, string_of, trim, trimmed};
use vstd::prelude::*;
use vstd::seq_lib::lemma_multiset_commutative;
use vstd::slice::slice_subrange;

verus! {

/// Cover images resolve through this origin; the provider reads the blob out of
/// the database rather than touching the disk.
pub const COVER_ORIGIN: &'static str = "omaread-cover://cover/";

/// Card geometry, in px. About 1:1.55, the usual book proportion.
pub const COVER_W: u32 = 225;

pub const COVER_H: u32 = 348;

/// Every card is this tall, whatever its title says: the cover, the started
/// dot, two lines of title and the author line.
pub const CARD_H: u32 = COVER_H + 12 + 53 + 3 + 23;

/// Between cards, and at the sides of the page.
pub const GAP: u32 = 30;

pub const SIDE_PAD: u32 = 28;

/// A row holds no more than this however wide the window gets: past seven, a
/// shelf of covers turns into a contact sheet.
pub const MAX_PER_ROW: usize = 7;

/// Width the grid may occupy: `MAX_PER_ROW` cards and the gaps between them.
pub open spec fn grid_width_spec() -> nat {
    (MAX_PER_ROW * COVER_W + (MAX_PER_ROW - 1) * GAP) as nat
}

pub fn grid_width() -> (w: u32)
    ensures
        w == grid_width_spec(),
{
    MAX_PER_ROW as u32 * COVER_W + (MAX_PER_ROW as u32 - 1) * GAP
}

/// How many cards and gaps fit beside each other between the sides of a window,
/// at least one and at most `MAX_PER_ROW`. The width is in thousandths.
pub open spec fn cards_across(css_width: int) -> int {
    let n = (css_width - 2 * SIDE_PAD * 1000 + GAP * 1000) / ((COVER_W + GAP) * 1000);
    if n < 1 {
        1
    } else if n > MAX_PER_ROW {
        MAX_PER_ROW as int
    } else {
        n
    }
}

/// How many cards fit a window this wide, capped at `MAX_PER_ROW`.
///
/// The grid's own `max-width` is what actually enforces the cap; this is the
/// same arithmetic for arrow-key navigation. They have to agree, or the
/// selection steps onto a column that is not there.
pub fn per_row(css_width: i64) -> (n: usize)
    ensures
        n == cards_across(css_width as int),
        1 <= n <= MAX_PER_ROW,
{
    if css_width < 281_000 {
        return 1;
    }
    let n: i64 = (css_width - 26_000) / 255_000;
    if n > 7 {
        MAX_PER_ROW
    } else {
        n as usize
    }
}

/// A window wide enough for the grid's own width and its sides shows full rows;
/// a pixel less shows one card fewer.
pub proof fn law_rows_agree_with_the_grid_width()
    ensures
        cards_across(((grid_width_spec() + 2 * SIDE_PAD) * 1000) as int) == MAX_PER_ROW,
        cards_across(((grid_width_spec() + 2 * SIDE_PAD - 1) * 1000) as int) == MAX_PER_ROW - 1,
{
    assert(MAX_PER_ROW * COVER_W == 1575) by (nonlinear_arith)
        requires
            MAX_PER_ROW == 7,
            COVER_W == 225,
    ;
    assert((MAX_PER_ROW - 1) * GAP == 180) by (nonlinear_arith)
        requires
            MAX_PER_ROW == 7,
            GAP == 30,
    ;
    assert(grid_width_spec() == 1755);
    assert(1_785_000int / 255_000 == 7);
    assert(1_784_000int / 255_000 == 6);
}

/// A wider window never shows fewer cards in a row.
pub proof fn law_rows_grow_with_the_window(narrow: int, wide: int)
    requires
        narrow <= wide,
    ensures
        cards_across(narrow) <= cards_across(wide),
{
    let a = narrow - 26_000;
    let b = wide - 26_000;
    assert(a / 255_000 <= b / 255_000);
}

/// How a character is written in markup.
pub open spec fn escaped_char(c: char) -> Seq<char> {
    if c == '&' {
        "&amp;"@
    } else if c == '<' {
        "&lt;"@
    } else if c == '>' {
        "&gt;"@
    } else if c == '"' {
        "&quot;"@
    } else if c == '\'' {
        "&#39;"@
    } else {
        seq![c]
    }
}

/// How text is written in markup.
pub open spec fn escaped(s: Seq<char>) -> Seq<char>
    decreases s.len(),
{
    if s.len() == 0 {
        seq![]
    } else {
        escaped(s.drop_last()) + escaped_char(s.last())
    }
}

/// Appends text as it is written in markup.
pub fn push_escaped(out: &mut String, s: &[char])
    ensures
        final(out)@ == old(out)@ + escaped(s@),
{
    let ghost start = out@;
    let mut i: usize = 0;
    proof {
        assert(s@.take(0) =~= seq![]);
        assert(start + escaped(s@.take(0)) =~= start);
    }
    while i < s.len()
        invariant
            i <= s.len(),
            out@ == start + escaped(s@.take(i as int)),
        decreases s.len() - i,
    {
        let ghost before = out@;
        let c = s[i];
        proof {
            assert(s@.take(i + 1).drop_last() =~= s@.take(i as int));
        }
        if c == '&' {
            out.append("&amp;");
        } else if c == '<' {
            out.append("&lt;");
        } else if c == '>' {
            out.append("&gt;");
        } else if c == '"' {
            out.append("&quot;");
        } else if c == '\'' {
            out.append("&#39;");
        } else {
            out.push(c);
            assert(out@ =~= before + seq![c]);
        }
        assert(out@ =~= start + escaped(s@.take(i + 1)));
        i = i + 1;
    }
    assert(s@.take(i as int) =~= s@);
}

/// Text as it is written in markup.
pub fn escape(s: &str) -> (r: String)
    ensures
        r@ == escaped(s@),
{
    let chars = chars_of(s);
    let mut out = String::new();
    push_escaped(&mut out, &chars);
    assert(Seq::<char>::empty() + escaped(s@) =~= escaped(s@));
    out
}

/// Escaped text cannot inject markup: it holds no angle bracket and no quote, so
/// it can neither open a tag nor leave an attribute value.
pub proof fn law_escaped_text_is_inert(s: Seq<char>)
    ensures
        forall|i: int|
            0 <= i < escaped(s).len() ==> (#[trigger] escaped(s)[i]) != '<' && escaped(s)[i] != '>' && escaped(s)[i]
                != '"' && escaped(s)[i] != '\'',
    decreases s.len(),
{
    if s.len() > 0 {
        law_escaped_text_is_inert(s.drop_last());
        reveal_strlit("&amp;");
        reveal_strlit("&lt;");
        reveal_strlit("&gt;");
        reveal_strlit("&quot;");
        reveal_strlit("&#39;");
        let front = escaped(s.drop_last());
        let tail = escaped_char(s.last());
        assert forall|i: int| 0 <= i < escaped(s).len() implies (#[trigger] escaped(s)[i]) != '<' && escaped(s)[i]
            != '>' && escaped(s)[i] != '"' && escaped(s)[i] != '\'' by {
            if i < front.len() {
                assert(escaped(s)[i] == front[i]);
            } else {
                assert(escaped(s)[i] == tail[i - front.len()]);
            }
        }
    }
}

/// Text without any of the five marked characters is written as it is.
pub proof fn law_plain_text_is_not_changed(s: Seq<char>)
    requires
        forall|i: int|
            0 <= i < s.len() ==> (#[trigger] s[i]) != '&' && s[i] != '<' && s[i] != '>' && s[i] != '"' && s[i]
                != '\'',
    ensures
        escaped(s) == s,
    decreases s.len(),
{
    if s.len() > 0 {
        let front = s.drop_last();
        assert forall|i: int| 0 <= i < front.len() implies (#[trigger] front[i]) != '&' && front[i] != '<' && front[i]
            != '>' && front[i] != '"' && front[i] != '\'' by {
            assert(s[i] != '&');
        }
        law_plain_text_is_not_changed(front);
        assert(s[s.len() - 1] != '&');
        assert(front + seq![s.last()] =~= s);
    } else {
        assert(escaped(s) =~= s);
    }
}

/// The place of the last character `c`.
pub open spec fn last_spot(s: Seq<char>, c: char) -> Option<int>
    decreases s.len(),
{
    if s.len() == 0 {
        None
    } else if s.last() == c {
        Some(s.len() - 1)
    } else {
        last_spot(s.drop_last(), c)
    }
}

/// The place of the last character `c`.
pub fn find_last(s: &[char], c: char) -> (r: Option<usize>)
    ensures
        match r {
            Some(i) => last_spot(s@, c) == Some(i as int) && i < s@.len(),
            None => last_spot(s@, c) is None,
        },
{
    let mut n: usize = s.len();
    assert(s@.take(n as int) =~= s@);
    while n > 0
        invariant
            n <= s.len(),
            last_spot(s@, c) == last_spot(s@.take(n as int), c),
        decreases n,
    {
        if s[n - 1] == c {
            return Some(n - 1);
        }
        proof {
            assert(s@.take(n as int).drop_last() =~= s@.take(n - 1));
        }
        n = n - 1;
    }
    None
}

/// `s` if it has at most `max` characters; else as many, back to the last space
/// among them, and an ellipsis.
pub open spec fn shortened(s: Seq<char>, max: int) -> Seq<char> {
    if s.len() <= max {
        s
    } else {
        let cut = s.take(max);
        (match last_spot(cut, ' ') {
            Some(i) => cut.take(i),
            None => cut,
        }) + "…"@
    }
}

/// A card has room for two lines of title and one of author, so longer text is
/// cut back to a word boundary.
pub fn clamp(text: &str, max: usize) -> (r: String)
    ensures
        r@ == shortened(text@, max as int),
{
    let chars = chars_of(text);
    if chars.len() <= max {
        return owned(text);
    }
    let cut = slice_subrange(chars.as_slice(), 0, max);
    assert(cut@ =~= text@.take(max as int));
    let head = match find_last(cut, ' ') {
        Some(i) => {
            let h = slice_subrange(cut, 0, i);
            assert(h@ =~= cut@.take(i as int));
            h
        },
        None => cut,
    };
    let mut out = string_of(head);
    out.append("…");
    out
}

/// Shortened text has at most one character more than asked for, and is never
/// empty.
pub proof fn law_shortened_text_fits(s: Seq<char>, max: int)
    requires
        max >= 0,
        s.len() > 0,
    ensures
        0 < shortened(s, max).len() <= max + 1,
{
    reveal_strlit("…");
    lemma_last_spot(s.take(max), ' ');
}

pub proof fn lemma_last_spot(s: Seq<char>, c: char)
    ensures
        last_spot(s, c) matches Some(i) ==> 0 <= i < s.len() && s[i] == c && forall|j: int| i < j < s.len() ==> s[j] != c,
        last_spot(s, c) is None ==> forall|j: int| 0 <= j < s.len() ==> s[j] != c,
    decreases s.len(),
{
    if s.len() > 0 && s.last() != c {
        lemma_last_spot(s.drop_last(), c);
        let front = s.drop_last();
        assert(forall|j: int| 0 <= j < front.len() ==> front[j] == s[j]);
    }
}

/// A book's tags, each behind a hash.
pub open spec fn tag_line(tags: Seq<String>) -> Seq<char>
    decreases tags.len(),
{
    if tags.len() == 0 {
        seq![]
    } else if tags.len() == 1 {
        "#"@ + tags[0]@
    } else {
        tag_line(tags.drop_last()) + " #"@ + tags.last()@
    }
}

fn push_tags(tags: &Vec<String>) -> (r: String)
    ensures
        r@ == tag_line(tags@),
{
    let mut out = String::new();
    let mut i: usize = 0;
    assert(tags@.take(0) =~= seq![]);
    assert(out@ =~= seq![]);
    while i < tags.len()
        invariant
            i <= tags.len(),
            out@ == tag_line(tags@.take(i as int)),
        decreases tags.len() - i,
    {
        proof {
            assert(tags@.take(i + 1).drop_last() =~= tags@.take(i as int));
        }
        if i == 0 {
            out.append("#");
        } else {
            out.append(" #");
        }
        out.append(tags[i].as_str());
        assert(out@ =~= tag_line(tags@.take(i + 1)));
        i = i + 1;
    }
    assert(tags@.take(i as int) =~= tags@);
    out
}

/// A book's cover: the image when it has one and is asked to show it, else an
/// empty image of the same box.
pub open spec fn cover_markup(b: BookRow, with_cover: bool) -> Seq<char> {
    if b.has_cover && with_cover {
        r#"<img class="cover" src=""#@ + COVER_ORIGIN@ + escaped(b.hash@) + r#""/>"#@
    } else {
        r#"<img class="cover blank"/>"#@
    }
}

pub open spec fn tags_markup(b: BookRow) -> Seq<char> {
    if b.tags@.len() == 0 {
        seq![]
    } else {
        r#"<div class="tags">"#@ + escaped(tag_line(b.tags@)) + "</div>"@
    }
}

/// The author, or that the file is gone.
pub open spec fn author_line(b: BookRow) -> Seq<char> {
    if b.missing {
        "file missing"@
    } else {
        b.author@
    }
}

/// A book's card.
///
/// No selection state: the selected card is outlined by the window, so that
/// moving the selection does not rebuild the document.
pub open spec fn card_markup(index: nat, b: BookRow, with_cover: bool) -> Seq<char> {
    r#"<div class="card"#@ + (if b.missing {
        " missing"@
    } else {
        seq![]
    }) + r#"" data-atom data-index=""#@ + decimal(index) + r#"" data-hash=""#@ + escaped(b.hash@)
        + "\">\n  "@ + cover_markup(b, with_cover) + "\n  <div class=\"dot\">"@ + (if b.started {
        "•"@
    } else {
        seq![]
    }) + "</div>\n  <div class=\"name\">"@ + escaped(shortened(b.title@, 34))
        + "</div>\n  <div class=\"by\">"@ + escaped(shortened(author_line(b), 24))
        + "</div>\n  "@ + tags_markup(b) + "\n</div>"@
}

/// Appends a text as it stands in markup.
pub fn push_text(out: &mut String, text: &str)
    ensures
        final(out)@ == old(out)@ + escaped(text@),
{
    let chars = chars_of(text);
    push_escaped(out, &chars);
}

fn cover_of(b: &BookRow, with_cover: bool) -> (r: String)
    ensures
        r@ == cover_markup(*b, with_cover),
{
    if b.has_cover && with_cover {
        let mut out = owned(r#"<img class="cover" src=""#);
        out.append(COVER_ORIGIN);
        push_text(&mut out, b.hash.as_str());
        out.append(r#""/>"#);
        out
    } else {
        owned(r#"<img class="cover blank"/>"#)
    }
}

fn tags_of(b: &BookRow) -> (r: String)
    ensures
        r@ == tags_markup(*b),
{
    if b.tags.len() == 0 {
        String::new()
    } else {
        let mut out = owned(r#"<div class="tags">"#);
        let line = push_tags(&b.tags);
        push_text(&mut out, line.as_str());
        out.append("</div>");
        out
    }
}

/// A book's card.
pub fn card(index: usize, b: &BookRow, with_cover: bool) -> (r: String)
    ensures
        r@ == card_markup(index as nat, *b, with_cover),
{
    let none = String::new();
    let mut out = owned(r#"<div class="card"#);
    out.append(
        if b.missing {
            " missing"
        } else {
            none.as_str()
        },
    );
    out.append(r#"" data-atom data-index=""#);
    push_count(&mut out, index);
    out.append(r#"" data-hash=""#);
    push_text(&mut out, b.hash.as_str());
    out.append("\">\n  ");
    let cover = cover_of(b, with_cover);
    out.append(cover.as_str());
    out.append("\n  <div class=\"dot\">");
    out.append(
        if b.started {
            "•"
        } else {
            none.as_str()
        },
    );
    out.append("</div>\n  <div class=\"name\">");
    let title = clamp(b.title.as_str(), 34);
    push_text(&mut out, title.as_str());
    out.append("</div>\n  <div class=\"by\">");
    let by = clamp(
        if b.missing {
            "file missing"
        } else {
            b.author.as_str()
        },
        24,
    );
    push_text(&mut out, by.as_str());
    out.append("</div>\n  ");
    let tags = tags_of(b);
    out.append(tags.as_str());
    out.append("\n</div>");
    proof {
        assert(none@ =~= seq![]);
    }
    out
}

/// The cards of some books; those in `lo..hi` show their covers.
pub open spec fn cards_markup(rows: Seq<BookRow>, lo: int, hi: int) -> Seq<char>
    decreases rows.len(),
{
    if rows.len() == 0 {
        seq![]
    } else {
        let i = rows.len() - 1;
        cards_markup(rows.drop_last(), lo, hi) + card_markup(i as nat, rows.last(), lo <= i < hi)
    }
}

/// One thing that what was typed could become.
pub open spec fn suggestion_markup(text: Seq<char>, hint: Seq<char>) -> Seq<char> {
    r#"<div class="sug" data-suggest=""#@ + escaped(text) + r#""><span class="sugtext">"#@ + escaped(
        shortened(text, 30),
    ) + r#"</span><span class="sughint">"#@ + escaped(shortened(hint, 20)) + "</span></div>"@
}

pub open spec fn suggestions_markup(list: Seq<(String, String)>) -> Seq<char>
    decreases list.len(),
{
    if list.len() == 0 {
        seq![]
    } else {
        suggestions_markup(list.drop_last()) + suggestion_markup(list.last().0@, list.last().1@)
    }
}

/// What the search box shows: the tag being typed, else a placeholder, else the
/// query.
pub open spec fn field_markup(query: Seq<char>, tagging: Option<&str>) -> Seq<char> {
    match tagging {
        Some(tag) => r##"<span class="hint">tag </span><span class="typed">#"##@ + escaped(tag@) + "</span>"@,
        None => if query.len() == 0 {
            r#"<span class="hint">Type to search</span>"#@
        } else {
            r#"<span class="typed">"#@ + escaped(query) + "</span>"@
        },
    }
}

/// The search field, and what typing so far could become.
pub open spec fn search_markup(
    query: Seq<char>,
    suggestions: Seq<(String, String)>,
    tagging: Option<&str>,
) -> Seq<char> {
    "<div class=\"search\">\n  <div class=\"field\">"@ + field_markup(query, tagging)
        + "<span class=\"caret\">|</span></div>\n  "@ + (if suggestions.len() == 0 {
        seq![]
    } else {
        r#"<div class="suggest">"#@ + suggestions_markup(suggestions) + "</div>"@
    }) + "\n</div>"@
}

fn field_of(query: &str, tagging: Option<&str>) -> (r: String)
    ensures
        r@ == field_markup(query@, tagging),
{
    match tagging {
        Some(tag) => {
            let mut out = owned(r##"<span class="hint">tag </span><span class="typed">#"##);
            push_text(&mut out, tag);
            out.append("</span>");
            out
        },
        None => {
            let typed = chars_of(query);
            if typed.len() == 0 {
                owned(r#"<span class="hint">Type to search</span>"#)
            } else {
                let mut out = owned(r#"<span class="typed">"#);
                push_escaped(&mut out, &typed);
                out.append("</span>");
                out
            }
        },
    }
}

fn suggestion(text: &str, hint: &str) -> (r: String)
    ensures
        r@ == suggestion_markup(text@, hint@),
{
    let mut out = owned(r#"<div class="sug" data-suggest=""#);
    push_text(&mut out, text);
    out.append(r#""><span class="sugtext">"#);
    let short = clamp(text, 30);
    push_text(&mut out, short.as_str());
    out.append(r#"</span><span class="sughint">"#);
    let note = clamp(hint, 20);
    push_text(&mut out, note.as_str());
    out.append("</span></div>");
    out
}

/// The search field, and what typing so far could become.
///
/// Not an input element: keystrokes already arrive through the window, and the
/// field only has to show the query.
pub fn search_form(
    query: &str,
    suggestions: &[(String, String)],
    tagging: Option<&str>,
) -> (r: String)
    ensures
        r@ == search_markup(query@, suggestions@, tagging),
{
    let mut list = String::new();
    let mut i: usize = 0;
    assert(suggestions@.take(0) =~= seq![]);
    assert(list@ =~= seq![]);
    while i < suggestions.len()
        invariant
            i <= suggestions.len(),
            list@ == suggestions_markup(suggestions@.take(i as int)),
        decreases suggestions.len() - i,
    {
        proof {
            assert(suggestions@.take(i + 1).drop_last() =~= suggestions@.take(i as int));
        }
        let one = suggestion(suggestions[i].0.as_str(), suggestions[i].1.as_str());
        list.append(one.as_str());
        i = i + 1;
    }
    assert(suggestions@.take(i as int) =~= suggestions@);
    let mut out = owned("<div class=\"search\">\n  <div class=\"field\">");
    let field = field_of(query, tagging);
    out.append(field.as_str());
    out.append("<span class=\"caret\">|</span></div>\n  ");
    let menu = if suggestions.len() == 0 {
        String::new()
    } else {
        let mut m = owned(r#"<div class="suggest">"#);
        m.append(list.as_str());
        m.append("</div>");
        m
    };
    proof {
        if suggestions@.len() == 0 {
            assert(menu@ =~= seq![]);
        }
    }
    out.append(menu.as_str());
    out.append("\n</div>");
    out
}

/// How many books are listed, and what for.
pub open spec fn heading_markup(count: nat, query: Seq<char>) -> Seq<char> {
    if trimmed(query).len() == 0 {
        decimal(count) + " book"@ + (if count == 1 {
            seq![]
        } else {
            "s"@
        })
    } else {
        decimal(count) + " matching “"@ + escaped(query) + "”"@
    }
}

/// The library document.
pub open spec fn library_markup(
    rows: Seq<BookRow>,
    query: Seq<char>,
    sort: Sort,
    suggestions: Seq<(String, String)>,
    tagging: Option<&str>,
    lo: int,
    hi: int,
) -> Seq<char> {
    DOCTYPE@
        + "\n<html><body>\n<div class=\"bar\">\n  <div class=\"brand\">\n    <span class=\"title\">Library ("@
        + heading_markup(rows.len(), query)
        + ")</span>\n    <span class=\"meta\"> · sorted by "@ + sort.name()
        + "</span>\n  </div>\n  "@ + search_markup(query, suggestions, tagging) + "\n</div>\n"@ + (
    if rows.len() == 0 {
        EMPTY_SHELF@
    } else {
        r#"<div class="grid">"#@ + cards_markup(rows, lo, hi) + "</div>"@
    }) + "\n</body></html>"@
}

pub const EMPTY_SHELF: &'static str = r#"<div class="empty">Nothing here yet. Put some .epub files in a watched
           folder and press F5 to rescan.</div>"#;

fn heading_of(count: usize, query: &str) -> (r: String)
    ensures
        r@ == heading_markup(count as nat, query@),
{
    let mut out = String::new();
    push_count(&mut out, count);
    proof {
        assert(Seq::<char>::empty() + decimal(count as nat) =~= decimal(count as nat));
    }
    let typed = chars_of(query);
    if trim(&typed).len() == 0 {
        out.append(" book");
        let none = String::new();
        out.append(
            if count == 1 {
                none.as_str()
            } else {
                "s"
            },
        );
        proof {
            assert(none@ =~= seq![]);
        }
    } else {
        out.append(" matching “");
        push_escaped(&mut out, &typed);
        out.append("”");
    }
    out
}

/// The library document. `tagging` is the partial tag while one is being typed
/// for the selected book; `covers` are the cards to give a real cover to.
pub fn html(
    rows: &[BookRow],
    query: &str,
    sort: Sort,
    suggestions: &[(String, String)],
    tagging: Option<&str>,
    covers: std::ops::Range<usize>,
) -> (r: String)
    ensures
        r@ == library_markup(
            rows@,
            query@,
            sort,
            suggestions@,
            tagging,
            covers.start as int,
            covers.end as int,
        ),
{
    let mut cards = String::new();
    let mut i: usize = 0;
    let lo: usize = covers.start;
    let hi: usize = covers.end;
    assert(rows@.take(0) =~= seq![]);
    assert(cards@ =~= seq![]);
    while i < rows.len()
        invariant
            i <= rows.len(),
            cards@ == cards_markup(rows@.take(i as int), lo as int, hi as int),
        decreases rows.len() - i,
    {
        proof {
            assert(rows@.take(i + 1).drop_last() =~= rows@.take(i as int));
        }
        let one = card(i, &rows[i], lo <= i && i < hi);
        cards.append(one.as_str());
        i = i + 1;
    }
    assert(rows@.take(i as int) =~= rows@);
    let mut out = owned(DOCTYPE);
    out.append(
        "\n<html><body>\n<div class=\"bar\">\n  <div class=\"brand\">\n    <span class=\"title\">Library (",
    );
    let heading = heading_of(rows.len(), query);
    out.append(heading.as_str());
    out.append(")</span>\n    <span class=\"meta\"> · sorted by ");
    out.append(sort.label());
    out.append("</span>\n  </div>\n  ");
    let form = search_form(query, suggestions, tagging);
    out.append(form.as_str());
    out.append("\n</div>\n");
    if rows.len() == 0 {
        out.append(EMPTY_SHELF);
    } else {
        let mut shelf = owned(r#"<div class="grid">"#);
        shelf.append(cards.as_str());
        shelf.append("</div>");
        out.append(shelf.as_str());
    }
    out.append("\n</body></html>");
    out
}

pub const SHEET_0: &'static str = r#"
html {
  box-sizing: border-box;
  font-family: "Literata", "Charis SIL", serif;
  font-size: 15px;
  background: "#;

pub const SHEET_1: &'static str = ";
  color: ";

pub const SHEET_2: &'static str = ";
}
html *, html *::before, html *::after { box-sizing: inherit; }
html body { margin: 0; padding: 0 ";

pub const SHEET_3: &'static str = "px 32px ";

pub const SHEET_4: &'static str = "px; }

/* Capped and centred like the grid: on a 4K screen a full-width bar put the
   heading at the far left and the search box a metre away at the right, with
   the shelf of covers stranded in the middle. */
html .bar {
  max-width: ";

pub const SHEET_5: &'static str = "px;
  margin: 0 auto;
  padding: 22px 0 18px 0;
  display: flex;
  align-items: flex-start;
}
html .brand { flex-grow: 1; }
html .title { font-size: 34px; font-weight: 600; }
html .meta { font-size: 14px; color: ";

pub const SHEET_6: &'static str = "; padding-left: 14px; }

/* The search column sits at the right of the bar. */
html .search { width: 420px; padding-left: 28px; }
html .field {
  background: ";

pub const SHEET_7: &'static str = ";
  border-radius: 8px;
  padding: 9px 13px;
  font-size: 14px;
  overflow: hidden;
}
html .hint { color: ";

pub const SHEET_8: &'static str = "; }
html .caret { color: #0a84ff; padding-left: 1px; }

/* Its own ground: the list used to float on the page background, which put
   plain text under the search box with nothing to say it was a menu. */
html .suggest {
  background: ";

pub const SHEET_9: &'static str = ";
  border-radius: 8px;
  padding: 7px 0;
  margin-top: 7px;
}
html .sug {
  display: flex;
  align-items: baseline;
  font-size: 13px;
  padding: 5px 13px;
  border-radius: 6px;
}
html .sugtext { flex-grow: 1; overflow: hidden; }
html .sughint { color: ";

pub const SHEET_10: &'static str = "; font-size: 12px; padding-left: 12px; }

/* Capped and centred, so a wide screen gets a shelf rather than a wall. */
html .grid {
  display: flex;
  flex-wrap: wrap;
  gap: ";

pub const SHEET_11: &'static str = "px;
  max-width: ";

pub const SHEET_12: &'static str = "px;
  margin: 0 auto;
}

/* No padding: it existed to inset the old `.selected` background, and the
   selection is painted now. Without it the card's width is exactly the pitch
   `per_row` counts in. */
html .card {
  width: ";

pub const SHEET_13: &'static str = "px;
  /* Same box for every card, and the paginator is told not to cut through one
     (`data-atom`), so a page holds whole rows of whole cards. */
  height: ";

pub const SHEET_14: &'static str = "px;
  overflow: hidden;
  /* Flex items shrink by default, and shrunken cards make the CSS disagree with
     `per_row`: seven were fitting a window the arithmetic said held five. */
  flex-shrink: 0;
  border-radius: 10px;
}
html .card.missing { opacity: 0.45; }

html .cover {
  display: block;
  width: 100%;
  height: ";

pub const SHEET_15: &'static str = "px;
  border-radius: 5px;
}
html .cover.blank { background: ";

pub const SHEET_16: &'static str = "; }

html .dot { height: 12px; font-size: 15px; color: #0a84ff; }
html .name { font-size: 21px; line-height: 1.25; }
html .by { font-size: 18px; color: ";

pub const SHEET_17: &'static str = "; padding-top: 3px; }
html .tags { font-size: 11px; color: ";

pub const SHEET_18: &'static str = "; padding-top: 3px; }

html .empty { padding: 40px 4px; color: ";

pub const SHEET_19: &'static str = "; font-size: 15px; }
";

/// The library's stylesheet in four colours.
pub open spec fn sheet_text(bg: Seq<char>, fg: Seq<char>, subtle: Seq<char>, panel: Seq<char>) -> Seq<char> {
    SHEET_0@ + bg + SHEET_1@ + fg + SHEET_2@ + decimal(SIDE_PAD as nat) + SHEET_3@
        + decimal(SIDE_PAD as nat) + SHEET_4@ + decimal(grid_width_spec()) + SHEET_5@ + subtle
        + SHEET_6@ + panel + SHEET_7@ + subtle + SHEET_8@ + panel + SHEET_9@ + subtle + SHEET_10@
        + decimal(GAP as nat) + SHEET_11@ + decimal(grid_width_spec()) + SHEET_12@
        + decimal(COVER_W as nat) + SHEET_13@ + decimal(CARD_H as nat) + SHEET_14@
        + decimal(COVER_H as nat) + SHEET_15@ + panel + SHEET_16@ + subtle + SHEET_17@ + subtle
        + SHEET_18@ + subtle + SHEET_19@
}

/// The library's own stylesheet, supplied as a UA sheet.
///
/// Every selector is prefixed with `html`: the engine applies its defaults after
/// this one, and the prefix raises specificity just enough to win.
pub fn stylesheet(bg: &str, fg: &str, subtle: &str, panel: &str) -> (r: String)
    ensures
        r@ == sheet_text(bg@, fg@, subtle@, panel@),
{
    let mut out = owned(SHEET_0);
    out.append(bg);
    out.append(SHEET_1);
    out.append(fg);
    out.append(SHEET_2);
    push_count(&mut out, SIDE_PAD as usize);
    out.append(SHEET_3);
    push_count(&mut out, SIDE_PAD as usize);
    out.append(SHEET_4);
    push_count(&mut out, grid_width() as usize);
    out.append(SHEET_5);
    out.append(subtle);
    out.append(SHEET_6);
    out.append(panel);
    out.append(SHEET_7);
    out.append(subtle);
    out.append(SHEET_8);
    out.append(panel);
    out.append(SHEET_9);
    out.append(subtle);
    out.append(SHEET_10);
    push_count(&mut out, GAP as usize);
    out.append(SHEET_11);
    push_count(&mut out, grid_width() as usize);
    out.append(SHEET_12);
    push_count(&mut out, COVER_W as usize);
    out.append(SHEET_13);
    push_count(&mut out, CARD_H as usize);
    out.append(SHEET_14);
    push_count(&mut out, COVER_H as usize);
    out.append(SHEET_15);
    out.append(panel);
    out.append(SHEET_16);
    out.append(subtle);
    out.append(SHEET_17);
    out.append(subtle);
    out.append(SHEET_18);
    out.append(subtle);
    out.append(SHEET_19);
    out
}

/// The shelf declares a doctype, whatever is on it.
pub proof fn law_the_shelf_declares_itself(
    rows: Seq<BookRow>,
    query: Seq<char>,
    sort: Sort,
    suggestions: Seq<(String, String)>,
    tagging: Option<&str>,
    lo: int,
    hi: int,
)
    ensures
        declared(library_markup(rows, query, sort, suggestions, tagging, lo, hi)),
{
    let html = library_markup(rows, query, sort, suggestions, tagging, lo, hi);
    assert(html.take(DOCTYPE@.len() as int) =~= DOCTYPE@);
}

/// How often a character stands in a text.
pub open spec fn tally(s: Seq<char>, c: char) -> nat {
    s.to_multiset().count(c)
}

broadcast proof fn lemma_tally_add(a: Seq<char>, b: Seq<char>, c: char)
    ensures
        #[trigger] tally(a + b, c) == tally(a, c) + tally(b, c),
{
    lemma_multiset_commutative(a, b);
}

proof fn lemma_tally_escaped(s: Seq<char>, c: char)
    requires
        c == '<' || c == '>' || c == '"' || c == '\'',
    ensures
        tally(escaped(s), c) == 0,
{
    law_escaped_text_is_inert(s);
    escaped(s).to_multiset_ensures();
    if escaped(s).contains(c) {
        let i = choose|i: int| 0 <= i < escaped(s).len() && escaped(s)[i] == c;
        assert(escaped(s)[i] == c);
    }
}

/// Two books whose cards are built alike: what they are called, who wrote them and
/// how they are tagged may differ.
pub open spec fn alike(a: BookRow, b: BookRow) -> bool {
    &&& a.missing == b.missing
    &&& a.has_cover == b.has_cover
    &&& a.started == b.started
    &&& (a.tags@.len() == 0) == (b.tags@.len() == 0)
}

proof fn lemma_cards_alike(index: nat, a: BookRow, b: BookRow, with_cover: bool, c: char)
    requires
        alike(a, b),
        c == '<' || c == '>' || c == '"' || c == '\'',
    ensures
        tally(card_markup(index, a, with_cover), c) == tally(card_markup(index, b, with_cover), c),
{
    broadcast use lemma_tally_add;

    lemma_tally_escaped(a.hash@, c);
    lemma_tally_escaped(b.hash@, c);
    lemma_tally_escaped(tag_line(a.tags@), c);
    lemma_tally_escaped(tag_line(b.tags@), c);
    lemma_tally_escaped(shortened(a.title@, 34), c);
    lemma_tally_escaped(shortened(b.title@, 34), c);
    lemma_tally_escaped(shortened(author_line(a), 24), c);
    lemma_tally_escaped(shortened(author_line(b), 24), c);
    assert(tally(cover_markup(a, with_cover), c) == tally(cover_markup(b, with_cover), c));
    assert(tally(tags_markup(a), c) == tally(tags_markup(b), c));
}

proof fn lemma_shelves_alike(a: Seq<BookRow>, b: Seq<BookRow>, lo: int, hi: int, c: char)
    requires
        a.len() == b.len(),
        forall|i: int| 0 <= i < a.len() ==> alike(#[trigger] a[i], b[i]),
        c == '<' || c == '>' || c == '"' || c == '\'',
    ensures
        tally(cards_markup(a, lo, hi), c) == tally(cards_markup(b, lo, hi), c),
    decreases a.len(),
{
    broadcast use lemma_tally_add;

    if a.len() > 0 {
        let i = a.len() - 1;
        assert forall|j: int| 0 <= j < i implies alike(#[trigger] a.drop_last()[j], b.drop_last()[j]) by {
            assert(alike(a[j], b[j]));
        }
        lemma_shelves_alike(a.drop_last(), b.drop_last(), lo, hi, c);
        assert(alike(a[i], b[i]));
        lemma_cards_alike(i as nat, a[i], b[i], lo <= i < hi, c);
    }
}

/// What a book says of itself adds no markup to the shelf: with other hashes,
/// titles, authors and tags on its cards, the document has as many angle brackets
/// and quotes as before.
pub proof fn law_metadata_adds_no_markup(
    a: Seq<BookRow>,
    b: Seq<BookRow>,
    query: Seq<char>,
    sort: Sort,
    suggestions: Seq<(String, String)>,
    tagging: Option<&str>,
    lo: int,
    hi: int,
    c: char,
)
    requires
        a.len() == b.len(),
        forall|i: int| 0 <= i < a.len() ==> alike(#[trigger] a[i], b[i]),
        c == '<' || c == '>' || c == '"' || c == '\'',
    ensures
        tally(library_markup(a, query, sort, suggestions, tagging, lo, hi), c) == tally(
            library_markup(b, query, sort, suggestions, tagging, lo, hi),
            c,
        ),
{
    broadcast use lemma_tally_add;

    lemma_shelves_alike(a, b, lo, hi, c);
}

} // verus!
