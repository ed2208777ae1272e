//! What holds of everything that is shown, whatever there is to show.
use crate::book::TocEntry;
use crate::check::{break_at, breaks, Break, Tally};
use crate::db::{BookRow, Sort};
use crate::dom::{inherited, Dom};
use crate::events::{choice_of, folders_without, with_folder, Build};
use crate::frame::{Layer, Plan};
use crate::grid::{
    card_markup, cards_across, cards_markup, escaped, last_spot, library_markup, search_markup,
    shortened, suggestion_markup, suggestions_markup, tag_line, tags_markup, CARD_H, COVER_H,
};
use crate::hud::{hud_markup, note_markup, push_down};
use crate::library::{COVER_GROUND, COVER_MAX_W, COVER_QUALITY};
use crate::menu::{folder_rows, menu_markup};
use crate::paginate::{cuts, Atom, Pages};
use crate::paint::{on_page, Area, Frame};
use crate::reader::{MenuChoice, Model, Pane, Press};
use crate::readout::TocMode;
use crate::screen::{columns_shown, margin_of, probed, rgb, slice_of, two_column_em};
use crate::shot::{colours, columns_in, cross, image_size, side};
use crate::style::{ReadingStyle, Theme};
use crate::text::{decimal, holds, lemma_decimal, lemma_spot_is, stands_at, thousandths};
use crate::toc::{contents_markup, row_markup, rows_markup};
use crate::window::{
    book_from, entry_press, planned, pressed_on, row_number, shelf_press, turning, Shown,
};
use vstd::prelude::*;

verus! {

/// A text holds what stands in it.
proof fn lemma_holds(a: Seq<char>, b: Seq<char>, c: Seq<char>)
    ensures
        holds(a + b + c, b),
{
    let s = a + b + c;
    assert(s.subrange(a.len() as int, a.len() as int + b.len() as int) =~= b);
    assert(stands_at(s, b, a.len() as int));
}

/// What a part of a text holds, the text holds.
proof fn lemma_holds_more(a: Seq<char>, b: Seq<char>, c: Seq<char>, p: Seq<char>)
    requires
        holds(b, p),
    ensures
        holds(a + b + c, p),
{
    let s = a + b + c;
    let i = choose|i: int| #[trigger] stands_at(b, p, i);
    assert(s.subrange(a.len() + i, a.len() + i + p.len()) =~= b.subrange(i, i + p.len()));
    assert(stands_at(s, p, a.len() + i));
}

/// What a text holds is still there when more comes behind it.
pub broadcast proof fn lemma_holds_front(a: Seq<char>, b: Seq<char>, p: Seq<char>)
    requires
        holds(a, p),
    ensures
        #[trigger] holds(a + b, p),
{
    let s = a + b;
    let i = choose|i: int| #[trigger] stands_at(a, p, i);
    assert(s.subrange(i, i + p.len()) =~= a.subrange(i, i + p.len()));
    assert(stands_at(s, p, i));
}

proof fn lemma_ends_in(a: Seq<char>, b: Seq<char>, c: Seq<char>)
    ensures
        holds(a + b, b),
        holds(a + b + c, b + c),
{
    let none = Seq::<char>::empty();
    assert(a + b =~= a + b + none);
    lemma_holds(a, b, none);
    assert(a + b + c =~= a + (b + c) + none);
    lemma_holds(a, b + c, none);
}

/// A card says which book it is, by its place on the shelf and its hash, what it is
/// called and who wrote it, or that its file is gone; it shows its cover where it has
/// one and is asked for it.
pub proof fn law_a_card_is_of_its_book(index: nat, b: BookRow, with_cover: bool)
    ensures
        ({
            let card = card_markup(index, b, with_cover);
            let by = if b.missing {
                "file missing"@
            } else {
                b.author@
            };
            &&& holds(card, r#"" data-atom data-index=""#@ + decimal(index))
            &&& holds(card, r#"" data-hash=""#@ + escaped(b.hash@))
            &&& holds(card, "</div>\n  <div class=\"name\">"@ + escaped(shortened(b.title@, 34)))
            &&& holds(card, "</div>\n  <div class=\"by\">"@ + escaped(shortened(by, 24)))
            &&& b.has_cover && with_cover ==> holds(
                card,
                r#"<img class="cover" src=""#@ + "omaread-cover://cover/"@ + escaped(b.hash@),
            )
            &&& b.started ==> holds(card, "\n  <div class=\"dot\">"@ + "•"@)
            &&& b.missing ==> holds(card, r#"<div class="card"#@ + " missing"@)
        }),
{
    let class = if b.missing {
        " missing"@
    } else {
        Seq::<char>::empty()
    };
    let dot = if b.started {
        "•"@
    } else {
        Seq::<char>::empty()
    };
    broadcast use lemma_holds_front;

    let none = Seq::<char>::empty();
    let p0 = r#"<div class="card"#@ + class;
    assert(p0 =~= none + p0);
    lemma_ends_in(none, p0, none);
    lemma_ends_in(p0, r#"" data-atom data-index=""#@, decimal(index));
    let p1 = p0 + r#"" data-atom data-index=""#@ + decimal(index);
    lemma_ends_in(p1, r#"" data-hash=""#@, escaped(b.hash@));
    let p2 = p1 + r#"" data-hash=""#@ + escaped(b.hash@) + "\">\n  "@;
    let cover = crate::grid::cover_markup(b, with_cover);
    let source = r#"<img class="cover" src=""#@ + "omaread-cover://cover/"@ + escaped(b.hash@);
    if b.has_cover && with_cover {
        lemma_holds(none, source, r#""/>"#@);
        assert(cover =~= none + source + r#""/>"#@);
        assert(p2 + cover =~= p2 + cover + none);
        lemma_holds_more(p2, cover, none, source);
    }
    let p3 = p2 + cover;
    lemma_ends_in(p3, "\n  <div class=\"dot\">"@, dot);
    let p4 = p3 + "\n  <div class=\"dot\">"@ + dot;
    let title = escaped(shortened(b.title@, 34));
    lemma_ends_in(p4, "</div>\n  <div class=\"name\">"@, title);
    let p5 = p4 + "</div>\n  <div class=\"name\">"@ + title;
    let by = escaped(shortened(crate::grid::author_line(b), 24));
    lemma_ends_in(p5, "</div>\n  <div class=\"by\">"@, by);
}

proof fn lemma_cards(rows: Seq<BookRow>, lo: int, hi: int, i: int)
    requires
        0 <= i < rows.len(),
    ensures
        holds(cards_markup(rows, lo, hi), card_markup(i as nat, rows[i], lo <= i < hi)),
    decreases rows.len(),
{
    let n = rows.len() - 1;
    let before = cards_markup(rows.drop_last(), lo, hi);
    let last = card_markup(n as nat, rows.last(), lo <= n < hi);
    let none = Seq::<char>::empty();
    let wanted = card_markup(i as nat, rows[i], lo <= i < hi);
    assert(cards_markup(rows, lo, hi) =~= before + last + none);
    if i == n {
        lemma_holds(before, last, none);
    } else {
        assert(rows.drop_last()[i] == rows[i]);
        lemma_cards(rows.drop_last(), lo, hi, i);
        assert(cards_markup(rows, lo, hi) =~= none + before + last);
        lemma_holds_more(none, before, last, wanted);
    }
}

/// Every book listed has its card on the shelf, under its own number, with its cover
/// where it is among those to be shown.
pub proof fn law_every_book_has_its_card(
    rows: Seq<BookRow>,
    query: Seq<char>,
    sort: Sort,
    suggestions: Seq<(String, String)>,
    tagging: Option<&str>,
    lo: int,
    hi: int,
    i: int,
)
    requires
        0 <= i < rows.len(),
    ensures
        holds(
            library_markup(rows, query, sort, suggestions, tagging, lo, hi),
            card_markup(i as nat, rows[i], lo <= i < hi),
        ),
{
    lemma_cards(rows, lo, hi, i);
    let cards = cards_markup(rows, lo, hi);
    let whole = library_markup(rows, query, sort, suggestions, tagging, lo, hi);
    let head = crate::markup::DOCTYPE@
        + "\n<html><body>\n<div class=\"bar\">\n  <div class=\"brand\">\n    <span class=\"title\">Library ("@
        + crate::grid::heading_markup(rows.len(), query)
        + ")</span>\n    <span class=\"meta\"> · sorted by "@ + sort.name()
        + "</span>\n  </div>\n  "@ + crate::grid::search_markup(query, suggestions, tagging)
        + "\n</div>\n"@ + r#"<div class="grid">"#@;
    let tail = "</div>"@ + "\n</body></html>"@;
    assert(whole =~= head + cards + tail);
    lemma_holds_more(head, cards, tail, card_markup(i as nat, rows[i], lo <= i < hi));
}

/// The shelf says how many books there are and in which order, one in the singular.
pub proof fn law_the_shelf_says_what_it_lists(count: nat, query: Seq<char>)
    ensures
        crate::text::trimmed(query).len() == 0 ==> crate::grid::heading_markup(count, query) == decimal(count)
            + (if count == 1 {
            " book"@
        } else {
            " book"@ + "s"@
        }),
        crate::text::trimmed(query).len() > 0 ==> holds(
            crate::grid::heading_markup(count, query),
            escaped(query),
        ),
        Sort::Recent.name() == "Recent"@,
        Sort::Title.name() == "Title"@,
        Sort::Author.name() == "Author"@,
{
    let none = Seq::<char>::empty();
    assert(decimal(count) + " book"@ + none =~= decimal(count) + " book"@);
    assert(decimal(count) + " book"@ + "s"@ =~= decimal(count) + (" book"@ + "s"@));
    if crate::text::trimmed(query).len() > 0 {
        lemma_holds(decimal(count) + " matching “"@, escaped(query), "”"@);
    }
}

/// As many cards stand in a row as fit between the margins of the window, covers of
/// 225 pixels with 30 between two, at least one and at most seven.
pub proof fn law_a_row_holds_what_fits(css_width: int)
    ensures
        ({
            let n = cards_across(css_width);
            &&& 1 <= n <= 7
            &&& n > 1 ==> n * 225_000 + (n - 1) * 30_000 + 2 * 28_000 <= css_width
            &&& n < 7 ==> (n + 1) * 225_000 + n * 30_000 + 2 * 28_000 > css_width
        }),
{
    let room = css_width - 2 * crate::grid::SIDE_PAD * 1000 + crate::grid::GAP * 1000;
    assert(room == css_width - 26_000);
    assert((crate::grid::COVER_W + crate::grid::GAP) * 1000 == 255_000);
    assert(cards_across(css_width) == if room / 255_000 < 1 {
        1
    } else if room / 255_000 > 7 {
        7
    } else {
        room / 255_000
    });
}

/// The sizes that pictures are kept and shown at.
pub proof fn law_covers_have_one_size()
    ensures
        COVER_MAX_W == 450,
        COVER_QUALITY == 82,
        COVER_GROUND == 255,
        COVER_H == 348,
        CARD_H == 439,
{
}

proof fn lemma_last_spot(s: Seq<char>, c: char)
    ensures
        match last_spot(s, c) {
            Some(i) => 0 <= i < s.len() && s[i] == c && forall|j: int| i < j < s.len() ==> s[j] != c,
            None => forall|j: int| 0 <= j < s.len() ==> s[j] != c,
        },
    decreases s.len(),
{
    if s.len() > 0 && s.last() != c {
        let front = s.drop_last();
        lemma_last_spot(front, c);
        match last_spot(front, c) {
            Some(i) => {
                assert(s[i] == front[i]);
                assert forall|j: int| i < j < s.len() implies s[j] != c by {
                    if j < front.len() {
                        assert(front[j] != c);
                    }
                }
            },
            None => {
                assert forall|j: int| 0 <= j < s.len() implies s[j] != c by {
                    if j < front.len() {
                        assert(front[j] != c);
                    }
                }
            },
        }
    }
}

/// Text that fits is left as it is. Longer text is its beginning, up to the last
/// space that fits or as far as fits, and a mark that something is missing.
pub proof fn law_long_text_is_cut_at_a_word(s: Seq<char>, max: int)
    requires
        max >= 0,
    ensures
        s.len() <= max ==> shortened(s, max) == s,
        s.len() > max ==> {
            let kept = shortened(s, max).drop_last();
            &&& shortened(s, max).len() > 0 && shortened(s, max).last() == '…'
            &&& kept.len() <= max
            &&& kept == s.take(kept.len() as int)
            &&& kept.len() < max ==> s[kept.len() as int] == ' '
            &&& forall|j: int| kept.len() < j < max ==> s[j] != ' '
        },
{
    reveal_strlit("…");
    if s.len() > max {
        let cut = s.take(max);
        lemma_last_spot(cut, ' ');
        let short = shortened(s, max);
        match last_spot(cut, ' ') {
            Some(i) => {
                assert(short.drop_last() =~= cut.take(i));
                assert(cut.take(i) =~= s.take(i));
                assert forall|j: int| i < j < max implies s[j] != ' ' by {
                    assert(cut[j] != ' ');
                }
            },
            None => {
                assert(short.drop_last() =~= cut);
            },
        }
    }
}

proof fn lemma_suggestions(list: Seq<(String, String)>, i: int)
    requires
        0 <= i < list.len(),
    ensures
        holds(suggestions_markup(list), suggestion_markup(list[i].0@, list[i].1@)),
    decreases list.len(),
{
    let before = suggestions_markup(list.drop_last());
    let last = suggestion_markup(list.last().0@, list.last().1@);
    let none = Seq::<char>::empty();
    if i == list.len() - 1 {
        assert(suggestions_markup(list) =~= before + last + none);
        lemma_holds(before, last, none);
    } else {
        assert(list.drop_last()[i] == list[i]);
        lemma_suggestions(list.drop_last(), i);
        assert(suggestions_markup(list) =~= none + before + last);
        lemma_holds_more(none, before, last, suggestion_markup(list[i].0@, list[i].1@));
    }
}

/// Every suggestion is offered, and pressing it gives back the whole of it.
pub proof fn law_every_suggestion_is_offered(list: Seq<(String, String)>, i: int)
    requires
        0 <= i < list.len(),
    ensures
        holds(
            suggestions_markup(list),
            r#"<div class="sug" data-suggest=""#@ + escaped(list[i].0@) + r#"">"#@,
        ),
{
    lemma_suggestions(list, i);
    let text = list[i].0@;
    let hint = list[i].1@;
    let head = r#"<div class="sug" data-suggest=""#@ + escaped(text);
    reveal_strlit(r#""><span class="sugtext">"#);
    reveal_strlit(r#"">"#);
    let opened = r#""><span class="sugtext">"#@;
    let tail = escaped(shortened(text, 30)) + r#"</span><span class="sughint">"#@ + escaped(
        shortened(hint, 20),
    ) + "</span></div>"@;
    let wanted = head + r#"">"#@;
    let one = suggestion_markup(text, hint);
    let none = Seq::<char>::empty();
    assert(opened =~= r#"">"#@ + opened.skip(2));
    assert(one =~= none + wanted + (opened.skip(2) + tail));
    lemma_holds(none, wanted, opened.skip(2) + tail);
    let all = suggestions_markup(list);
    let k = choose|k: int| #[trigger] stands_at(all, one, k);
    let a = all.take(k);
    let c = all.skip(k + one.len());
    assert(all =~= a + one + c);
    lemma_holds_more(a, one, c, wanted);
}

proof fn lemma_rows(entries: Seq<TocEntry>, current: usize, selected: usize, i: int)
    requires
        0 <= i < entries.len(),
    ensures
        holds(
            rows_markup(entries, current, selected),
            row_markup(i as nat, entries[i], entries[i].spine == current, i == selected),
        ),
    decreases entries.len(),
{
    let n = entries.len() - 1;
    let before = rows_markup(entries.drop_last(), current, selected);
    let last = row_markup(n as nat, entries.last(), entries.last().spine == current, n == selected);
    let none = Seq::<char>::empty();
    if i == n {
        assert(rows_markup(entries, current, selected) =~= before + last + none);
        lemma_holds(before, last, none);
    } else {
        assert(entries.drop_last()[i] == entries[i]);
        lemma_rows(entries.drop_last(), current, selected, i);
        assert(rows_markup(entries, current, selected) =~= none + before + last);
        lemma_holds_more(
            none,
            before,
            last,
            row_markup(i as nat, entries[i], entries[i].spine == current, i == selected),
        );
    }
}

/// Every entry has its row in a list, under its own number and name, indented by its
/// depth up to three; the rows of the chapter that is open say so, and so does the one
/// that is selected.
pub proof fn law_every_entry_has_its_row(
    entries: Seq<TocEntry>,
    heading: Seq<char>,
    subtitle: Seq<char>,
    current: usize,
    selected: usize,
    i: int,
)
    requires
        0 <= i < entries.len(),
    ensures
        ({
            let e = entries[i];
            let depth: nat = if e.depth < 3 {
                e.depth as nat
            } else {
                3
            };
            holds(
                contents_markup(entries, heading, subtitle, current, selected),
                r#"<div class="row d"#@ + decimal(depth) + (if e.spine == current {
                    " here"@
                } else {
                    seq![]
                }) + (if i == selected {
                    " selected"@
                } else {
                    seq![]
                }) + r#"" data-index=""#@ + decimal(i as nat) + r#"">"#@ + escaped(e.label@) + "</div>"@,
            )
        }),
{
    lemma_rows(entries, current, selected, i);
    let rows = rows_markup(entries, current, selected);
    let head = crate::markup::DOCTYPE@ + "\n<html><body>\n<div class=\"bar\">\n  <span class=\"title\">"@
        + escaped(heading) + "</span>\n  <span class=\"meta\">"@ + escaped(subtitle)
        + "</span>\n</div>\n"@ + r#"<div class="list">"#@;
    let tail = "</div>"@ + "\n</body></html>"@;
    assert(contents_markup(entries, heading, subtitle, current, selected) =~= head + rows + tail);
    lemma_holds_more(
        head,
        rows,
        tail,
        row_markup(i as nat, entries[i], entries[i].spine == current, i == selected),
    );
}

/// The bars say what is read, how far and in how many columns; the control of
/// highlights removes one where there is one, and the way back is offered where there
/// is one.
pub proof fn law_the_bars_say_where_the_reader_is(
    title: Seq<char>,
    readout: Seq<char>,
    columns: nat,
    on_highlight: bool,
    window_height: int,
    back: Option<Seq<char>>,
)
    ensures
        ({
            let bars = hud_markup(title, readout, columns, on_highlight, window_height, back);
            &&& holds(bars, r#"<span class="btn" data-hud="readout">"#@ + escaped(readout))
            &&& holds(bars, escaped(title))
            &&& holds(bars, decimal(columns))
            &&& holds(
                bars,
                if on_highlight {
                    "unhighlight"@
                } else {
                    "highlight"@
                },
            )
            &&& back matches Some(label) ==> holds(
                bars,
                r#"<span class="btn" data-hud="back">"#@ + escaped(label),
            )
        }),
{
    broadcast use lemma_holds_front;

    let none = Seq::<char>::empty();
    let p0 = crate::markup::DOCTYPE@ + crate::hud::PAGE_0@;
    lemma_ends_in(p0, crate::hud::mark_action(on_highlight), none);
    let p1 = p0 + crate::hud::mark_action(on_highlight) + crate::hud::PAGE_1@ + crate::hud::mark_label(
        on_highlight,
    ) + crate::hud::PAGE_2@;
    lemma_ends_in(p1, decimal(columns), none);
    let p2 = p1 + decimal(columns) + crate::hud::PAGE_3@ + thousandths(
        push_down(window_height) as nat,
    ) + crate::hud::PAGE_4@;
    lemma_ends_in(p2, escaped(title), none);
    let p3 = p2 + escaped(title) + crate::hud::PAGE_5@;
    let p4 = match back {
        Some(l) => p3 + crate::hud::BACK@ + escaped(l) + crate::hud::PAGE_5@,
        None => p3,
    };
    if let Some(l) = back {
        lemma_ends_in(p3, crate::hud::BACK@, escaped(l));
    }
    lemma_ends_in(p4, crate::hud::READOUT@, escaped(readout));
}

/// The bars are 34 pixels high and 16 from the edges of the window; a window too low
/// for both keeps them one under the other.
pub proof fn law_the_bars_keep_to_the_edges(window_height: int)
    ensures
        push_down(window_height) == if window_height >= 100_000 {
            window_height - 100_000
        } else {
            0
        },
{
}

/// A note shows its text.
pub proof fn law_a_note_shows_its_text(text: Seq<char>)
    ensures
        holds(note_markup(text), r#"<div class="note">"#@ + escaped(text) + "</div>"@),
{
    reveal_strlit("\n<html><body>\n<div class=\"note\">");
    reveal_strlit("<div class=\"note\">");
    reveal_strlit("</div>\n</body></html>");
    reveal_strlit("</div>");
    let head = crate::hud::NOTE_HEAD@;
    let foot = crate::hud::NOTE_FOOT@;
    let open = r#"<div class="note">"#@;
    let close = "</div>"@;
    let n = head.len() - open.len();
    assert(head =~= head.take(n) + open);
    assert(foot =~= close + foot.skip(close.len() as int));
    let a = crate::markup::DOCTYPE@ + head.take(n);
    let c = foot.skip(close.len() as int);
    assert(note_markup(text) =~= a + (open + escaped(text) + close) + c);
    lemma_holds(a, open + escaped(text) + close, c);
}

proof fn lemma_folders(folders: Seq<String>, i: int, wanted: Seq<char>)
    requires
        0 <= i < folders.len(),
        wanted == "<div class=\"row\" data-set=\"drop:"@ + escaped(folders[i]@) + "\">"@,
    ensures
        holds(folder_rows(folders), wanted),
    decreases folders.len(),
{
    let before = folder_rows(folders.drop_last());
    let last = crate::menu::folder_row(folders.last()@);
    let none = Seq::<char>::empty();
    if i == folders.len() - 1 {
        let after = escaped(folders[i]@) + "</div>\n"@;
        assert(last =~= none + wanted + after);
        lemma_holds(none, wanted, after);
        assert(folder_rows(folders) =~= before + last + none);
        lemma_holds_more(before, last, none, wanted);
    } else {
        assert(folders.drop_last()[i] == folders[i]);
        lemma_folders(folders.drop_last(), i, wanted);
        assert(folder_rows(folders) =~= none + before + last);
        lemma_holds_more(none, before, last, wanted);
    }
}

/// The settings offer every theme by its name and mark the one in force, list every
/// watched folder, and let one be added or show what is typed of it.
pub proof fn law_the_settings_offer_everything(
    now: Theme,
    folders: Seq<String>,
    adding: Option<Seq<char>>,
    theme: Theme,
    i: int,
)
    requires
        0 <= i < folders.len(),
    ensures
        ({
            let menu = menu_markup(now, folders, adding);
            &&& holds(
                menu,
                (if theme == now {
                    "<div class=\"row on\" data-set=\"theme:"@
                } else {
                    "<div class=\"row\" data-set=\"theme:"@
                }) + theme.word() + "\">"@,
            )
            &&& holds(menu, "<div class=\"row\" data-set=\"drop:"@ + escaped(folders[i]@) + "\">"@)
            &&& adding matches Some(typed) ==> holds(menu, "<div class=\"field\">"@ + escaped(typed))
        }),
{
    broadcast use lemma_holds_front;

    let none = Seq::<char>::empty();
    let begun = (if theme == now {
        "<div class=\"row on\" data-set=\"theme:"@
    } else {
        "<div class=\"row\" data-set=\"theme:"@
    }) + theme.word() + "\">"@;
    let p0 = crate::markup::DOCTYPE@ + crate::menu::PAGE_0@;
    let p1 = p0 + crate::menu::theme_row(Theme::White, now);
    let p2 = p1 + crate::menu::theme_row(Theme::Sepia, now);
    let p3 = p2 + crate::menu::theme_row(Theme::Grey, now);
    let p4 = p3 + crate::menu::theme_row(Theme::Night, now);
    match theme {
        Theme::White => lemma_theme_row(p0, theme, now, begun),
        Theme::Sepia => lemma_theme_row(p1, theme, now, begun),
        Theme::Grey => lemma_theme_row(p2, theme, now, begun),
        Theme::Night => lemma_theme_row(p3, theme, now, begun),
    }
    let p5 = p4 + crate::menu::FOLDERS@;
    let dropped = "<div class=\"row\" data-set=\"drop:"@ + escaped(folders[i]@) + "\">"@;
    lemma_folders(folders, i, dropped);
    let rows = folder_rows(folders);
    assert(p5 + rows =~= p5 + rows + none);
    lemma_holds_more(p5, rows, none, dropped);
    let p6 = p5 + rows;
    if let Some(typed) = adding {
        let field = "<div class=\"field\">"@ + escaped(typed);
        let add = crate::menu::add_row(adding);
        assert(add =~= none + field + "|</div>\n"@);
        lemma_holds(none, field, "|</div>\n"@);
        assert(p6 + add =~= p6 + add + none);
        lemma_holds_more(p6, add, none, field);
    }
}

proof fn lemma_theme_row(before: Seq<char>, theme: Theme, now: Theme, begun: Seq<char>)
    requires
        begun == (if theme == now {
            "<div class=\"row on\" data-set=\"theme:"@
        } else {
            "<div class=\"row\" data-set=\"theme:"@
        }) + theme.word() + "\">"@,
    ensures
        holds(before + crate::menu::theme_row(theme, now), begun),
{
    let none = Seq::<char>::empty();
    let row = crate::menu::theme_row(theme, now);
    let ended = theme.word() + "</div>\n"@;
    assert(row =~= none + begun + ended);
    lemma_holds(none, begun, ended);
    assert(before + row =~= before + row + none);
    lemma_holds_more(before, row, none, begun);
}

/// What lies wholly on a page is painted whole, as far below the margin as it lies
/// below the head of the page; what lies wholly off it is not painted.
pub proof fn law_what_is_on_a_page_is_painted(a: Area, top: int, extent: int, dx: int, frame: Frame)
    requires
        a.x0 < a.x1,
        a.y0 < a.y1,
        extent <= frame.page_height,
    ensures
        top <= a.y0 && a.y1 <= top + extent ==> on_page(a, top, extent, dx, frame) == Some(
            (
                a.x0 + dx,
                a.y0 - top + frame.margin,
                a.x1 + dx,
                a.y1 - top + frame.margin,
            ),
        ),
        a.y1 <= top || a.y0 >= top + extent ==> on_page(a, top, extent, dx, frame) is None,
{
}

/// Around a press every place seven pixels off is tried, the press itself first.
pub proof fn law_presses_are_tried_all_around(x: int, y: int, dx: int, dy: int)
    requires
        dx == 0 || dx == 7000 || dx == -7000,
        dy == 0 || dy == 7000 || dy == -7000,
    ensures
        probed(x, y)[0] == (x, y),
        probed(x, y).contains((x + dx, y + dy)),
        probed(x, y).len() == 9,
{
    let all = probed(x, y);
    assert(all[0] == (x, y) && all[1] == (x - 7000, y) && all[2] == (x + 7000, y) && all[3] == (
        x,
        y - 7000,
    ) && all[4] == (x, y + 7000) && all[5] == (x - 7000, y - 7000) && all[6] == (x + 7000, y - 7000)
        && all[7] == (x - 7000, y + 7000) && all[8] == (x + 7000, y + 7000));
}

/// Two columns need room for two measures of thirty-three letters' width and their
/// gutters; a page keeps two and a half letters' width above and below.
pub proof fn law_columns_need_their_measure(css_width: int, font_px: int)
    requires
        font_px > 0,
    ensures
        columns_shown(2, css_width, font_px, true) == if css_width >= 73 * font_px {
            2int
        } else {
            1
        },
        margin_of(font_px) == 5 * font_px / 2,
{
    assert(two_column_em() == 73_000);
    assert(two_column_em() * font_px == 73_000 * font_px);
    assert(crate::style::PAGE_MARGIN_EM * font_px == 2_500 * font_px);
}

/// The colours of the page and of what surrounds it, theme by theme, and what the
/// theme is called.
pub proof fn law_themes_have_their_colours()
    ensures
        Theme::White.paper() == ("#fdfdfe"@, "#1c1c1e"@, "#8e8e93"@),
        Theme::Sepia.paper() == ("#f8f1e3"@, "#4f321c"@, "#96785f"@),
        Theme::Grey.paper() == ("#d6d6d2"@, "#33332f"@, "#6e6e6a"@),
        Theme::Night.paper() == ("#141416"@, "#e5e5ea"@, "#6e6e73"@),
        Theme::White.chrome() == ("#fbfbfd"@, "#1c1c1e"@, "#8e8e93"@, "#ececf0"@),
        Theme::Sepia.chrome() == ("#f6efe1"@, "#4f321c"@, "#96785f"@, "#e8ddc6"@),
        Theme::Grey.chrome() == ("#d6d6d2"@, "#33332f"@, "#6e6e6a"@, "#c4c4bf"@),
        Theme::Night.chrome() == ("#111113"@, "#e5e5ea"@, "#6e6e73"@, "#232327"@),
        Theme::White.word() == "white"@,
        Theme::Sepia.word() == "sepia"@,
        Theme::Grey.word() == "grey"@,
        Theme::Night.word() == "night"@,
{
}

/// The letter size is twenty pixels by the reader's scale, between sixteen and
/// thirty-two.
pub proof fn law_letters_follow_the_scale(style: ReadingStyle)
    ensures
        800 <= style.scale <= 1600 ==> style.font() == 20 * style.scale,
        style.scale < 800 ==> style.font() == 16_000,
        style.scale > 1600 ==> style.font() == 32_000,
{
}

/// While no page turns, a frame shows the page and, in two columns, the one after it,
/// side by side, each from its top and as far as it reaches.
pub proof fn law_a_frame_shows_its_pages(plan: Plan, pages: Pages, c: int)
    requires
        plan.wf(),
        plan.turn is None,
        0 <= c < plan.columns,
        plan.page + c < pages.tops@.len(),
        i64::MIN <= pages.extent(plan.page + c) <= i64::MAX,
    ensures
        plan.layers(pages).contains(
            Layer::Column {
                top: pages.tops@[plan.page + c],
                extent: pages.extent(plan.page + c) as i64,
                x: (if c == 0 {
                    0
                } else {
                    plan.width as int / 2
                }) as i64,
                first: c == 0,
            },
        ),
{
    let want = Layer::Column {
        top: pages.tops@[plan.page + c],
        extent: pages.extent(plan.page + c) as i64,
        x: (if c == 0 {
            0
        } else {
            plan.width as int / 2
        }) as i64,
        first: c == 0,
    };
    let w = plan.column_width();
    assert((1 - 1) * w == 0 && (2 - 1) * w == w) by (nonlinear_arith);
    let none = plan.standing(pages, 0);
    assert(none.len() == 0);
    let one = plan.standing(pages, 1);
    let two = plan.standing(pages, 2);
    let k = if c == 0 {
        0int
    } else {
        3
    };
    if c == 0 {
        assert(one[0] == want);
        assert(two[0] == one[0]);
    } else {
        assert(one.len() == 3);
        assert(two[3] == want);
    }
    assert(plan.layers(pages)[k] == want);
}

/// A frame shows over the page what there is to show, and nothing else.
pub proof fn law_a_frame_shows_what_is_up(plan: Plan, pages: Pages)
    requires
        plan.wf(),
    ensures
        plan.hud ==> plan.layers(pages).last() == Layer::Hud,
        plan.menu && !plan.hud ==> plan.layers(pages).last() == Layer::Menu,
        plan.popup ==> plan.layers(pages).contains(Layer::Note),
        plan.selected ==> plan.layers(pages).contains(
            Layer::Outline { top: slice_of(pages, plan.page as int).0 as i64 },
        ),
        plan.library ==> plan.layers(pages).contains(
            Layer::Gear { top: slice_of(pages, plan.page as int).0 as i64 },
        ),
{
    let slice = slice_of(pages, plan.page as int);
    let top = slice.0 as i64;
    let all = plan.layers(pages);
    let under = match plan.turn {
        Some(turn) => {
            let (out_x, in_x) = crate::screen::slid(turn.forward, turn.t as int, plan.width as int);
            seq![Layer::Clear] + plan.sliding(pages, turn.from as int, out_x, plan.columns as int)
                + plan.sliding(pages, plan.page as int, in_x, plan.columns as int)
        },
        None => plan.standing(pages, plan.columns as int),
    };
    let n = under.len() as int;
    let h = if plan.hovered {
        1int
    } else {
        0
    };
    let s = if plan.selected {
        1int
    } else {
        0
    };
    let p = if plan.popup {
        1int
    } else {
        0
    };
    if plan.selected {
        assert(all[n + h] == Layer::Outline { top });
    }
    if plan.popup {
        assert(all[n + h + s] == Layer::Note);
    }
    if plan.library {
        assert(all[n + h + s + p] == Layer::Gear { top });
    }
}

/// What a view shows: the shelf its selected card and its cog, a book its bars while
/// they are up, and a turn of the page while it lasts.
pub proof fn law_views_show_what_they_have(m: Model, shown: Shown, columns: usize, width: i64, now: u64)
    ensures
        ({
            let plan = planned(m, shown, columns, width, now);
            &&& plan.page == m.page && plan.columns == columns && plan.width == width
            &&& plan.library <==> m.pane == Pane::Library
            &&& plan.hud ==> m.pane == Pane::Reading && m.hud_shown
            &&& m.pane == Pane::Reading && m.hud_shown && shown.bars ==> plan.hud
            &&& plan.menu <==> m.menu && shown.menu
            &&& plan.popup <==> m.popup && shown.note
            &&& plan.selected <==> m.pane == Pane::Library && shown.card
            &&& m.pane == Pane::Library && shown.hovered == Some(m.selected) ==> !plan.hovered
            &&& m.slide is None ==> plan.turn is None
        }),
{
}

/// A press on the shelf means what the nearest element above it says: the settings, a
/// suggestion, or the book with its hash; one on a list, the entry with its number.
pub proof fn law_presses_mean_what_the_markup_says(
    dom: Dom,
    node: int,
    rows: Seq<BookRow>,
    press: Press,
    i: int,
)
    requires
        0 <= i < rows.len(),
        forall|k: int| 0 <= k < i ==> (#[trigger] rows[k]).hash@ != rows[i].hash@,
    ensures
        shelf_press(dom, node, rows, press) && inherited(dom.nodes@, node, "data-menu"@) is Some ==> press is Gear,
        shelf_press(dom, node, rows, press) && inherited(dom.nodes@, node, "data-menu"@) is None ==> (
        inherited(dom.nodes@, node, "data-suggest"@) matches Some(text) ==> (press matches Press::Suggestion(t)
            && t@ == text)),
        shelf_press(dom, node, rows, press) && inherited(dom.nodes@, node, "data-menu"@) is None && inherited(
            dom.nodes@,
            node,
            "data-suggest"@,
        ) is None && inherited(dom.nodes@, node, "data-hash"@) == Some(rows[i].hash@) ==> press
            == Press::Card(i as usize),
        entry_press(dom, node, press) && inherited(dom.nodes@, node, "data-index"@) == Some(
            decimal(i as nat),
        ) && i <= usize::MAX ==> press == Press::Entry(i as usize),
{
    lemma_book_from(rows, i, 0);
    if i <= usize::MAX {
        crate::text::law_numbers_round_trip(i as nat, usize::MAX as nat);
    }
}

proof fn lemma_book_from(rows: Seq<BookRow>, i: int, from: int)
    requires
        0 <= from <= i < rows.len(),
        forall|k: int| 0 <= k < i ==> (#[trigger] rows[k]).hash@ != rows[i].hash@,
    ensures
        book_from(rows, rows[i].hash@, from) == Some(i),
    decreases i - from,
{
    if from < i {
        lemma_book_from(rows, i, from + 1);
    }
}

/// A control of the settings asks for what its name says: the theme or the folder
/// behind the colon, or another folder.
pub proof fn law_settings_ask_for_what_they_name(theme: Theme, path: Seq<char>, choice: MenuChoice)
    ensures
        choice_of("theme"@ + seq![':'] + theme.word(), choice) ==> choice == MenuChoice::Theme(theme),
        choice_of("drop"@ + seq![':'] + path, choice) ==> (choice matches MenuChoice::Drop(p) && p@ == path),
        choice_of("add"@, choice) ==> choice == MenuChoice::Add,
{
    reveal_strlit("theme");
    reveal_strlit("drop");
    reveal_strlit("add");
    reveal_strlit("white");
    reveal_strlit("sepia");
    reveal_strlit("grey");
    reveal_strlit("night");
    let t = "theme"@ + seq![':'] + theme.word();
    assert(t[5] == ':');
    lemma_spot_is(t, ':', 5);
    assert(t.take(5) =~= "theme"@);
    assert(t.skip(6) =~= theme.word());
    assert("white"@[0] == 'w' && "sepia"@[0] == 's' && "grey"@[0] == 'g' && "night"@[0] == 'n');
    let d = "drop"@ + seq![':'] + path;
    assert(d[4] == ':');
    lemma_spot_is(d, ':', 4);
    assert(d.take(4) =~= "drop"@);
    assert(d.skip(5) =~= path);
    assert("drop"@.len() != "theme"@.len());
    crate::text::lemma_no_spot("add"@, ':');
}

/// Dropping a folder drops it and keeps the others, in their order.
pub proof fn law_only_the_dropped_folder_goes(folders: Seq<String>, path: Seq<char>, last: String)
    ensures
        folders_without(Seq::<String>::empty(), path).len() == 0,
        folders_without(folders.push(last), path) == if last@ == path {
            folders_without(folders, path)
        } else {
            folders_without(folders, path).push(last@)
        },
{
    assert(folders.push(last).drop_last() =~= folders);
}

/// A picture is written as its size and the three colours of every pixel.
pub proof fn law_pixels_keep_their_colours(rgba: Seq<u8>, i: int, k: int)
    requires
        0 <= i,
        4 * i + 4 <= rgba.len(),
        0 <= k < 3,
    ensures
        colours(rgba).len() > 3 * i + k,
        colours(rgba)[3 * i + k] == rgba[4 * i + k],
    decreases i,
{
    if i > 0 {
        let rest = rgba.skip(4);
        law_pixels_keep_their_colours(rest, i - 1, k);
        assert(colours(rgba)[3 * i + k] == colours(rest)[3 * (i - 1) + k]);
        assert(rest[4 * (i - 1) + k] == rgba[4 * i + k]);
    }
}

/// A chapter counts towards the tally with its pages, with every break that cuts
/// something, and with what is wrong with it.
pub proof fn law_chapters_are_tallied(
    t: Tally,
    pages: Pages,
    atoms: Seq<Atom>,
    empty: bool,
    dangling: usize,
)
    requires
        t.roomy(pages.tops@.len() as int, dangling as int),
        breaks(atoms, pages, Break::Cut, pages.tops@.len() as int) <= pages.tops@.len(),
        breaks(atoms, pages, Break::Big, pages.tops@.len() as int) <= pages.tops@.len(),
    ensures
        ({
            let n = t.with_chapter(pages, atoms, empty, dangling);
            let stall = exists|i: int|
                0 <= i && i + 1 < pages.tops@.len() && (#[trigger] pages.tops@[i + 1]) <= pages.tops@[i];
            &&& n.chapters == t.chapters + 1
            &&& n.pages == t.pages + pages.tops@.len()
            &&& n.empty == t.empty + (if empty {
                1int
            } else {
                0
            })
            &&& n.stalled == t.stalled + (if stall {
                1int
            } else {
                0
            })
            &&& n.cutting - t.cutting == breaks(atoms, pages, Break::Cut, pages.tops@.len() as int)
            &&& n.big - t.big == breaks(atoms, pages, Break::Big, pages.tops@.len() as int)
            &&& n.dangling == t.dangling + dangling
            &&& n.books == t.books && n.failed == t.failed && n.panicked == t.panicked
        }),
{
}

/// A break cuts if it falls more than a pixel inside something; if that is higher than
/// a page it cannot be helped.
pub proof fn law_breaks_are_judged(atoms: Seq<Atom>, y: int, page_height: int, i: int)
    requires
        0 <= i < atoms.len(),
        atoms[i].top + 1000 < y < atoms[i].bottom - 1000,
    ensures
        break_at(atoms, y, page_height) != Break::Clean,
        atoms[i].bottom - atoms[i].top > page_height ==> break_at(atoms, y, page_height) == Break::Big,
        (forall|k: int| 0 <= k < atoms.len() ==> (#[trigger] atoms[k]).bottom - atoms[k].top <= page_height)
            ==> break_at(atoms, y, page_height) == Break::Cut,
{
    assert(cuts(atoms[i], y));
}

/// A list is headed by what it lists.
pub proof fn law_lists_are_headed()
    ensures
        TocMode::Contents.word() == "Contents"@,
        TocMode::Search.word() == "Search"@,
        TocMode::Marks.word() == "Marks"@,
{
}

/// A press while reading lands on nothing of the lists; elsewhere it lands on what its
/// list has there.
pub proof fn law_presses_belong_to_what_is_shown(dom: Dom, node: int, rows: Seq<BookRow>, r: Press)
    ensures
        pressed_on(dom, node, Pane::Reading, rows, r) ==> r is Nothing,
        pressed_on(dom, node, Pane::Library, rows, r) && inherited(dom.nodes@, node, "data-menu"@) is Some
            ==> r is Gear,
        pressed_on(dom, node, Pane::Toc, rows, r) && inherited(dom.nodes@, node, "data-index"@) is None
            ==> r is Nothing,
{
}

/// A node is in the row whose number is written on it or on the nearest that holds it.
pub proof fn law_rows_go_by_their_numbers(dom: Dom, node: int, n: usize)
    ensures
        inherited(dom.nodes@, node, "data-index"@) == Some(decimal(n as nat)) ==> row_number(dom, node)
            == Some(n),
        inherited(dom.nodes@, node, "data-index"@) is None ==> row_number(dom, node) is None,
{
    crate::text::law_numbers_round_trip(n as nat, usize::MAX as nat);
}

/// Behind a book is the colour of its theme's paper; behind all else, that of the
/// chrome.
pub proof fn law_the_ground_is_that_of_the_pane(m: Model, chrome: Seq<char>)
    ensures
        m.pane == Pane::Reading && m.style.theme == Theme::White ==> m.ground(chrome) == (
            253int,
            253int,
            254int,
        ),
        m.pane == Pane::Reading && m.style.theme == Theme::Sepia ==> m.ground(chrome) == (
            248int,
            241int,
            227int,
        ),
        m.pane == Pane::Reading && m.style.theme == Theme::Grey ==> m.ground(chrome) == (
            214int,
            214int,
            210int,
        ),
        m.pane == Pane::Reading && m.style.theme == Theme::Night ==> m.ground(chrome) == (
            20int,
            20int,
            22int,
        ),
        m.pane != Pane::Reading ==> m.ground(chrome) == rgb(chrome),
{
}

/// Only what is not laid out is laid out: the shelf for the page it shows, the list
/// once, and the bars whenever they are up.
pub proof fn law_only_what_is_missing_is_laid_out(m: Model, other: usize)
    requires
        other != m.page,
    ensures
        m.pane == Pane::Library ==> m.to_build(Some(m.page), true) == Build::Nothing && m.to_build(
            Some(other),
            true,
        ) == Build::Library && m.to_build(None, false) == Build::Library,
        m.pane == Pane::Toc ==> m.to_build(None, false) == Build::Toc && m.to_build(None, true)
            == Build::Nothing,
        m.pane == Pane::Reading && m.hud_shown ==> m.to_build(Some(m.page), true) == Build::Hud,
        m.pane == Pane::Reading && !m.hud_shown ==> m.to_build(None, false) == Build::Nothing,
{
}

/// A chapter that cannot be laid out gives way to the next, and the last to none.
pub proof fn law_a_failed_chapter_gives_way_to_the_next(m: Model, index: usize)
    ensures
        index + 1 < m.chapters ==> m.after_failed(index) == Some((index + 1) as usize),
        index + 1 >= m.chapters ==> m.after_failed(index) is None,
{
}

/// A folder that is added is watched, once, and every other stays where it was.
pub proof fn law_folders_are_added_once(folders: Seq<Seq<char>>, dir: Seq<char>, i: int)
    ensures
        with_folder(folders, dir).contains(dir),
        with_folder(with_folder(folders, dir), dir) == with_folder(folders, dir),
        0 <= i < folders.len() ==> with_folder(folders, dir)[i] == folders[i],
        with_folder(folders, dir).len() <= folders.len() + 1,
        folders.no_duplicates() ==> with_folder(folders, dir).no_duplicates(),
{
    if !folders.contains(dir) {
        assert(folders.push(dir)[folders.len() as int] == dir);
    }
}

/// A run passes if no chapter panicked, was empty, was cut or stalled and no book
/// failed, and only then.
pub proof fn law_a_run_passes_when_nothing_went_wrong(t: Tally)
    ensures
        t.panicked == 0 && t.empty == 0 && t.cutting == 0 && t.stalled == 0 && t.failed == 0 ==> t.code() == 0,
        t.panicked > 0 ==> t.code() == 1,
        t.empty > 0 ==> t.code() == 1,
        t.cutting > 0 ==> t.code() == 1,
        t.stalled > 0 ==> t.code() == 1,
        t.failed > 0 ==> t.code() == 1,
{
}

proof fn lemma_cross(a: Seq<char>, x: char, b: Seq<char>)
    requires
        x == 'x' || x == 'X',
        forall|i: int| 0 <= i < a.len() ==> (#[trigger] a[i]) != 'x' && a[i] != 'X',
    ensures
        cross(a + seq![x] + b) == Some(a.len() as int),
    decreases a.len(),
{
    let s = a + seq![x] + b;
    if a.len() > 0 {
        let rest = a.drop_first();
        assert(a[0] != 'x' && a[0] != 'X');
        assert forall|i: int| 0 <= i < rest.len() implies (#[trigger] rest[i]) != 'x' && rest[i] != 'X' by {
            assert(rest[i] == a[i + 1]);
        }
        lemma_cross(rest, x, b);
        assert(s.drop_first() =~= rest + seq![x] + b);
    }
}

proof fn lemma_side(n: nat)
    requires
        1 <= n <= u32::MAX,
    ensures
        side(decimal(n)) == Some(n as int),
        forall|i: int| 0 <= i < decimal(n).len() ==> (#[trigger] decimal(n)[i]) != 'x' && decimal(n)[i] != 'X',
{
    lemma_decimal(n);
    let s = decimal(n);
    assert(48 <= s[0] as u32 <= 57 && 48 <= s[s.len() - 1] as u32 <= 57);
    crate::text_laws::law_trimming_takes_only_white_space(Seq::empty(), s, Seq::empty());
    assert(Seq::<char>::empty() + s + Seq::<char>::empty() =~= s);
    crate::text::law_numbers_round_trip(n, u32::MAX as nat);
}

/// An image is as wide and as high as the two numbers say between which a cross
/// stands, small or large; of no such text it is 900 by 1000.
pub proof fn law_images_have_the_size_asked_for(w: nat, h: nat, x: char, other: Seq<char>)
    requires
        1 <= w <= u32::MAX,
        1 <= h <= u32::MAX,
        x == 'x' || x == 'X',
        forall|i: int| 0 <= i < other.len() ==> (#[trigger] other[i]) != 'x' && other[i] != 'X',
    ensures
        image_size(decimal(w) + seq![x] + decimal(h)) == (w as int, h as int),
        image_size(other) == (900int, 1000int),
{
    let s = decimal(w) + seq![x] + decimal(h);
    lemma_side(w);
    lemma_side(h);
    lemma_cross(decimal(w), x, decimal(h));
    assert(s.take(decimal(w).len() as int) =~= decimal(w));
    assert(s.skip(decimal(w).len() as int + 1) =~= decimal(h));
    lemma_no_cross(other);
}

proof fn lemma_no_cross(s: Seq<char>)
    requires
        forall|i: int| 0 <= i < s.len() ==> (#[trigger] s[i]) != 'x' && s[i] != 'X',
    ensures
        cross(s) is None,
    decreases s.len(),
{
    if s.len() > 0 {
        let rest = s.drop_first();
        assert(s[0] != 'x' && s[0] != 'X');
        assert forall|i: int| 0 <= i < rest.len() implies (#[trigger] rest[i]) != 'x' && rest[i] != 'X' by {
            assert(rest[i] == s[i + 1]);
        }
        lemma_no_cross(rest);
    }
}

/// One column is shown where less than two are asked for, and two where more are.
pub proof fn law_there_are_one_or_two_columns(n: nat)
    requires
        n <= u32::MAX,
    ensures
        n < 2 ==> columns_in(decimal(n)) == 1,
        n >= 2 ==> columns_in(decimal(n)) == 2,
        columns_in(Seq::empty()) == 1,
{
    crate::text::law_numbers_round_trip(n, u32::MAX as nat);
}

/// The search box shows what was typed, or that something can be; a tag that is being
/// typed is shown behind its hash.
pub proof fn law_the_search_box_shows_what_was_typed(
    query: Seq<char>,
    suggestions: Seq<(String, String)>,
    tag: &str,
)
    ensures
        holds(search_markup(query, suggestions, Some(tag)), "#"@ + escaped(tag@) + "</span>"@),
        query.len() > 0 ==> holds(
            search_markup(query, suggestions, None),
            r#"<span class="typed">"#@ + escaped(query) + "</span>"@,
        ),
        query.len() == 0 ==> holds(search_markup(query, suggestions, None), "Type to search"@),
{
    broadcast use lemma_holds_front;

    let head = "<div class=\"search\">\n  <div class=\"field\">"@;
    let none = Seq::<char>::empty();
    reveal_strlit("#");
    reveal_strlit("Type to search");
    reveal_strlit(r##"<span class="hint">tag </span><span class="typed">#"##);
    reveal_strlit(r#"<span class="hint">Type to search</span>"#);
    let label = r##"<span class="hint">tag </span><span class="typed">#"##@;
    let typed = escaped(tag@) + "</span>"@;
    let front = label.take(label.len() - 1);
    assert(label =~= front + "#"@);
    assert(head + (label + escaped(tag@) + "</span>"@) =~= head + front + ("#"@ + escaped(tag@)
        + "</span>"@));
    lemma_ends_in(head + front, "#"@ + escaped(tag@) + "</span>"@, none);
    assert(holds(
        head + crate::grid::field_markup(query, Some(tag)),
        "#"@ + escaped(tag@) + "</span>"@,
    ));
    if query.len() > 0 {
        lemma_ends_in(head, r#"<span class="typed">"#@ + escaped(query) + "</span>"@, none);
    } else {
        let hint = r#"<span class="hint">Type to search</span>"#@;
        assert(hint.subrange(19, 33) =~= "Type to search"@);
        assert(stands_at(hint, "Type to search"@, 19));
        lemma_holds_more(head, hint, none, "Type to search"@);
        assert(head + hint + none =~= head + hint);
    }
}

/// The five characters that markup is made of are written as their references; every
/// other character is written as it is.
pub proof fn law_markup_is_written_as_references(s: Seq<char>, c: char)
    ensures
        escaped(s.push('&')) == escaped(s) + "&amp;"@,
        escaped(s.push('<')) == escaped(s) + "&lt;"@,
        escaped(s.push('>')) == escaped(s) + "&gt;"@,
        escaped(s.push('"')) == escaped(s) + "&quot;"@,
        escaped(s.push('\'')) == escaped(s) + "&#39;"@,
        c != '&' && c != '<' && c != '>' && c != '"' && c != '\'' ==> escaped(s.push(c))
            == escaped(s).push(c),
{
    assert(s.push('&').drop_last() =~= s);
    assert(s.push('<').drop_last() =~= s);
    assert(s.push('>').drop_last() =~= s);
    assert(s.push('"').drop_last() =~= s);
    assert(s.push('\'').drop_last() =~= s);
    assert(s.push(c).drop_last() =~= s);
    assert(escaped(s) + seq![c] =~= escaped(s).push(c));
}

/// A card lists its book's tags, if there are any.
pub proof fn law_a_card_lists_the_tags(b: BookRow)
    ensures
        b.tags@.len() == 0 ==> tags_markup(b).len() == 0,
        b.tags@.len() > 0 ==> holds(tags_markup(b), escaped(tag_line(b.tags@))),
{
    if b.tags@.len() > 0 {
        lemma_holds(r#"<div class="tags">"#@, escaped(tag_line(b.tags@)), "</div>"@);
    }
}

/// A page turns on from where it was, by as much as the time since calls for; one that
/// has only just begun has not moved, and nothing turns but a book.
pub proof fn law_pages_turn_by_the_clock(m: Model, now: u64)
    ensures
        m.slide matches Some(slide) && m.pane == Pane::Reading && now <= slide.at ==> (turning(m, now) matches Some(
            turn,
        ) && turn.t == 0 && turn.from == m.slide->0.from && turn.forward == m.slide->0.forward),
        m.slide matches Some(slide) && m.pane == Pane::Reading && now == slide.at + 80 ==> (turning(
            m,
            now,
        ) matches Some(turn) && turn.t == 750),
        m.slide matches Some(slide) && now >= slide.at + 160 ==> turning(m, now) is None,
        m.slide is None || m.pane != Pane::Reading ==> turning(m, now) is None,
{
    crate::screen_laws::law_turns_slow_down(80);
    if let Some(slide) = m.slide {
        if now == slide.at + 80 {
            assert(now - slide.at == 80);
        }
    }
}

} // verus!
