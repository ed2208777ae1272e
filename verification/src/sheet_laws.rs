//! What the stylesheets of the views colour, and where they put things.
use crate::text::{decimal, holds, stands_at, thousandths};
use crate::view_laws::lemma_holds_front;
use vstd::prelude::*;

verus! {

/// A value stands behind the name that the text before it ends in.
proof fn lemma_set(a: Seq<char>, name: Seq<char>, value: Seq<char>)
    requires
        a.len() >= name.len(),
        a.skip(a.len() - name.len()) == name,
    ensures
        holds(a + value, name + value),
{
    let s = a + value;
    let at = a.len() - name.len();
    assert(s.subrange(at, at + (name + value).len()) =~= name + value) by {
        assert forall|i: int| 0 <= i < name.len() implies s[at + i] == name[i] by {
            assert(a.skip(at)[i] == name[i]);
        }
    }
    assert(stands_at(s, name + value, at));
}

/// What a text is set to, it is set to behind anything.
proof fn lemma_set_behind(before: Seq<char>, a: Seq<char>, name: Seq<char>, value: Seq<char>)
    requires
        a.len() >= name.len(),
        a.skip(a.len() - name.len()) == name,
    ensures
        holds(before + a + value, name + value),
{
    let all = before + a;
    assert(all.skip(all.len() - name.len()) =~= a.skip(a.len() - name.len()));
    lemma_set(all, name, value);
}

/// The contents are written in the text colour on the background, what goes with a
/// heading in the subtle one, and the selected row stands on a panel.
pub proof fn law_lists_are_coloured(bg: Seq<char>, fg: Seq<char>, subtle: Seq<char>, panel: Seq<char>)
    ensures
        holds(crate::toc::sheet_text(bg, fg, subtle, panel), "background: "@ + bg),
        holds(crate::toc::sheet_text(bg, fg, subtle, panel), "color: "@ + fg),
        holds(crate::toc::sheet_text(bg, fg, subtle, panel), "color: "@ + subtle),
        holds(crate::toc::sheet_text(bg, fg, subtle, panel), "html .row.selected { background: "@ + panel),
{
    broadcast use lemma_holds_front;

    reveal_strlit(r#"
html {
  box-sizing: border-box;
  font-family: "Literata", "Charis SIL", serif;
  font-size: 15px;
  background: "#);
    reveal_strlit(";
  color: ");
    reveal_strlit(";
}
html *, html *::before, html *::after { box-sizing: inherit; }
html body { margin: 0; padding: 0 28px 32px 28px; }

html .bar {
  padding: 22px 4px 18px 4px;
  display: flex;
  align-items: baseline;
}
html .title { font-size: 26px; font-weight: 600; }
html .meta { font-size: 13px; color: ");
    reveal_strlit("; font-size: 15px; }
html .row.here { font-weight: 600; }
html .row.selected { background: ");
    reveal_strlit("background: ");
    reveal_strlit("color: ");
    reveal_strlit("html .row.selected { background: ");
    assert(crate::toc::SHEET_0@.skip(crate::toc::SHEET_0@.len() - "background: "@.len()) =~= "background: "@);
    lemma_set(crate::toc::SHEET_0@, "background: "@, bg);
    assert(crate::toc::SHEET_1@.skip(crate::toc::SHEET_1@.len() - "color: "@.len()) =~= "color: "@);
    lemma_set_behind(crate::toc::SHEET_0@ + bg, crate::toc::SHEET_1@, "color: "@, fg);
    assert(crate::toc::SHEET_2@.skip(crate::toc::SHEET_2@.len() - "color: "@.len()) =~= "color: "@);
    lemma_set_behind(crate::toc::SHEET_0@ + bg + crate::toc::SHEET_1@ + fg, crate::toc::SHEET_2@, "color: "@, subtle);
    assert(crate::toc::SHEET_5@.skip(crate::toc::SHEET_5@.len() - "html .row.selected { background: "@.len()) =~= "html .row.selected { background: "@);
    lemma_set_behind(crate::toc::SHEET_0@ + bg + crate::toc::SHEET_1@ + fg + crate::toc::SHEET_2@ + subtle + crate::toc::SHEET_3@ + crate::toc::indent_rules(crate::toc::MAX_DEPTH + 1) + crate::toc::SHEET_4@ + subtle, crate::toc::SHEET_5@, "html .row.selected { background: "@, panel);
}

/// The bars are written in the text colour on a panel, over the page.
pub proof fn law_the_bars_are_coloured(fg: Seq<char>, subtle: Seq<char>, panel: Seq<char>)
    ensures
        holds(crate::hud::sheet_text(fg, subtle, panel), "color: "@ + fg),
        holds(crate::hud::sheet_text(fg, subtle, panel), "padding: "@ + thousandths(16_000)),
        holds(crate::hud::sheet_text(fg, subtle, panel), "height: "@ + thousandths(34_000)),
        holds(crate::hud::sheet_text(fg, subtle, panel), "background: "@ + panel),
        holds(crate::hud::sheet_text(fg, subtle, panel), "html .btn {
  color: "@ + subtle),
{
    broadcast use lemma_holds_front;

    reveal_strlit(r#"
html {
  box-sizing: border-box;
  font-family: "Literata", "Charis SIL", serif;
  background: transparent;
  color: "#);
    reveal_strlit(";
}
html *, html *::before, html *::after { box-sizing: inherit; }
html body { margin: 0; padding: ");
    reveal_strlit("px 24px; background: transparent; }

html .hud {
  display: flex;
  /* Not `baseline`: a flex container takes its baseline from its first item,
     and for the buttons with icons that is an empty 11px box, so they sat a few
     pixels above the plain-text ones. Centring does not care. */
  align-items: center;
  height: ");
    reveal_strlit("px;
  padding: 7px 16px;
  border-radius: 9px;
  background: ");
    reveal_strlit(";
  font-size: 13px;
}
/* The title is the book, so it carries the weight. */
html .title {
  flex-grow: 1;
  overflow: hidden;
  white-space: nowrap;
  font-weight: 600;
  padding-left: 12px;
}
html .grow { flex-grow: 1; }

/* Every control is a click target; `data-hud` is what the window hit-tests. */
html .btn {
  color: ");
    reveal_strlit("color: ");
    reveal_strlit("padding: ");
    reveal_strlit("height: ");
    reveal_strlit("background: ");
    reveal_strlit("html .btn {
  color: ");
    assert(crate::hud::SHEET_0@.skip(crate::hud::SHEET_0@.len() - "color: "@.len()) =~= "color: "@);
    lemma_set(crate::hud::SHEET_0@, "color: "@, fg);
    assert(crate::hud::SHEET_1@.skip(crate::hud::SHEET_1@.len() - "padding: "@.len()) =~= "padding: "@);
    lemma_set_behind(crate::hud::SHEET_0@ + fg, crate::hud::SHEET_1@, "padding: "@, thousandths(16_000));
    assert(crate::hud::SHEET_2@.skip(crate::hud::SHEET_2@.len() - "height: "@.len()) =~= "height: "@);
    lemma_set_behind(crate::hud::SHEET_0@ + fg + crate::hud::SHEET_1@ + thousandths(16_000), crate::hud::SHEET_2@, "height: "@, thousandths(34_000));
    assert(crate::hud::SHEET_3@.skip(crate::hud::SHEET_3@.len() - "background: "@.len()) =~= "background: "@);
    lemma_set_behind(crate::hud::SHEET_0@ + fg + crate::hud::SHEET_1@ + thousandths(16_000) + crate::hud::SHEET_2@ + thousandths(34_000), crate::hud::SHEET_3@, "background: "@, panel);
    assert(crate::hud::SHEET_4@.skip(crate::hud::SHEET_4@.len() - "html .btn {
  color: "@.len()) =~= "html .btn {
  color: "@);
    lemma_set_behind(crate::hud::SHEET_0@ + fg + crate::hud::SHEET_1@ + thousandths(16_000) + crate::hud::SHEET_2@ + thousandths(34_000) + crate::hud::SHEET_3@ + panel, crate::hud::SHEET_4@, "html .btn {
  color: "@, subtle);
}

/// A note is written in the text colour on a panel.
pub proof fn law_notes_are_coloured(fg: Seq<char>, subtle: Seq<char>, panel: Seq<char>)
    ensures
        holds(crate::hud::note_sheet_text(fg, subtle, panel), "color: "@ + fg),
        holds(crate::hud::note_sheet_text(fg, subtle, panel), "background: "@ + panel),
{
    broadcast use lemma_holds_front;

    reveal_strlit(r#"
html {
  box-sizing: border-box;
  font-family: "Literata", "Charis SIL", serif;
  background: transparent;
  color: "#);
    reveal_strlit(";
  background: ");
    reveal_strlit("color: ");
    reveal_strlit("background: ");
    assert(crate::hud::NOTE_SHEET_0@.skip(crate::hud::NOTE_SHEET_0@.len() - "color: "@.len()) =~= "color: "@);
    lemma_set(crate::hud::NOTE_SHEET_0@, "color: "@, fg);
    assert(crate::hud::NOTE_SHEET_2@.skip(crate::hud::NOTE_SHEET_2@.len() - "background: "@.len()) =~= "background: "@);
    lemma_set_behind(crate::hud::NOTE_SHEET_0@ + fg + crate::hud::NOTE_SHEET_1@ + subtle, crate::hud::NOTE_SHEET_2@, "background: "@, panel);
}

/// The settings are written in the text colour on a panel, under subtle headings, and
/// hang where they are put.
pub proof fn law_the_settings_are_coloured(fg: Seq<char>, subtle: Seq<char>, panel: Seq<char>, left: nat, top: nat)
    ensures
        holds(crate::menu::menu_sheet_text(fg, subtle, panel, left, top), "color: "@ + fg),
        holds(crate::menu::menu_sheet_text(fg, subtle, panel, left, top), "margin-left: "@ + thousandths(left)),
        holds(crate::menu::menu_sheet_text(fg, subtle, panel, left, top), "margin-top: "@ + thousandths(top)),
        holds(crate::menu::menu_sheet_text(fg, subtle, panel, left, top), "background: "@ + panel),
        holds(crate::menu::menu_sheet_text(fg, subtle, panel, left, top), "html .head { color: "@ + subtle),
{
    broadcast use lemma_holds_front;

    reveal_strlit(r#"
html {
  box-sizing: border-box;
  font-family: "Literata", "Charis SIL", serif;
  background: transparent;
  color: "#);
    reveal_strlit("px;
  margin-left: ");
    reveal_strlit("px;
  margin-top: ");
    reveal_strlit("px;
  padding: 10px;
  border-radius: 9px;
  background: ");
    reveal_strlit(";
  font-size: 14px;
}
html .head { color: ");
    reveal_strlit("color: ");
    reveal_strlit("margin-left: ");
    reveal_strlit("margin-top: ");
    reveal_strlit("background: ");
    reveal_strlit("html .head { color: ");
    assert(crate::menu::SHEET_0@.skip(crate::menu::SHEET_0@.len() - "color: "@.len()) =~= "color: "@);
    lemma_set(crate::menu::SHEET_0@, "color: "@, fg);
    assert(crate::menu::SHEET_2@.skip(crate::menu::SHEET_2@.len() - "margin-left: "@.len()) =~= "margin-left: "@);
    lemma_set_behind(crate::menu::SHEET_0@ + fg + crate::menu::SHEET_1@ + thousandths(crate::menu::MENU_W as nat), crate::menu::SHEET_2@, "margin-left: "@, thousandths(left));
    assert(crate::menu::SHEET_3@.skip(crate::menu::SHEET_3@.len() - "margin-top: "@.len()) =~= "margin-top: "@);
    lemma_set_behind(crate::menu::SHEET_0@ + fg + crate::menu::SHEET_1@ + thousandths(crate::menu::MENU_W as nat) + crate::menu::SHEET_2@ + thousandths(left), crate::menu::SHEET_3@, "margin-top: "@, thousandths(top));
    assert(crate::menu::SHEET_4@.skip(crate::menu::SHEET_4@.len() - "background: "@.len()) =~= "background: "@);
    lemma_set_behind(crate::menu::SHEET_0@ + fg + crate::menu::SHEET_1@ + thousandths(crate::menu::MENU_W as nat) + crate::menu::SHEET_2@ + thousandths(left) + crate::menu::SHEET_3@ + thousandths(top), crate::menu::SHEET_4@, "background: "@, panel);
    assert(crate::menu::SHEET_5@.skip(crate::menu::SHEET_5@.len() - "html .head { color: "@.len()) =~= "html .head { color: "@);
    lemma_set_behind(crate::menu::SHEET_0@ + fg + crate::menu::SHEET_1@ + thousandths(crate::menu::MENU_W as nat) + crate::menu::SHEET_2@ + thousandths(left) + crate::menu::SHEET_3@ + thousandths(top) + crate::menu::SHEET_4@ + panel, crate::menu::SHEET_5@, "html .head { color: "@, subtle);
}

/// The shelf is written in the text colour on the background, and a book without a
/// cover stands as a panel; cards are as wide, as high and as far apart as their rows
/// are counted.
pub proof fn law_the_shelf_is_coloured(bg: Seq<char>, fg: Seq<char>, subtle: Seq<char>, panel: Seq<char>)
    ensures
        holds(crate::grid::sheet_text(bg, fg, subtle, panel), "background: "@ + bg),
        holds(crate::grid::sheet_text(bg, fg, subtle, panel), "color: "@ + fg),
        holds(crate::grid::sheet_text(bg, fg, subtle, panel), "background: "@ + panel),
        holds(crate::grid::sheet_text(bg, fg, subtle, panel), "gap: "@ + decimal(30)),
        holds(crate::grid::sheet_text(bg, fg, subtle, panel), "html .card {
  width: "@ + decimal(225)),
        holds(crate::grid::sheet_text(bg, fg, subtle, panel), "height: "@ + decimal(439)),
        holds(crate::grid::sheet_text(bg, fg, subtle, panel), "html .cover.blank { background: "@ + panel),
{
    broadcast use lemma_holds_front;

    reveal_strlit(r#"
html {
  box-sizing: border-box;
  font-family: "Literata", "Charis SIL", serif;
  font-size: 15px;
  background: "#);
    reveal_strlit(";
  color: ");
    reveal_strlit("; padding-left: 14px; }

/* The search column sits at the right of the bar. */
html .search { width: 420px; padding-left: 28px; }
html .field {
  background: ");
    reveal_strlit("; font-size: 12px; padding-left: 12px; }

/* Capped and centred, so a wide screen gets a shelf rather than a wall. */
html .grid {
  display: flex;
  flex-wrap: wrap;
  gap: ");
    reveal_strlit("px;
  margin: 0 auto;
}

/* No padding: it existed to inset the old `.selected` background, and the
   selection is painted now. Without it the card's width is exactly the pitch
   `per_row` counts in. */
html .card {
  width: ");
    reveal_strlit("px;
  /* Same box for every card, and the paginator is told not to cut through one
     (`data-atom`), so a page holds whole rows of whole cards. */
  height: ");
    reveal_strlit("px;
  border-radius: 5px;
}
html .cover.blank { background: ");
    reveal_strlit("background: ");
    reveal_strlit("color: ");
    reveal_strlit("gap: ");
    reveal_strlit("html .card {
  width: ");
    reveal_strlit("height: ");
    reveal_strlit("html .cover.blank { background: ");
    assert(crate::grid::SHEET_0@.skip(crate::grid::SHEET_0@.len() - "background: "@.len()) =~= "background: "@);
    lemma_set(crate::grid::SHEET_0@, "background: "@, bg);
    assert(crate::grid::SHEET_1@.skip(crate::grid::SHEET_1@.len() - "color: "@.len()) =~= "color: "@);
    lemma_set_behind(crate::grid::SHEET_0@ + bg, crate::grid::SHEET_1@, "color: "@, fg);
    assert(crate::grid::SHEET_6@.skip(crate::grid::SHEET_6@.len() - "background: "@.len()) =~= "background: "@);
    lemma_set_behind(crate::grid::SHEET_0@ + bg + crate::grid::SHEET_1@ + fg + crate::grid::SHEET_2@ + decimal(28) + crate::grid::SHEET_3@ + decimal(28) + crate::grid::SHEET_4@ + decimal(crate::grid::grid_width_spec()) + crate::grid::SHEET_5@ + subtle, crate::grid::SHEET_6@, "background: "@, panel);
    assert(crate::grid::SHEET_10@.skip(crate::grid::SHEET_10@.len() - "gap: "@.len()) =~= "gap: "@);
    lemma_set_behind(crate::grid::SHEET_0@ + bg + crate::grid::SHEET_1@ + fg + crate::grid::SHEET_2@ + decimal(28) + crate::grid::SHEET_3@ + decimal(28) + crate::grid::SHEET_4@ + decimal(crate::grid::grid_width_spec()) + crate::grid::SHEET_5@ + subtle + crate::grid::SHEET_6@ + panel + crate::grid::SHEET_7@ + subtle + crate::grid::SHEET_8@ + panel + crate::grid::SHEET_9@ + subtle, crate::grid::SHEET_10@, "gap: "@, decimal(30));
    assert(crate::grid::SHEET_12@.skip(crate::grid::SHEET_12@.len() - "html .card {
  width: "@.len()) =~= "html .card {
  width: "@);
    lemma_set_behind(crate::grid::SHEET_0@ + bg + crate::grid::SHEET_1@ + fg + crate::grid::SHEET_2@ + decimal(28) + crate::grid::SHEET_3@ + decimal(28) + crate::grid::SHEET_4@ + decimal(crate::grid::grid_width_spec()) + crate::grid::SHEET_5@ + subtle + crate::grid::SHEET_6@ + panel + crate::grid::SHEET_7@ + subtle + crate::grid::SHEET_8@ + panel + crate::grid::SHEET_9@ + subtle + crate::grid::SHEET_10@ + decimal(30) + crate::grid::SHEET_11@ + decimal(crate::grid::grid_width_spec()), crate::grid::SHEET_12@, "html .card {
  width: "@, decimal(225));
    assert(crate::grid::SHEET_13@.skip(crate::grid::SHEET_13@.len() - "height: "@.len()) =~= "height: "@);
    lemma_set_behind(crate::grid::SHEET_0@ + bg + crate::grid::SHEET_1@ + fg + crate::grid::SHEET_2@ + decimal(28) + crate::grid::SHEET_3@ + decimal(28) + crate::grid::SHEET_4@ + decimal(crate::grid::grid_width_spec()) + crate::grid::SHEET_5@ + subtle + crate::grid::SHEET_6@ + panel + crate::grid::SHEET_7@ + subtle + crate::grid::SHEET_8@ + panel + crate::grid::SHEET_9@ + subtle + crate::grid::SHEET_10@ + decimal(30) + crate::grid::SHEET_11@ + decimal(crate::grid::grid_width_spec()) + crate::grid::SHEET_12@ + decimal(225), crate::grid::SHEET_13@, "height: "@, decimal(439));
    assert(crate::grid::SHEET_15@.skip(crate::grid::SHEET_15@.len() - "html .cover.blank { background: "@.len()) =~= "html .cover.blank { background: "@);
    lemma_set_behind(crate::grid::SHEET_0@ + bg + crate::grid::SHEET_1@ + fg + crate::grid::SHEET_2@ + decimal(28) + crate::grid::SHEET_3@ + decimal(28) + crate::grid::SHEET_4@ + decimal(crate::grid::grid_width_spec()) + crate::grid::SHEET_5@ + subtle + crate::grid::SHEET_6@ + panel + crate::grid::SHEET_7@ + subtle + crate::grid::SHEET_8@ + panel + crate::grid::SHEET_9@ + subtle + crate::grid::SHEET_10@ + decimal(30) + crate::grid::SHEET_11@ + decimal(crate::grid::grid_width_spec()) + crate::grid::SHEET_12@ + decimal(225) + crate::grid::SHEET_13@ + decimal(439) + crate::grid::SHEET_14@ + decimal(348), crate::grid::SHEET_15@, "html .cover.blank { background: "@, panel);
}

} // verus!
