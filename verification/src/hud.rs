//! The reading HUD: the book's title and how far through it you are.
//!
//! Chrome that appears on a mouse move and goes away again on its own, so the
//! page is uninterrupted while you read.
use crate::grid::{escaped, push_text};
use crate::markup::{declared, DOCTYPE};
use crate::text::{decimal, owned, push_count, push_thousandths, thousandths};
use vstd::prelude::*;

verus! {

/// Height of a bar and the window inset, in thousandths of a pixel. Both bars
/// are in normal flow, so the bottom one is placed by a computed margin.
pub const BAR: i64 = 34_000;

pub const INSET: i64 = 16_000;

pub const PAGE_0: &'static str = r#"
<html><body>
<div class="hud">
  <span class="btn" data-hud="bookmark"><span class="ico" data-icon="bookmark"></span><span class="lbl">Bookmark</span></span>
  <span class="btn" data-hud="contents"><span class="ico" data-icon="contents"></span><span class="lbl">Contents</span></span>
  <span class="btn" data-hud=""#;

pub const PAGE_1: &'static str = r#""><span class="ico" data-icon="highlight"></span><span class="lbl">"#;

pub const PAGE_2: &'static str = r#"</span></span>
  <span class="grow"></span>
  <span class="btn" data-hud="smaller">A−</span>
  <span class="btn" data-hud="bigger">A+</span>
  <span class="btn" data-hud="columns">"#;

pub const PAGE_3: &'static str = r#" col</span>
</div>
<div class="hud" style="margin-top: "#;

pub const PAGE_4: &'static str = r#"px">
  <span class="btn" data-hud="library"><span class="ico" data-icon="back"></span><span class="lbl">Library</span></span>
  <span class="title">"#;

pub const PAGE_5: &'static str = "</span>
  ";

/// The way back, where there is one.
pub const BACK: &'static str = r#"<span class="btn" data-hud="back">"#;

pub const READOUT: &'static str = r#"<span class="btn" data-hud="readout">"#;

pub const PAGE_6: &'static str = "</span>
</div>
</body></html>";

pub const SHEET_0: &'static str = r#"
html {
  box-sizing: border-box;
  font-family: "Literata", "Charis SIL", serif;
  background: transparent;
  color: "#;

pub const SHEET_1: &'static str = ";
}
html *, html *::before, html *::after { box-sizing: inherit; }
html body { margin: 0; padding: ";

pub const SHEET_2: &'static str = "px 24px; background: transparent; }

html .hud {
  display: flex;
  /* Not `baseline`: a flex container takes its baseline from its first item,
     and for the buttons with icons that is an empty 11px box, so they sat a few
     pixels above the plain-text ones. Centring does not care. */
  align-items: center;
  height: ";

pub const SHEET_3: &'static str = "px;
  padding: 7px 16px;
  border-radius: 9px;
  background: ";

pub const SHEET_4: &'static str = ";
  font-size: 13px;
}
/* The title is the book, so it carries the weight. */
html .title {
  flex-grow: 1;
  overflow: hidden;
  white-space: nowrap;
  font-weight: 600;
  padding-left: 12px;
}
html .grow { flex-grow: 1; }

/* Every control is a click target; `data-hud` is what the window hit-tests. */
html .btn {
  color: ";

pub const SHEET_5: &'static str = ";
  padding: 3px 9px;
  margin-left: 4px;
  border-radius: 6px;
  white-space: nowrap;
}

/* An empty box the window paints an icon into; it only has to hold the space.
   The button is a flex row so the slot gets a real layout box: an inline-block
   inside text becomes a parley inline box, whose `final_layout` size is 0, and
   the window would have nowhere to paint. */
html .btn { display: flex; align-items: center; }
html .ico {
  width: 11px;
  height: 11px;
  margin-right: 6px;
}
html .lbl { white-space: nowrap; }
";

/// How far below the top bar the bottom one goes, so that both keep the inset
/// from the window's edges; never less than nothing.
pub open spec fn push_down(window_height: int) -> int {
    let push = window_height - 2 * INSET - 2 * BAR;
    if push < 0 {
        0
    } else {
        push
    }
}

/// Once the pointer is inside a highlight, the useful offer is removing it.
pub open spec fn mark_action(on_highlight: bool) -> Seq<char> {
    if on_highlight {
        "unhighlight"@
    } else {
        "highlight"@
    }
}

pub open spec fn mark_label(on_highlight: bool) -> Seq<char> {
    if on_highlight {
        "Remove"@
    } else {
        "Highlight"@
    }
}

/// The HUD document.
pub open spec fn hud_markup(
    title: Seq<char>,
    readout: Seq<char>,
    columns: nat,
    on_highlight: bool,
    window_height: int,
    back: Option<Seq<char>>,
) -> Seq<char> {
    let bars = DOCTYPE@ + PAGE_0@ + mark_action(on_highlight) + PAGE_1@ + mark_label(on_highlight) + PAGE_2@
        + decimal(columns) + PAGE_3@ + thousandths(push_down(window_height) as nat) + PAGE_4@
        + escaped(title) + PAGE_5@;
    (match back {
        Some(label) => bars + BACK@ + escaped(label) + PAGE_5@,
        None => bars,
    }) + READOUT@ + escaped(readout) + PAGE_6@
}

/// The HUD document. `readout` is whatever the foot of the page should say, a
/// percentage or a page number; `window_height` is in thousandths of a CSS pixel.
pub fn html(
    title: &str,
    readout: &str,
    columns: usize,
    on_highlight: bool,
    window_height: i64,
) -> (r: String)
    ensures
        r@ == hud_markup(title@, readout@, columns as nat, on_highlight, window_height as int, None),
{
    html_with_back(title, readout, columns, on_highlight, window_height, None)
}

/// The HUD document, with a control that leads back to where a link was followed
/// from.
pub fn html_with_back(
    title: &str,
    readout: &str,
    columns: usize,
    on_highlight: bool,
    window_height: i64,
    back: Option<&str>,
) -> (r: String)
    ensures
        r@ == hud_markup(
            title@,
            readout@,
            columns as nat,
            on_highlight,
            window_height as int,
            match back {
                Some(label) => Some(label@),
                None => None,
            },
        ),
{
    // The top bar starts at the inset; this drops the bottom one to end at the
    // inset from the foot.
    let push: u64 = if window_height <= 100_000 {
        0
    } else {
        (window_height - 2 * INSET - 2 * BAR) as u64
    };
    let mut out = owned(DOCTYPE);
    out.append(PAGE_0);
    out.append(if on_highlight { "unhighlight" } else { "highlight" });
    out.append(PAGE_1);
    out.append(if on_highlight { "Remove" } else { "Highlight" });
    out.append(PAGE_2);
    push_count(&mut out, columns);
    out.append(PAGE_3);
    push_thousandths(&mut out, push);
    out.append(PAGE_4);
    push_text(&mut out, title);
    out.append(PAGE_5);
    if let Some(label) = back {
        out.append(BACK);
        push_text(&mut out, label);
        out.append(PAGE_5);
    }
    out.append(READOUT);
    push_text(&mut out, readout);
    out.append(PAGE_6);
    out
}

/// The HUD's stylesheet in three colours.
pub open spec fn sheet_text(fg: Seq<char>, subtle: Seq<char>, panel: Seq<char>) -> Seq<char> {
    SHEET_0@ + fg + SHEET_1@ + thousandths(INSET as nat) + SHEET_2@ + thousandths(BAR as nat) + SHEET_3@ + panel + SHEET_4@ + subtle + SHEET_5@
}

/// The page shows through, so the document and its body stay transparent; only
/// the bar itself paints a ground.
pub fn stylesheet(fg: &str, subtle: &str, panel: &str) -> (r: String)
    ensures
        r@ == sheet_text(fg@, subtle@, panel@),
{
    let mut out = owned(SHEET_0);
    out.append(fg);
    out.append(SHEET_1);
    push_thousandths(&mut out, INSET as u64);
    out.append(SHEET_2);
    push_thousandths(&mut out, BAR as u64);
    out.append(SHEET_3);
    out.append(panel);
    out.append(SHEET_4);
    out.append(subtle);
    out.append(SHEET_5);
    out
}

pub const NOTE_HEAD: &'static str = r#"
<html><body>
<div class="note">"#;

pub const NOTE_FOOT: &'static str = "</div>
</body></html>";

/// The document of a note.
pub open spec fn note_markup(text: Seq<char>) -> Seq<char> {
    DOCTYPE@ + NOTE_HEAD@ + escaped(text) + NOTE_FOOT@
}

/// A note on show over the page.
pub fn note_html(text: &str) -> (r: String)
    ensures
        r@ == note_markup(text@),
{
    let mut out = owned(DOCTYPE);
    out.append(NOTE_HEAD);
    push_text(&mut out, text);
    out.append(NOTE_FOOT);
    out
}

pub const NOTE_SHEET_0: &'static str = r#"
html {
  box-sizing: border-box;
  font-family: "Literata", "Charis SIL", serif;
  background: transparent;
  color: "#;

pub const NOTE_SHEET_1: &'static str = ";
}
html *, html *::before, html *::after { box-sizing: inherit; }
html body { margin: 0; padding: 80px 24px; background: transparent; }
html .note {
  max-width: 33em;
  margin: 0 auto;
  padding: 16px 20px;
  border-radius: 9px;
  border: 1px solid ";

pub const NOTE_SHEET_2: &'static str = ";
  background: ";

pub const NOTE_SHEET_3: &'static str = ";
  font-size: 16px;
  line-height: 1.5;
}
";

pub open spec fn note_sheet_text(fg: Seq<char>, subtle: Seq<char>, panel: Seq<char>) -> Seq<char> {
    NOTE_SHEET_0@ + fg + NOTE_SHEET_1@ + subtle + NOTE_SHEET_2@ + panel + NOTE_SHEET_3@
}

/// The stylesheet of a note on show; the page shows through around it.
pub fn note_stylesheet(fg: &str, subtle: &str, panel: &str) -> (r: String)
    ensures
        r@ == note_sheet_text(fg@, subtle@, panel@),
{
    let mut out = owned(NOTE_SHEET_0);
    out.append(fg);
    out.append(NOTE_SHEET_1);
    out.append(subtle);
    out.append(NOTE_SHEET_2);
    out.append(panel);
    out.append(NOTE_SHEET_3);
    out
}

/// The two bars, the inset above and below and the gap between them fill the
/// window exactly, once it is tall enough for both bars.
pub proof fn law_the_bars_sit_at_the_head_and_foot(window_height: int)
    requires
        window_height >= 2 * INSET + 2 * BAR,
    ensures
        INSET + BAR + push_down(window_height) + BAR + INSET == window_height,
{
}

/// The bars declare a doctype, whatever they say.
pub proof fn law_the_bars_declare_themselves(
    title: Seq<char>,
    readout: Seq<char>,
    columns: nat,
    on_highlight: bool,
    window_height: int,
    back: Option<Seq<char>>,
)
    ensures
        declared(hud_markup(title, readout, columns, on_highlight, window_height, back)),
{
    let html = hud_markup(title, readout, columns, on_highlight, window_height, back);
    assert(html.take(DOCTYPE@.len() as int) =~= DOCTYPE@);
}

/// A note declares a doctype, whatever it says.
pub proof fn law_notes_declare_themselves(text: Seq<char>)
    ensures
        declared(note_markup(text)),
{
    let html = note_markup(text);
    assert(html.take(DOCTYPE@.len() as int) =~= DOCTYPE@);
}

} // verus!
