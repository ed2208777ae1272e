//! The table of contents, authored in HTML/CSS: a full view rather than a panel
//! floating over the page.
use crate::book::TocEntry;
use crate::grid::{escaped, push_text};
use crate::markup::{declared, DOCTYPE};
use crate::text::{decimal, holds, owned, push_count, stands_at};
use vstd::prelude::*;

verus! {

/// Deeper nesting than this reads as noise, so everything below sits at the
/// same indent. Indent widths live in the stylesheet, as `.d0` to `.d3`.
pub const MAX_DEPTH: usize = 3;

pub const SHEET_0: &'static str = r#"
html {
  box-sizing: border-box;
  font-family: "Literata", "Charis SIL", serif;
  font-size: 15px;
  background: "#;

pub const SHEET_1: &'static str = ";
  color: ";

pub const SHEET_2: &'static str = ";
}
html *, html *::before, html *::after { box-sizing: inherit; }
html body { margin: 0; padding: 0 28px 32px 28px; }

html .bar {
  padding: 22px 4px 18px 4px;
  display: flex;
  align-items: baseline;
}
html .title { font-size: 26px; font-weight: 600; }
html .meta { font-size: 13px; color: ";

pub const SHEET_3: &'static str = "; padding-left: 14px; }

/* A contents list is a column of short lines; the reading measure does not
   apply, but an unbounded one on a wide window is a scan across the desk. */
html .list { max-width: 640px; }

html .row {
  font-size: 16px;
  line-height: 1.35;
  padding-top: 7px;
  padding-bottom: 7px;
  padding-right: 12px;
  border-radius: 7px;
}
";

pub const SHEET_4: &'static str = "html .empty { padding: 40px 14px; color: ";

pub const SHEET_5: &'static str = "; font-size: 15px; }
html .row.here { font-weight: 600; }
html .row.selected { background: ";

pub const SHEET_6: &'static str = "; }
";

/// The indent of an entry.
pub open spec fn indent(depth: nat) -> nat {
    if depth < MAX_DEPTH {
        depth
    } else {
        MAX_DEPTH as nat
    }
}

/// One entry: its indent, whether it is the chapter being read, whether it is
/// selected, its place in the list and its label.
pub open spec fn row_markup(index: nat, e: TocEntry, here: bool, selected: bool) -> Seq<char> {
    r#"<div class="row d"#@ + decimal(indent(e.depth as nat)) + (if here {
        " here"@
    } else {
        seq![]
    }) + (if selected {
        " selected"@
    } else {
        seq![]
    }) + r#"" data-index=""#@ + decimal(index) + r#"">"#@ + escaped(e.label@) + "</div>"@
}

pub open spec fn rows_markup(entries: Seq<TocEntry>, current: usize, selected: usize) -> Seq<char>
    decreases entries.len(),
{
    if entries.len() == 0 {
        seq![]
    } else {
        let i = entries.len() - 1;
        rows_markup(entries.drop_last(), current, selected) + row_markup(
            i as nat,
            entries.last(),
            entries.last().spine == current,
            i == selected,
        )
    }
}

/// The contents document.
pub open spec fn contents_markup(
    entries: Seq<TocEntry>,
    heading: Seq<char>,
    subtitle: Seq<char>,
    current: usize,
    selected: usize,
) -> Seq<char> {
    DOCTYPE@ + "\n<html><body>\n<div class=\"bar\">\n  <span class=\"title\">"@ + escaped(heading)
        + "</span>\n  <span class=\"meta\">"@ + escaped(subtitle) + "</span>\n</div>\n"@ + (
    if entries.len() == 0 {
        r#"<div class="empty">Nothing found.</div>"#@
    } else {
        r#"<div class="list">"#@ + rows_markup(entries, current, selected) + "</div>"@
    }) + "\n</body></html>"@
}

/// One entry of the contents.
pub fn row(index: usize, e: &TocEntry, here: bool, selected: bool) -> (r: String)
    ensures
        r@ == row_markup(index as nat, *e, here, selected),
{
    let none = String::new();
    proof {
        assert(none@ =~= seq![]);
    }
    let mut out = owned(r#"<div class="row d"#);
    push_count(
        &mut out,
        if e.depth < MAX_DEPTH {
            e.depth
        } else {
            MAX_DEPTH
        },
    );
    out.append(
        if here {
            " here"
        } else {
            none.as_str()
        },
    );
    out.append(
        if selected {
            " selected"
        } else {
            none.as_str()
        },
    );
    out.append(r#"" data-index=""#);
    push_count(&mut out, index);
    out.append(r#"">"#);
    push_text(&mut out, e.label.as_str());
    out.append("</div>");
    out
}

/// The contents document: `current` is the spine item being read, `selected`
/// the place of the selected entry.
pub fn html(
    entries: &[TocEntry],
    heading: &str,
    subtitle: &str,
    current: usize,
    selected: usize,
) -> (r: String)
    ensures
        r@ == contents_markup(entries@, heading@, subtitle@, current, selected),
{
    let mut rows = String::new();
    let mut i: usize = 0;
    assert(entries@.take(0) =~= seq![]);
    assert(rows@ =~= seq![]);
    while i < entries.len()
        invariant
            i <= entries.len(),
            rows@ == rows_markup(entries@.take(i as int), current, selected),
        decreases entries.len() - i,
    {
        proof {
            assert(entries@.take(i + 1).drop_last() =~= entries@.take(i as int));
        }
        let one = row(i, &entries[i], entries[i].spine == current, i == selected);
        rows.append(one.as_str());
        i = i + 1;
    }
    assert(entries@.take(i as int) =~= entries@);
    let mut out = owned(DOCTYPE);
    out.append("\n<html><body>\n<div class=\"bar\">\n  <span class=\"title\">");
    push_text(&mut out, heading);
    out.append("</span>\n  <span class=\"meta\">");
    push_text(&mut out, subtitle);
    out.append("</span>\n</div>\n");
    if entries.len() == 0 {
        out.append(r#"<div class="empty">Nothing found.</div>"#);
    } else {
        let mut list = owned(r#"<div class="list">"#);
        list.append(rows.as_str());
        list.append("</div>");
        out.append(list.as_str());
    }
    out.append("\n</body></html>");
    out
}

/// The rule that indents the entries of a depth.
pub open spec fn indent_rule(depth: nat) -> Seq<char> {
    "html .row.d"@ + decimal(depth) + " { padding-left: "@ + decimal(14 + 22 * depth) + "px; }\n"@
}

/// The rules for the first `n` depths.
pub open spec fn indent_rules(n: int) -> Seq<char>
    decreases n,
{
    if n <= 0 {
        seq![]
    } else {
        indent_rules(n - 1) + indent_rule((n - 1) as nat)
    }
}

fn push_indent_rules(out: &mut String)
    ensures
        final(out)@ == old(out)@ + indent_rules(MAX_DEPTH + 1),
{
    let ghost start = out@;
    let mut d: usize = 0;
    assert(start + indent_rules(0) =~= start);
    while d <= MAX_DEPTH
        invariant
            d <= MAX_DEPTH + 1,
            out@ == start + indent_rules(d as int),
        decreases MAX_DEPTH + 1 - d,
    {
        let ghost before = out@;
        out.append("html .row.d");
        push_count(out, d);
        out.append(" { padding-left: ");
        push_count(out, 14 + 22 * d);
        out.append("px; }\n");
        assert(out@ =~= before + indent_rule(d as nat));
        assert(out@ =~= start + indent_rules(d + 1));
        d = d + 1;
    }
}

/// The contents' stylesheet in four colours.
pub open spec fn sheet_text(bg: Seq<char>, fg: Seq<char>, subtle: Seq<char>, panel: Seq<char>) -> Seq<char> {
    SHEET_0@ + bg + SHEET_1@ + fg + SHEET_2@ + subtle + SHEET_3@ + indent_rules(MAX_DEPTH + 1) + SHEET_4@ + subtle + SHEET_5@ + panel + SHEET_6@
}

/// The contents' own stylesheet, supplied as a UA sheet.
pub fn stylesheet(bg: &str, fg: &str, subtle: &str, panel: &str) -> (r: String)
    ensures
        r@ == sheet_text(bg@, fg@, subtle@, panel@),
{
    let mut out = owned(SHEET_0);
    out.append(bg);
    out.append(SHEET_1);
    out.append(fg);
    out.append(SHEET_2);
    out.append(subtle);
    out.append(SHEET_3);
    push_indent_rules(&mut out);
    out.append(SHEET_4);
    out.append(subtle);
    out.append(SHEET_5);
    out.append(panel);
    out.append(SHEET_6);
    out
}

/// A list declares a doctype, whatever it lists.
pub proof fn law_lists_declare_themselves(
    entries: Seq<TocEntry>,
    heading: Seq<char>,
    subtitle: Seq<char>,
    current: usize,
    selected: usize,
)
    ensures
        declared(contents_markup(entries, heading, subtitle, current, selected)),
{
    let html = contents_markup(entries, heading, subtitle, current, selected);
    assert(html.take(DOCTYPE@.len() as int) =~= DOCTYPE@);
}

proof fn lemma_indent_rules(n: int, depth: int) -> (at: int)
    requires
        0 <= depth < n,
    ensures
        stands_at(indent_rules(n), indent_rule(depth as nat), at),
    decreases n,
{
    let all = indent_rules(n);
    let rule = indent_rule(depth as nat);
    if depth == n - 1 {
        let at = indent_rules(n - 1).len() as int;
        assert(all.subrange(at, at + rule.len()) =~= rule);
        at
    } else {
        let at = lemma_indent_rules(n - 1, depth);
        assert(all.subrange(at, at + rule.len()) =~= indent_rules(n - 1).subrange(at, at + rule.len()));
        at
    }
}

/// Every entry has a rule that indents it: the stylesheet of a list holds one for
/// the class that its row is given, whatever its depth.
pub proof fn law_every_row_is_indented(
    depth: nat,
    bg: Seq<char>,
    fg: Seq<char>,
    subtle: Seq<char>,
    panel: Seq<char>,
)
    ensures
        holds(sheet_text(bg, fg, subtle, panel), indent_rule(indent(depth))),
{
    let rule = indent_rule(indent(depth));
    let rules = indent_rules(MAX_DEPTH + 1);
    let at = lemma_indent_rules(MAX_DEPTH + 1, indent(depth) as int);
    let head = SHEET_0@ + bg + SHEET_1@ + fg + SHEET_2@ + subtle + SHEET_3@;
    let tail = SHEET_4@ + subtle + SHEET_5@ + panel + SHEET_6@;
    let sheet = sheet_text(bg, fg, subtle, panel);
    assert(sheet =~= head + rules + tail);
    let from = head.len() + at;
    assert(sheet.subrange(from, from + rule.len()) =~= rules.subrange(at, at + rule.len()));
    assert(stands_at(sheet, rule, from));
}

} // verus!
