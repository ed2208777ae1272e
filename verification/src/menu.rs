//! The settings panel over the shelf: the reading theme and the watched folders.
use crate::grid::{escaped, push_escaped};
use crate::markup::{declared, DOCTYPE};
use crate::style::Theme;
use crate::text::{chars_of, owned, push_thousandths, thousandths};
use vstd::prelude::*;

verus! {

/// Width of the panel, in thousandths of a pixel.
pub const MENU_W: i64 = 320_000;

pub const PAGE_0: &'static str = r#"
<html><body>
<div class="menu">
<div class="head">Theme</div>
"#;

pub const FOLDERS: &'static str = r#"<div class="head">Folders</div>
"#;

pub const ADD: &'static str = r#"<div class="row" data-set="add">Add a folder</div>
"#;

pub const FOOT: &'static str = "</div>
</body></html>";

/// A row that is pressed to choose a theme; the one in force is tinted.
pub open spec fn theme_row(theme: Theme, now: Theme) -> Seq<char> {
    (if theme == now {
        "<div class=\"row on\" data-set=\"theme:"@
    } else {
        "<div class=\"row\" data-set=\"theme:"@
    }) + theme.word() + "\">"@ + theme.word() + "</div>\n"@
}

/// A row that is pressed to stop watching a folder.
pub open spec fn folder_row(path: Seq<char>) -> Seq<char> {
    "<div class=\"row\" data-set=\"drop:"@ + escaped(path) + "\">"@ + escaped(path) + "</div>\n"@
}

pub open spec fn folder_rows(folders: Seq<String>) -> Seq<char>
    decreases folders.len(),
{
    if folders.len() == 0 {
        Seq::empty()
    } else {
        folder_rows(folders.drop_last()) + folder_row(folders.last()@)
    }
}

/// The row to add a folder by, or the path being typed.
pub open spec fn add_row(adding: Option<Seq<char>>) -> Seq<char> {
    match adding {
        Some(typed) => "<div class=\"field\">"@ + escaped(typed) + "|</div>\n"@,
        None => ADD@,
    }
}

pub open spec fn menu_markup(now: Theme, folders: Seq<String>, adding: Option<Seq<char>>) -> Seq<char> {
    DOCTYPE@ + PAGE_0@ + theme_row(Theme::White, now) + theme_row(Theme::Sepia, now) + theme_row(
        Theme::Grey,
        now,
    ) + theme_row(Theme::Night, now) + FOLDERS@ + folder_rows(folders) + add_row(adding) + FOOT@
}

fn push_theme(out: &mut String, theme: Theme, now: Theme)
    ensures
        final(out)@ == old(out)@ + theme_row(theme, now),
{
    let mut row = owned(
        if theme == now {
            "<div class=\"row on\" data-set=\"theme:"
        } else {
            "<div class=\"row\" data-set=\"theme:"
        },
    );
    row.append(theme.name());
    row.append("\">");
    row.append(theme.name());
    row.append("</div>\n");
    out.append(row.as_str());
}

fn folder_list(folders: &[String]) -> (r: String)
    ensures
        r@ == folder_rows(folders@),
{
    let mut out = String::new();
    let mut i: usize = 0;
    assert(folders@.take(0) =~= Seq::<String>::empty());
    while i < folders.len()
        invariant
            i <= folders.len(),
            out@ == folder_rows(folders@.take(i as int)),
        decreases folders.len() - i,
    {
        let path = chars_of(folders[i].as_str());
        let mut row = owned("<div class=\"row\" data-set=\"drop:");
        push_escaped(&mut row, &path);
        row.append("\">");
        push_escaped(&mut row, &path);
        row.append("</div>\n");
        out.append(row.as_str());
        proof {
            assert(folders@.take(i + 1).drop_last() =~= folders@.take(i as int));
        }
        i = i + 1;
    }
    assert(folders@.take(folders@.len() as int) =~= folders@);
    out
}

/// The settings panel. Folders are paths off the disk, and are escaped.
pub fn menu_html(now: Theme, folders: &[String], adding: Option<&str>) -> (r: String)
    ensures
        r@ == menu_markup(
            now,
            folders@,
            match adding {
                Some(t) => Some(t@),
                None => None,
            },
        ),
{
    let mut out = owned(DOCTYPE);
    out.append(PAGE_0);
    push_theme(&mut out, Theme::White, now);
    push_theme(&mut out, Theme::Sepia, now);
    push_theme(&mut out, Theme::Grey, now);
    push_theme(&mut out, Theme::Night, now);
    out.append(FOLDERS);
    let list = folder_list(folders);
    out.append(list.as_str());
    match adding {
        Some(typed) => {
            let chars = chars_of(typed);
            let mut row = owned("<div class=\"field\">");
            push_escaped(&mut row, &chars);
            row.append("|</div>\n");
            out.append(row.as_str());
        },
        None => {
            out.append(ADD);
        },
    }
    out.append(FOOT);
    out
}

pub const SHEET_0: &'static str = r#"
html {
  box-sizing: border-box;
  font-family: "Literata", "Charis SIL", serif;
  background: transparent;
  color: "#;

pub const SHEET_1: &'static str = ";
}
html *, html *::before, html *::after { box-sizing: inherit; }
html body { margin: 0; padding: 0; background: transparent; }
html .menu {
  width: ";

pub const SHEET_2: &'static str = "px;
  margin-left: ";

pub const SHEET_3: &'static str = "px;
  margin-top: ";

pub const SHEET_4: &'static str = "px;
  padding: 10px;
  border-radius: 9px;
  background: ";

pub const SHEET_5: &'static str = ";
  font-size: 14px;
}
html .head { color: ";

pub const SHEET_6: &'static str = "; padding: 6px 8px; }
html .row, html .field { padding: 6px 8px; border-radius: 6px; }
html .on { background: #0a84ff33; }
";

pub open spec fn menu_sheet_text(
    fg: Seq<char>,
    subtle: Seq<char>,
    panel: Seq<char>,
    left: nat,
    top: nat,
) -> Seq<char> {
    SHEET_0@ + fg + SHEET_1@ + thousandths(MENU_W as nat) + SHEET_2@ + thousandths(left) + SHEET_3@
        + thousandths(top) + SHEET_4@ + panel + SHEET_5@ + subtle + SHEET_6@
}

/// The settings panel's stylesheet: `left` and `top` say where it hangs, in
/// thousandths of a pixel.
pub fn menu_stylesheet(fg: &str, subtle: &str, panel: &str, left: u64, top: u64) -> (r: String)
    ensures
        r@ == menu_sheet_text(fg@, subtle@, panel@, left as nat, top as nat),
{
    let mut out = owned(SHEET_0);
    out.append(fg);
    out.append(SHEET_1);
    push_thousandths(&mut out, MENU_W as u64);
    out.append(SHEET_2);
    push_thousandths(&mut out, left);
    out.append(SHEET_3);
    push_thousandths(&mut out, top);
    out.append(SHEET_4);
    out.append(panel);
    out.append(SHEET_5);
    out.append(subtle);
    out.append(SHEET_6);
    out
}

/// The settings panel declares a doctype, whatever it offers.
pub proof fn law_the_panel_declares_itself(
    now: Theme,
    folders: Seq<String>,
    adding: Option<Seq<char>>,
)
    ensures
        declared(menu_markup(now, folders, adding)),
{
    let html = menu_markup(now, folders, adding);
    assert(html.take(DOCTYPE@.len() as int) =~= DOCTYPE@);
}

} // verus!
