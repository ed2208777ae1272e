//! The base stylesheet: the reader's typography, the reading themes, and what is
//! kept of a publisher's markup.
//!
//! A publisher's stylesheets are stripped, not cascaded, so this is what every
//! book looks like.
use crate::paginate::clamped;
use crate::text::{
    chars_of, digit_value, extend, find_char, find_word, first_at, holds, joined, lemma_place,
    lemma_place_is, owned, place, push_thousandths, split, stands_at, string_of, thousandths, trim,
    trimmed,
};
use vstd::prelude::*;
use vstd::slice::slice_subrange;

verus! {

/// Text measure, in thousandths of an em. About 66 characters.
pub const MEASURE_EM: i64 = 33_000;

/// Breathing room either side of the measure, in thousandths of an em. Also the
/// minimum gutter when the window is narrower than the measure.
pub const GUTTER_EM: i64 = 1_750;

/// Vertical margin above and below every page, in thousandths of an em.
///
/// This belongs to the page, not the document: a page is a slice of a continuous
/// flow, so padding on the body would only inset the first and last page.
pub const PAGE_MARGIN_EM: i64 = 2_500;

/// Reading themes. Paper decisions, independent of the desktop theme.
#[derive(Debug, Clone, Copy, PartialEq, Eq, Structural)]
pub enum Theme {
    White,
    Sepia,
    Grey,
    Night,
}

impl Theme {
    /// The colour behind the page, by its red, green and blue.
    pub open spec fn ground(self) -> Seq<u8> {
        match self {
            Theme::White => seq![0xfdu8, 0xfd, 0xfe],
            Theme::Sepia => seq![0xf8u8, 0xf1, 0xe3],
            Theme::Grey => seq![0xd6u8, 0xd6, 0xd2],
            Theme::Night => seq![0x14u8, 0x14, 0x16],
        }
    }

    /// Page background, for painting the window ground.
    pub fn background_rgb(self) -> (r: [u8; 3])
        ensures
            r@ == self.ground(),
    {
        match self {
            Theme::White => [0xfd, 0xfd, 0xfe],
            Theme::Sepia => [0xf8, 0xf1, 0xe3],
            Theme::Grey => [0xd6, 0xd6, 0xd2],
            Theme::Night => [0x14, 0x14, 0x16],
        }
    }

    /// Palette for the app chrome: background, text, subtle and panel.
    pub open spec fn chrome(self) -> (Seq<char>, Seq<char>, Seq<char>, Seq<char>) {
        match self {
            Theme::White => ("#fbfbfd"@, "#1c1c1e"@, "#8e8e93"@, "#ececf0"@),
            Theme::Sepia => ("#f6efe1"@, "#4f321c"@, "#96785f"@, "#e8ddc6"@),
            Theme::Grey => ("#d6d6d2"@, "#33332f"@, "#6e6e6a"@, "#c4c4bf"@),
            Theme::Night => ("#111113"@, "#e5e5ea"@, "#6e6e73"@, "#232327"@),
        }
    }

    /// Palette for the app chrome: library grid, panels.
    pub fn chrome_colors(self) -> (r: (&'static str, &'static str, &'static str, &'static str))
        ensures
            (r.0@, r.1@, r.2@, r.3@) == self.chrome(),
    {
        match self {
            Theme::White => ("#fbfbfd", "#1c1c1e", "#8e8e93", "#ececf0"),
            Theme::Sepia => ("#f6efe1", "#4f321c", "#96785f", "#e8ddc6"),
            Theme::Grey => ("#d6d6d2", "#33332f", "#6e6e6a", "#c4c4bf"),
            Theme::Night => ("#111113", "#e5e5ea", "#6e6e73", "#232327"),
        }
    }

    /// Paper colours: background, text and subtle.
    pub open spec fn paper(self) -> (Seq<char>, Seq<char>, Seq<char>) {
        match self {
            Theme::White => ("#fdfdfe"@, "#1c1c1e"@, "#8e8e93"@),
            Theme::Sepia => ("#f8f1e3"@, "#4f321c"@, "#96785f"@),
            Theme::Grey => ("#d6d6d2"@, "#33332f"@, "#6e6e6a"@),
            Theme::Night => ("#141416"@, "#e5e5ea"@, "#6e6e73"@),
        }
    }

    /// Paper colours: background, text and subtle.
    pub fn colors(self) -> (r: (&'static str, &'static str, &'static str))
        ensures
            (r.0@, r.1@, r.2@) == self.paper(),
    {
        match self {
            Theme::White => ("#fdfdfe", "#1c1c1e", "#8e8e93"),
            Theme::Sepia => ("#f8f1e3", "#4f321c", "#96785f"),
            Theme::Grey => ("#d6d6d2", "#33332f", "#6e6e6a"),
            Theme::Night => ("#141416", "#e5e5ea", "#6e6e73"),
        }
    }

    /// The name a theme is kept under.
    pub open spec fn word(self) -> Seq<char> {
        match self {
            Theme::White => "white"@,
            Theme::Sepia => "sepia"@,
            Theme::Grey => "grey"@,
            Theme::Night => "night"@,
        }
    }

    pub fn name(self) -> (r: &'static str)
        ensures
            r@ == self.word(),
    {
        match self {
            Theme::White => "white",
            Theme::Sepia => "sepia",
            Theme::Grey => "grey",
            Theme::Night => "night",
        }
    }

    /// The theme after this one: White, Sepia, Grey, Night and round again.
    pub open spec fn following(self) -> Theme {
        match self {
            Theme::White => Theme::Sepia,
            Theme::Sepia => Theme::Grey,
            Theme::Grey => Theme::Night,
            Theme::Night => Theme::White,
        }
    }

    pub fn next(self) -> (r: Theme)
        ensures
            r == self.following(),
    {
        match self {
            Theme::White => Theme::Sepia,
            Theme::Sepia => Theme::Grey,
            Theme::Grey => Theme::Night,
            Theme::Night => Theme::White,
        }
    }
}

/// Reading surface parameters. The measure is fixed by design.
#[derive(Debug, Clone, Copy, PartialEq, Eq, Structural)]
pub struct ReadingStyle {
    pub theme: Theme,
    /// Multiplier on the 20px base, in thousandths. Clamped to 800..=1600.
    pub scale: i64,
}

impl Default for ReadingStyle {
    fn default() -> (r: Self)
        ensures
            r.theme == Theme::Sepia,
            r.scale == 1000,
    {
        ReadingStyle { theme: Theme::Sepia, scale: 1000 }
    }
}

/// A selector of a rule, and what stands between it and the one before it.
pub struct SelectorModel {
    pub gap: Seq<char>,
    pub name: Seq<char>,
}

impl SelectorModel {
    /// The selector as it is written: under `html`.
    pub open spec fn text(self) -> Seq<char> {
        "html"@ + self.name
    }
}

/// What a rule says: which elements it speaks of, and what it declares of them.
/// `lead` is what stands before it: a blank line, a comment.
pub struct RuleModel {
    pub lead: Seq<char>,
    pub selectors: Seq<SelectorModel>,
    pub body: Seq<char>,
}

/// Selectors as they are written.
pub open spec fn heads(selectors: Seq<SelectorModel>) -> Seq<char>
    decreases selectors.len(),
{
    if selectors.len() == 0 {
        seq![]
    } else {
        heads(selectors.drop_last()) + selectors.last().gap + selectors.last().text()
    }
}

/// A rule on what `name` finds below the root; an empty one is the root.
pub open spec fn rule(lead: Seq<char>, name: Seq<char>, body: Seq<char>) -> RuleModel {
    RuleModel { lead, selectors: seq![SelectorModel { gap: ""@, name }], body }
}

impl RuleModel {
    /// The rule, on these elements too.
    pub open spec fn also(self, gap: Seq<char>, name: Seq<char>) -> RuleModel {
        RuleModel {
            lead: self.lead,
            selectors: self.selectors.push(SelectorModel { gap, name }),
            body: self.body,
        }
    }

    /// The rule as it is written.
    pub open spec fn text(self) -> Seq<char> {
        self.lead + heads(self.selectors) + " {"@ + self.body + "}\n"@
    }
}

/// A stylesheet as it is written: its rules, one behind the other.
pub open spec fn css(rules: Seq<RuleModel>) -> Seq<char>
    decreases rules.len(),
{
    if rules.len() == 0 {
        seq![]
    } else {
        css(rules.drop_last()) + rules.last().text()
    }
}

/// A rule of a stylesheet: its selectors, each behind what stands between it and
/// the one before it.
pub struct Rule {
    pub lead: String,
    pub selectors: Vec<(String, String)>,
    pub body: String,
}

impl View for Rule {
    type V = RuleModel;

    open spec fn view(&self) -> RuleModel {
        RuleModel {
            lead: self.lead@,
            selectors: Seq::new(
                self.selectors@.len(),
                |k: int| SelectorModel { gap: self.selectors@[k].0@, name: self.selectors@[k].1@ },
            ),
            body: self.body@,
        }
    }
}

/// The rules of a list.
pub open spec fn rule_views(rules: Seq<Rule>) -> Seq<RuleModel> {
    Seq::new(rules.len(), |k: int| rules[k]@)
}

impl Rule {
    /// A rule on what `name` finds below the root; an empty one is the root.
    pub fn new(lead: &str, name: &str, body: &str) -> (r: Rule)
        ensures
            r@ == rule(lead@, name@, body@),
    {
        let r = Rule {
            lead: owned(lead),
            selectors: vec![(owned(""), owned(name))],
            body: owned(body),
        };
        assert(r@.selectors =~= rule(lead@, name@, body@).selectors);
        r
    }

    /// The rule, on these elements too.
    pub fn also(self, gap: &str, name: &str) -> (r: Rule)
        ensures
            r@ == self@.also(gap@, name@),
    {
        let ghost before = self@;
        let mut selectors = self.selectors;
        selectors.push((owned(gap), owned(name)));
        let r = Rule { lead: self.lead, selectors, body: self.body };
        assert(r@.selectors =~= before.also(gap@, name@).selectors);
        r
    }
}

fn push_rule(rules: &mut Vec<Rule>, rule: Rule)
    ensures
        rule_views(final(rules)@) == rule_views(old(rules)@).push(rule@),
{
    let ghost before = rule_views(rules@);
    rules.push(rule);
    assert(rule_views(rules@) =~= before.push(rule@));
}

/// Writes a rule out.
fn write_rule(out: &mut String, rule: &Rule)
    ensures
        final(out)@ == old(out)@ + rule@.text(),
{
    let ghost start = out@;
    out.append(rule.lead.as_str());
    let ghost led = out@;
    let ghost all = rule@.selectors;
    let mut k: usize = 0;
    assert(all.take(0) =~= seq![]);
    while k < rule.selectors.len()
        invariant
            k <= rule.selectors.len(),
            all == rule@.selectors,
            out@ =~= led + heads(all.take(k as int)),
        decreases rule.selectors.len() - k,
    {
        let ghost before = out@;
        let ghost sofar = all.take(k + 1);
        proof {
            assert(sofar.drop_last() =~= all.take(k as int));
            assert(sofar.last() == all[k as int]);
        }
        out.append(rule.selectors[k].0.as_str());
        out.append("html");
        out.append(rule.selectors[k].1.as_str());
        assert(out@ =~= before + sofar.last().gap + sofar.last().text());
        k = k + 1;
    }
    assert(all.take(k as int) =~= all);
    out.append(" {");
    out.append(rule.body.as_str());
    out.append("}\n");
    assert(out@ =~= start + rule@.text());
}

/// Writes a stylesheet out.
pub fn css_text(rules: &Vec<Rule>) -> (r: String)
    ensures
        r@ == css(rule_views(rules@)),
{
    let mut out = String::new();
    let ghost all = rule_views(rules@);
    let mut k: usize = 0;
    assert(all.take(0) =~= seq![]);
    while k < rules.len()
        invariant
            k <= rules.len(),
            all == rule_views(rules@),
            out@ =~= css(all.take(k as int)),
        decreases rules.len() - k,
    {
        proof {
            assert(all.take(k + 1).drop_last() =~= all.take(k as int));
            assert(all.take(k + 1).last() == rules@[k as int]@);
        }
        write_rule(&mut out, &rules[k]);
        k = k + 1;
    }
    assert(all.take(k as int) =~= all);
    out
}

/// Rules on running text. Editorial convention: indent, no gap between paragraphs.
pub open spec fn with_text_rules(rules: Seq<RuleModel>) -> Seq<RuleModel> {
    rules.push(
        rule("\n/* Editorial convention: indent, no inter-paragraph gap. */\n"@, " p"@, " margin: 0; text-indent: 1.2em; "@),
    ).push(
        rule(""@, " h1 + p"@, " text-indent: 0; "@).also(", "@, " h2 + p"@).also(", "@, " h3 + p"@).also(", "@, " h4 + p"@).also(", "@, " h5 + p"@).also(", "@, " h6 + p"@).also(",\n"@, " blockquote + p"@).also(", "@, " hr + p"@).also(", "@, " p:first-child"@),
    )
}

fn push_text_rules(rules: &mut Vec<Rule>)
    ensures
        rule_views(final(rules)@) == with_text_rules(rule_views(old(rules)@)),
{
    push_rule(rules, Rule::new("\n/* Editorial convention: indent, no inter-paragraph gap. */\n", " p", " margin: 0; text-indent: 1.2em; "));
    push_rule(rules, Rule::new("", " h1 + p", " text-indent: 0; ").also(", ", " h2 + p").also(", ", " h3 + p").also(", ", " h4 + p").also(", ", " h5 + p").also(", ", " h6 + p").also(",\n", " blockquote + p").also(", ", " hr + p").also(", ", " p:first-child"));
}

/// Rules on headings.
pub open spec fn with_heading_rules(rules: Seq<RuleModel>) -> Seq<RuleModel> {
    rules.push(
        rule("\n"@, " h1"@, "\n  text-align: left;\n  hyphens: none;\n  font-weight: 600;\n  margin: 2em 0 0.6em 0;\n  line-height: 1.25;\n"@).also(",\n"@, " h2"@).also(",\n"@, " h3"@).also(",\n"@, " h4"@).also(",\n"@, " h5"@).also(",\n"@, " h6"@),
    ).push(
        rule(""@, " h1"@, " font-size: 1.5em; "@),
    ).push(
        rule(""@, " h2"@, " font-size: 1.3em; "@),
    ).push(
        rule(""@, " h3"@, " font-size: 1.15em; "@),
    ).push(
        rule(""@, " h4"@, " font-size: 1em; "@).also(", "@, " h5"@).also(", "@, " h6"@),
    )
}

fn push_heading_rules(rules: &mut Vec<Rule>)
    ensures
        rule_views(final(rules)@) == with_heading_rules(rule_views(old(rules)@)),
{
    push_rule(rules, Rule::new("\n", " h1", "\n  text-align: left;\n  hyphens: none;\n  font-weight: 600;\n  margin: 2em 0 0.6em 0;\n  line-height: 1.25;\n").also(",\n", " h2").also(",\n", " h3").also(",\n", " h4").also(",\n", " h5").also(",\n", " h6"));
    push_rule(rules, Rule::new("", " h1", " font-size: 1.5em; "));
    push_rule(rules, Rule::new("", " h2", " font-size: 1.3em; "));
    push_rule(rules, Rule::new("", " h3", " font-size: 1.15em; "));
    push_rule(rules, Rule::new("", " h4", " font-size: 1em; ").also(", ", " h5").also(", ", " h6"));
}

/// Rules on quotations and code. No sideways in a paginated reader: code wraps, never
/// scrolls.
pub open spec fn with_code_rules(rules: Seq<RuleModel>) -> Seq<RuleModel> {
    rules.push(
        rule("\n"@, " blockquote"@, " margin: 1em 2em; font-size: 0.95em; "@),
    ).push(
        rule(""@, " blockquote p"@, " text-indent: 0; "@),
    ).push(
        rule("\n/* No sideways in a paginated reader: code wraps, never scrolls. */\n"@, " pre"@, " font-family: \"IBM Plex Mono\", monospace; "@).also(", "@, " code"@).also(", "@, " kbd"@).also(", "@, " samp"@),
    ).push(
        rule(""@, " pre"@, "\n  white-space: pre-wrap;\n  overflow-wrap: break-word;\n  font-size: 0.9em;\n  line-height: 1.45;\n  text-align: left;\n  hyphens: none;\n  padding: 0.8em 1em;\n  margin: 1.2em 0;\n  border-radius: 6px;\n  background: rgba(127, 127, 127, 0.12);\n"@),
    ).push(
        rule(""@, " code"@, " font-size: 0.9em; "@),
    )
}

fn push_code_rules(rules: &mut Vec<Rule>)
    ensures
        rule_views(final(rules)@) == with_code_rules(rule_views(old(rules)@)),
{
    push_rule(rules, Rule::new("\n", " blockquote", " margin: 1em 2em; font-size: 0.95em; "));
    push_rule(rules, Rule::new("", " blockquote p", " text-indent: 0; "));
    push_rule(rules, Rule::new("\n/* No sideways in a paginated reader: code wraps, never scrolls. */\n", " pre", " font-family: \"IBM Plex Mono\", monospace; ").also(", ", " code").also(", ", " kbd").also(", ", " samp"));
    push_rule(rules, Rule::new("", " pre", "\n  white-space: pre-wrap;\n  overflow-wrap: break-word;\n  font-size: 0.9em;\n  line-height: 1.45;\n  text-align: left;\n  hyphens: none;\n  padding: 0.8em 1em;\n  margin: 1.2em 0;\n  border-radius: 6px;\n  background: rgba(127, 127, 127, 0.12);\n"));
    push_rule(rules, Rule::new("", " code", " font-size: 0.9em; "));
}

/// Rules on pictures.
pub open spec fn with_picture_rules(rules: Seq<RuleModel>) -> Seq<RuleModel> {
    rules.push(
        rule("\n"@, " img"@, "\n  display: block;\n  margin: 1.2em auto;\n  max-width: 100%;\n  max-height: 85vh;\n"@).also(",\n"@, " svg"@),
    ).push(
        rule(""@, " figure"@, " margin: 1.4em 0; "@),
    )
}

fn push_picture_rules(rules: &mut Vec<Rule>)
    ensures
        rule_views(final(rules)@) == with_picture_rules(rule_views(old(rules)@)),
{
    push_rule(rules, Rule::new("\n", " img", "\n  display: block;\n  margin: 1.2em auto;\n  max-width: 100%;\n  max-height: 85vh;\n").also(",\n", " svg"));
    push_rule(rules, Rule::new("", " figure", " margin: 1.4em 0; "));
}

/// Rules on lists and tables.
pub open spec fn with_list_rules(rules: Seq<RuleModel>) -> Seq<RuleModel> {
    rules.push(
        rule("\n"@, " ul"@, " margin: 1em 0; padding-left: 1.6em; "@).also(", "@, " ol"@),
    ).push(
        rule(""@, " li"@, " text-indent: 0; margin: 0.3em 0; "@),
    ).push(
        rule("\n"@, " table"@, "\n  border-collapse: collapse;\n  margin: 1.4em 0;\n  font-size: 0.9em;\n  text-align: left;\n  hyphens: none;\n"@),
    ).push(
        rule(""@, " th"@, "\n  border-bottom: 1px solid rgba(127, 127, 127, 0.3);\n  padding: 0.45em 0.7em;\n  text-indent: 0;\n"@).also(",\n"@, " td"@),
    ).push(
        rule(""@, " th"@, " font-weight: 600; "@),
    )
}

fn push_list_rules(rules: &mut Vec<Rule>)
    ensures
        rule_views(final(rules)@) == with_list_rules(rule_views(old(rules)@)),
{
    push_rule(rules, Rule::new("\n", " ul", " margin: 1em 0; padding-left: 1.6em; ").also(", ", " ol"));
    push_rule(rules, Rule::new("", " li", " text-indent: 0; margin: 0.3em 0; "));
    push_rule(rules, Rule::new("\n", " table", "\n  border-collapse: collapse;\n  margin: 1.4em 0;\n  font-size: 0.9em;\n  text-align: left;\n  hyphens: none;\n"));
    push_rule(rules, Rule::new("", " th", "\n  border-bottom: 1px solid rgba(127, 127, 127, 0.3);\n  padding: 0.45em 0.7em;\n  text-indent: 0;\n").also(",\n", " td"));
    push_rule(rules, Rule::new("", " th", " font-weight: 600; "));
}

/// Rules on what parts a text and on what stands above or below its line.
pub open spec fn with_last_rules(rules: Seq<RuleModel>) -> Seq<RuleModel> {
    rules.push(
        rule(""@, " hr"@, "\n  border: 0;\n  border-top: 1px solid rgba(127, 127, 127, 0.3);\n  margin: 2em auto;\n  width: 30%;\n"@),
    ).push(
        rule(""@, " sup"@, " line-height: 0; "@).also(", "@, " sub"@),
    )
}

fn push_last_rules(rules: &mut Vec<Rule>)
    ensures
        rule_views(final(rules)@) == with_last_rules(rule_views(old(rules)@)),
{
    push_rule(rules, Rule::new("", " hr", "\n  border: 0;\n  border-top: 1px solid rgba(127, 127, 127, 0.3);\n  margin: 2em auto;\n  width: 30%;\n"));
    push_rule(rules, Rule::new("", " sup", " line-height: 0; ").also(", ", " sub"));
}

impl ReadingStyle {
    /// The font size, in thousandths of a pixel.
    pub open spec fn font(&self) -> int {
        20 * clamped(self.scale as int, 800, 1600)
    }

    /// The font size, in thousandths of a pixel.
    pub fn font_px(&self) -> (px: i64)
        ensures
            px == self.font(),
            16_000 <= px <= 32_000,
    {
        let scale: i64 = if self.scale < 800 {
            800
        } else if self.scale > 1600 {
            1600
        } else {
            self.scale
        };
        20 * scale
    }

    /// What is declared of the root.
    pub open spec fn root_body(&self) -> Seq<char> {
        "\n  box-sizing: border-box;\n  font-family: \"Literata\", \"Charis SIL\", serif;\n  font-size: "@ + thousandths(self.font() as nat) + "px;\n  line-height: 1.6;\n  background: "@ + self.theme.paper().0 + ";\n  color: "@ + self.theme.paper().1 + ";\n"@
    }

    fn root_text(&self) -> (r: String)
        ensures
            r@ == self.root_body(),
    {
        let (bg, fg, _) = self.theme.colors();
        let mut out = owned(
            "\n  box-sizing: border-box;\n  font-family: \"Literata\", \"Charis SIL\", serif;\n  font-size: ",
        );
        push_thousandths(&mut out, self.font_px() as u64);
        out.append("px;\n  line-height: 1.6;\n  background: ");
        out.append(bg);
        out.append(";\n  color: ");
        out.append(fg);
        out.append(";\n");
        out
    }

    /// What is declared of the body: a column as wide as the measure, centred.
    pub open spec fn column_body() -> Seq<char> {
        "\n  /* The measure is 33em of text; border-box means the gutters live inside the\n     max-width, so the column is exactly 33em wide however the padding changes.\n     `margin: 0 auto` centres it in one-column mode at every window width. */\n  max-width: "@ + thousandths((MEASURE_EM + 2 * GUTTER_EM) as nat) + "em;\n  margin: 0 auto;\n  /* Horizontal only. Vertical breathing room is the page's job, not the\n     document's — see PAGE_MARGIN_EM. */\n  padding: 0 "@ + thousandths(GUTTER_EM as nat) + "em;\n  text-align: justify;\n  hyphens: auto;\n"@
    }

    fn column_text() -> (r: String)
        ensures
            r@ == Self::column_body(),
    {
        let mut out = owned("\n  /* The measure is 33em of text; border-box means the gutters live inside the\n     max-width, so the column is exactly 33em wide however the padding changes.\n     `margin: 0 auto` centres it in one-column mode at every window width. */\n  max-width: ");
        push_thousandths(&mut out, (MEASURE_EM + 2 * GUTTER_EM) as u64);
        out.append("em;\n  margin: 0 auto;\n  /* Horizontal only. Vertical breathing room is the page's job, not the\n     document's — see PAGE_MARGIN_EM. */\n  padding: 0 ");
        push_thousandths(&mut out, GUTTER_EM as u64);
        out.append("em;\n  text-align: justify;\n  hyphens: auto;\n");
        out
    }

    /// What is declared of a caption.
    pub open spec fn caption_body(&self) -> Seq<char> {
        "\n  font-size: 0.85em;\n  color: "@ + self.theme.paper().2 + ";\n  text-align: center;\n  text-indent: 0;\n  hyphens: none;\n"@
    }

    fn caption_text(&self) -> (r: String)
        ensures
            r@ == self.caption_body(),
    {
        let (_, _, subtle) = self.theme.colors();
        let mut out = owned("\n  font-size: 0.85em;\n  color: ");
        out.append(subtle);
        out.append(";\n  text-align: center;\n  text-indent: 0;\n  hyphens: none;\n");
        out
    }

    /// What is declared of a link.
    pub open spec fn link_body(&self) -> Seq<char> {
        " color: inherit; text-decoration-color: "@ + self.theme.paper().2 + "; "@
    }

    fn link_text(&self) -> (r: String)
        ensures
            r@ == self.link_body(),
    {
        let (_, _, subtle) = self.theme.colors();
        let mut out = owned(" color: inherit; text-decoration-color: ");
        out.append(subtle);
        out.append("; ");
        out
    }

    /// The rules of the reading surface.
    pub open spec fn rules(&self) -> Seq<RuleModel> {
        let ground = Seq::<RuleModel>::empty().push(rule("\n"@, ""@, self.root_body())).push(
            rule(""@, " *"@, " box-sizing: inherit; "@).also(", "@, " *::before"@).also(
                ", "@,
                " *::after"@,
            ),
        ).push(rule("\n"@, " body"@, Self::column_body()));
        let prose = with_code_rules(with_heading_rules(with_text_rules(ground)));
        let captioned = with_picture_rules(prose).push(
            rule(""@, " figcaption"@, self.caption_body()),
        );
        let linked = with_list_rules(captioned).push(rule("\n"@, " a"@, self.link_body()));
        with_last_rules(linked)
    }

    /// The UA stylesheet for the reading surface.
    ///
    /// Every selector is prefixed with `html`: the layout engine applies a default
    /// sheet of its own after this one, and a bare `p` here would lose to the `p`
    /// there. The prefix raises specificity just enough to win.
    pub fn stylesheet(&self) -> (r: String)
        ensures
            r@ == css(self.rules()),
    {
        let mut rules: Vec<Rule> = Vec::new();
        assert(rule_views(rules@) =~= Seq::<RuleModel>::empty());
        push_rule(&mut rules, Rule::new("\n", "", self.root_text().as_str()));
        push_rule(
            &mut rules,
            Rule::new("", " *", " box-sizing: inherit; ").also(", ", " *::before").also(
                ", ",
                " *::after",
            ),
        );
        push_rule(&mut rules, Rule::new("\n", " body", Self::column_text().as_str()));
        push_text_rules(&mut rules);
        push_heading_rules(&mut rules);
        push_code_rules(&mut rules);
        push_picture_rules(&mut rules);
        push_rule(&mut rules, Rule::new("", " figcaption", self.caption_text().as_str()));
        push_list_rules(&mut rules);
        push_rule(&mut rules, Rule::new("\n", " a", self.link_text().as_str()));
        push_last_rules(&mut rules);
        css_text(&rules)
    }
}

/// Every selector of a stylesheet is written under `html`, and a stylesheet is its
/// rules as they are written, one behind the other.
pub proof fn law_every_selector_is_under_html(rules: Seq<RuleModel>, i: int, k: int)
    requires
        0 <= i < rules.len(),
        0 <= k < rules[i].selectors.len(),
    ensures
        rules[i].selectors[k].text().len() >= 4,
        rules[i].selectors[k].text().take(4) == "html"@,
        css(rules) == css(rules.take(i)) + rules[i].text() + css(rules.skip(i + 1)),
{
    reveal_strlit("html");
    assert(rules[i].selectors[k].text().take(4) =~= "html"@);
    lemma_css_concat(rules.take(i + 1), rules.skip(i + 1));
    assert(rules.take(i + 1) + rules.skip(i + 1) =~= rules);
    assert(rules.take(i + 1).drop_last() =~= rules.take(i));
}

proof fn lemma_css_concat(a: Seq<RuleModel>, b: Seq<RuleModel>)
    ensures
        css(a + b) == css(a) + css(b),
    decreases b.len(),
{
    if b.len() == 0 {
        assert(a + b =~= a);
        assert(css(a) + css(b) =~= css(a));
    } else {
        lemma_css_concat(a, b.drop_last());
        assert((a + b).drop_last() =~= a + b.drop_last());
        assert(css(a + b) =~= css(a) + css(b));
    }
}

/// A document without its `open..close` spans, delimiters and all; one that
/// never closes goes to the end.
pub open spec fn without_spans(s: Seq<char>, open: Seq<char>, close: Seq<char>) -> Seq<char>
    decreases s.len(),
{
    match place(s, open) {
        None => s,
        Some(i) => {
            let tail = s.skip(i);
            proof {
                lemma_place(s, open);
                lemma_place(tail, close);
            }
            s.take(i) + match place(tail, close) {
                Some(j) => if j + close.len() > 0 {
                    without_spans(tail.skip(j + close.len()), open, close)
                } else {
                    seq![]
                },
                None => seq![],
            }
        },
    }
}

/// The stretches that are kept between the spans.
pub open spec fn kept_pieces(s: Seq<char>, open: Seq<char>, close: Seq<char>) -> Seq<Seq<char>>
    decreases s.len(),
{
    match place(s, open) {
        None => seq![s],
        Some(i) => {
            let tail = s.skip(i);
            proof {
                lemma_place(s, open);
                lemma_place(tail, close);
            }
            seq![s.take(i)] + match place(tail, close) {
                Some(j) => if j + close.len() > 0 {
                    kept_pieces(tail.skip(j + close.len()), open, close)
                } else {
                    seq![]
                },
                None => seq![],
            }
        },
    }
}

/// Drop every `open..close` span, delimiters included.
fn drop_spans(s: &[char], open: &str, close: &str) -> (r: Vec<char>)
    requires
        close@.len() > 0,
    ensures
        r@ == without_spans(s@, open@, close@),
{
    let n: usize = chars_of(close).len();
    let mut out: Vec<char> = Vec::new();
    let mut rest: &[char] = s;
    proof {
        assert(out@ + without_spans(s@, open@, close@) =~= without_spans(s@, open@, close@));
    }
    loop
        invariant
            n == close@.len(),
            n > 0,
            without_spans(s@, open@, close@) == out@ + without_spans(rest@, open@, close@),
        decreases rest.len(),
    {
        let ghost before = out@;
        match find_word(rest, open) {
            None => {
                extend(&mut out, rest);
                return out;
            },
            Some(i) => {
                let head = slice_subrange(rest, 0, i);
                let tail = slice_subrange(rest, i, rest.len());
                proof {
                    assert(head@ =~= rest@.take(i as int));
                    assert(tail@ =~= rest@.skip(i as int));
                }
                extend(&mut out, head);
                match find_word(tail, close) {
                    Some(j) => {
                        let next = slice_subrange(tail, j + n, tail.len());
                        proof {
                            assert(next@ =~= tail@.skip(j + close@.len()));
                            assert(without_spans(s@, open@, close@) =~= out@ + without_spans(
                                next@,
                                open@,
                                close@,
                            ));
                        }
                        rest = next;
                    },
                    None => {
                        proof {
                            assert(without_spans(s@, open@, close@) =~= out@);
                        }
                        return out;
                    },
                }
            },
        }
    }
}

/// Dropping spans makes a document no longer, and shorter where there is one.
pub proof fn lemma_shorter(s: Seq<char>, open: Seq<char>, close: Seq<char>)
    requires
        open.len() > 0,
    ensures
        without_spans(s, open, close).len() <= s.len(),
        holds(s, open) ==> without_spans(s, open, close).len() < s.len(),
    decreases s.len(),
{
    lemma_place(s, open);
    if let Some(i) = place(s, open) {
        let tail = s.skip(i);
        lemma_place(tail, close);
        if let Some(j) = place(tail, close) {
            if j + close.len() > 0 {
                lemma_shorter(tail.skip(j + close.len()), open, close);
            }
        }
    }
}

/// A document without its style elements, then without its link elements.
pub open spec fn css_dropped(html: Seq<char>) -> Seq<char> {
    without_spans(without_spans(html, "<style"@, "</style>"@), "<link"@, ">"@)
}

/// A document without the publisher's CSS. Where the pieces around what was
/// dropped make up a style or a link element, that one is dropped too.
pub open spec fn without_css(html: Seq<char>) -> Seq<char>
    decreases html.len(),
{
    if holds(html, "<style"@) || holds(html, "<link"@) {
        proof {
            lemma_dropped_is_shorter(html);
        }
        without_css(css_dropped(html))
    } else {
        html
    }
}

/// Dropping CSS makes a document shorter where there is some.
pub proof fn lemma_dropped_is_shorter(html: Seq<char>)
    requires
        holds(html, "<style"@) || holds(html, "<link"@),
    ensures
        css_dropped(html).len() < html.len(),
{
    reveal_strlit("<style");
    reveal_strlit("<link");
    let unstyled = without_spans(html, "<style"@, "</style>"@);
    lemma_shorter(html, "<style"@, "</style>"@);
    lemma_shorter(unstyled, "<link"@, ">"@);
    lemma_place(html, "<style"@);
    if !holds(html, "<style"@) {
        assert(unstyled == html);
    }
}

/// Strip the publisher's CSS.
///
/// This is the whitelist policy, and it also removes the commonest cause of the
/// layout engine failing on real books: a link or a style whose reference cannot
/// be resolved.
pub fn strip_publisher_css(html: &str) -> (r: String)
    ensures
        r@ == without_css(html@),
        !holds(r@, "<style"@),
        !holds(r@, "<link"@),
{
    proof {
        reveal_strlit("</style>");
        reveal_strlit(">");
    }
    let mut kept = chars_of(html);
    loop
        invariant
            "</style>"@.len() > 0,
            ">"@.len() > 0,
            without_css(html@) == without_css(kept@),
        decreases kept.len(),
    {
        proof {
            lemma_place(kept@, "<style"@);
            lemma_place(kept@, "<link"@);
        }
        if find_word(&kept, "<style").is_none() && find_word(&kept, "<link").is_none() {
            return string_of(&kept);
        }
        proof {
            lemma_dropped_is_shorter(kept@);
        }
        let unstyled = drop_spans(&kept, "<style", "</style>");
        kept = drop_spans(&unstyled, "<link", ">");
    }
}

proof fn lemma_kept_pieces(s: Seq<char>, open: Seq<char>, close: Seq<char>)
    requires
        open.len() > 0,
    ensures
        without_spans(s, open, close) == joined(kept_pieces(s, open, close), seq![]),
        forall|k: int| 0 <= k < kept_pieces(s, open, close).len() ==> !holds(#[trigger] kept_pieces(s, open, close)[k], open),
        kept_pieces(s, open, close).len() > 0,
    decreases s.len(),
{
    lemma_place(s, open);
    let pieces = kept_pieces(s, open, close);
    match place(s, open) {
        None => {
            assert(pieces =~= seq![s]);
        },
        Some(i) => {
            let tail = s.skip(i);
            lemma_place(tail, close);
            let head = s.take(i);
            assert(!holds(head, open)) by {
                if holds(head, open) {
                    let j = choose|j: int| #[trigger] stands_at(head, open, j);
                    assert(head.subrange(j, j + open.len()) =~= s.subrange(j, j + open.len()));
                    assert(stands_at(s, open, j));
                }
            }
            match place(tail, close) {
                Some(j) => {
                    if j + close.len() > 0 {
                        let rest = kept_pieces(tail.skip(j + close.len()), open, close);
                        lemma_kept_pieces(tail.skip(j + close.len()), open, close);
                        lemma_joined_first(head, rest);
                        assert forall|k: int| 0 <= k < pieces.len() implies !holds(#[trigger] pieces[k], open) by {
                            if k > 0 {
                                assert(pieces[k] == rest[k - 1]);
                            }
                        }
                    } else {
                        assert(pieces =~= seq![head]);
                        assert(without_spans(s, open, close) =~= head);
                    }
                },
                None => {
                    assert(pieces =~= seq![head]);
                    assert(without_spans(s, open, close) =~= head);
                },
            }
        },
    }
}

proof fn lemma_joined_first(a: Seq<char>, rest: Seq<Seq<char>>)
    ensures
        joined(seq![a] + rest, seq![]) == a + joined(rest, seq![]),
    decreases rest.len(),
{
    let all = seq![a] + rest;
    if rest.len() == 0 {
        assert(all =~= seq![a]);
        assert(a + joined(rest, seq![]) =~= a);
    } else {
        lemma_joined_first(a, rest.drop_last());
        assert(all.drop_last() =~= seq![a] + rest.drop_last());
        if rest.len() == 1 {
            assert(rest.drop_last() =~= seq![]);
            assert(joined(all, seq![]) =~= a + joined(rest, seq![]));
        } else {
            assert(joined(all, seq![]) =~= a + joined(rest, seq![]));
        }
    }
}

/// One pass over a document keeps the stretches between its style and link
/// elements, one behind the other, and no stretch holds one.
pub proof fn law_no_kept_stretch_holds_css(html: Seq<char>)
    ensures
        ({
            let unstyled = without_spans(html, "<style"@, "</style>"@);
            let styles = kept_pieces(html, "<style"@, "</style>"@);
            let links = kept_pieces(unstyled, "<link"@, ">"@);
            &&& unstyled == joined(styles, seq![])
            &&& css_dropped(html) == joined(links, seq![])
            &&& forall|k: int| 0 <= k < styles.len() ==> !holds(#[trigger] styles[k], "<style"@)
            &&& forall|k: int| 0 <= k < links.len() ==> !holds(#[trigger] links[k], "<link"@)
        }),
{
    reveal_strlit("<style");
    reveal_strlit("<link");
    lemma_kept_pieces(html, "<style"@, "</style>"@);
    lemma_kept_pieces(without_spans(html, "<style"@, "</style>"@), "<link"@, ">"@);
}

/// No document keeps any CSS, and stripping twice is stripping once.
pub proof fn law_no_css_is_kept(html: Seq<char>)
    ensures
        !holds(without_css(html), "<style"@),
        !holds(without_css(html), "<link"@),
        without_css(without_css(html)) == without_css(html),
    decreases html.len(),
{
    if holds(html, "<style"@) || holds(html, "<link"@) {
        lemma_dropped_is_shorter(html);
        law_no_css_is_kept(css_dropped(html));
    }
}

/// A document without CSS is kept as it is.
pub proof fn law_documents_without_css_are_kept(html: Seq<char>)
    requires
        !holds(html, "<style"@),
        !holds(html, "<link"@),
    ensures
        without_css(html) == html,
{
}

/// App chrome as CSS colour strings: background, foreground, subtle and panel.
pub type Chrome = (String, String, String, String);

/// Where the desktop leaves the palette it rendered, under the home directory.
pub const OMARCHY_CSS: &'static str = ".local/state/omarchy/current/theme/omaread.css";

/// A `#rrggbb` colour.
pub open spec fn hex_colour(s: Seq<char>) -> bool {
    s.len() == 7 && s[0] == '#' && forall|i: int| 1 <= i < 7 ==> digit_value(#[trigger] s[i], 16) is Some
}

/// The colour that a stylesheet gives the property `--name`: what stands up to
/// the next semicolon, if it is a `#rrggbb`.
pub open spec fn property(css: Seq<char>, name: Seq<char>) -> Option<Seq<char>> {
    let key = "--"@ + name + ":"@;
    match place(css, key) {
        Some(at) => {
            let value = trimmed(split(css.skip(at + key.len()), ';')[0]);
            if hex_colour(value) {
                Some(value)
            } else {
                None
            }
        },
        None => None,
    }
}

fn is_hex_colour(s: &[char]) -> (r: bool)
    ensures
        r == hex_colour(s@),
{
    if s.len() != 7 || s[0] != '#' {
        return false;
    }
    let mut i: usize = 1;
    while i < 7
        invariant
            1 <= i <= 7,
            s.len() == 7,
            forall|k: int| 1 <= k < i ==> digit_value(#[trigger] s@[k], 16) is Some,
        decreases 7 - i,
    {
        if !is_hex_digit(s[i]) {
            assert(digit_value(s@[i as int], 16) is None);
            return false;
        }
        i = i + 1;
    }
    true
}

fn is_hex_digit(c: char) -> (r: bool)
    ensures
        r == digit_value(c, 16) is Some,
{
    let n: u32 = c as u32;
    (48 <= n && n <= 57) || (97 <= n && n <= 102) || (65 <= n && n <= 70)
}

fn read_property(css: &[char], name: &str) -> (r: Option<String>)
    ensures
        match r {
            Some(v) => property(css@, name@) == Some(v@),
            None => property(css@, name@) is None,
        },
{
    let mut key = String::new();
    key.append("--");
    key.append(name);
    key.append(":");
    proof {
        assert(key@ =~= "--"@ + name@ + ":"@);
    }
    match find_word(css, key.as_str()) {
        Some(at) => {
            let n: usize = chars_of(key.as_str()).len();
            let rest = slice_subrange(css, at + n, css.len());
            proof {
                assert(rest@ =~= css@.skip(at + key@.len()));
            }
            let value = match find_char(rest, ';') {
                Some(i) => {
                    let v = slice_subrange(rest, 0, i);
                    assert(v@ =~= rest@.take(i as int));
                    v
                },
                None => rest,
            };
            assert(value@ == split(rest@, ';')[0]);
            let value = trim(value);
            if is_hex_colour(value) {
                Some(string_of(value))
            } else {
                None
            }
        },
        None => None,
    }
}

/// Pull `--bg`, `--fg`, `--subtle` and `--panel` out of a rendered stylesheet.
///
/// Anything not a `#rrggbb` is rejected rather than passed on: a half-rendered
/// template would otherwise paint the whole library black.
pub fn parse_chrome(css: &str) -> (r: Option<Chrome>)
    ensures
        match r {
            Some(c) => property(css@, "bg"@) == Some(c.0@) && property(css@, "fg"@) == Some(c.1@)
                && property(css@, "subtle"@) == Some(c.2@) && property(css@, "panel"@) == Some(c.3@),
            None => property(css@, "bg"@) is None || property(css@, "fg"@) is None || property(
                css@,
                "subtle"@,
            ) is None || property(css@, "panel"@) is None,
        },
{
    let chars = chars_of(css);
    match (
        read_property(&chars, "bg"),
        read_property(&chars, "fg"),
        read_property(&chars, "subtle"),
        read_property(&chars, "panel"),
    ) {
        (Some(bg), Some(fg), Some(subtle), Some(panel)) => Some((bg, fg, subtle, panel)),
        _ => None,
    }
}

proof fn lemma_span_dropped(a: Seq<char>, open: Seq<char>, within: Seq<char>, close: Seq<char>, b: Seq<char>)
    requires
        close.len() > 0,
        first_at(a + open + within + close + b, open, a.len() as int),
        first_at(open + within + close + b, close, (open.len() + within.len()) as int),
        !holds(b, open),
    ensures
        without_spans(a + open + within + close + b, open, close) == a + b,
{
    let s = a + open + within + close + b;
    let tail = s.skip(a.len() as int);
    assert(tail =~= open + within + close + b);
    lemma_place_is(s, open, a.len() as int);
    lemma_place_is(tail, close, (open.len() + within.len()) as int);
    assert(s.take(a.len() as int) =~= a);
    assert(tail.skip((open.len() + within.len() + close.len()) as int) =~= b);
    lemma_place(b, open);
    assert(without_spans(b, open, close) == b);
}

/// A publisher's style sheet is dropped from its tag to its end tag, and what stands
/// around it is kept.
pub proof fn law_only_the_style_sheet_is_dropped(a: Seq<char>, within: Seq<char>, b: Seq<char>)
    requires
        first_at(a + "<style"@ + within + "</style>"@ + b, "<style"@, a.len() as int),
        first_at(
            "<style"@ + within + "</style>"@ + b,
            "</style>"@,
            ("<style"@.len() + within.len()) as int,
        ),
        !holds(b, "<style"@),
        !holds(a + b, "<style"@),
        !holds(a + b, "<link"@),
    ensures
        without_css(a + "<style"@ + within + "</style>"@ + b) == a + b,
{
    reveal_strlit("</style>");
    let s = a + "<style"@ + within + "</style>"@ + b;
    assert(stands_at(s, "<style"@, a.len() as int));
    lemma_span_dropped(a, "<style"@, within, "</style>"@, b);
    lemma_place(a + b, "<link"@);
    assert(css_dropped(s) == a + b);
    lemma_dropped_is_shorter(s);
    assert(without_css(a + b) == a + b);
}

/// A link to a style sheet is dropped with its tag, and what stands around it is kept.
pub proof fn law_only_the_link_is_dropped(a: Seq<char>, within: Seq<char>, b: Seq<char>)
    requires
        first_at(a + "<link"@ + within + ">"@ + b, "<link"@, a.len() as int),
        first_at("<link"@ + within + ">"@ + b, ">"@, ("<link"@.len() + within.len()) as int),
        !holds(b, "<link"@),
        !holds(a + "<link"@ + within + ">"@ + b, "<style"@),
        !holds(a + b, "<style"@),
        !holds(a + b, "<link"@),
    ensures
        without_css(a + "<link"@ + within + ">"@ + b) == a + b,
{
    reveal_strlit(">");
    let s = a + "<link"@ + within + ">"@ + b;
    assert(stands_at(s, "<link"@, a.len() as int));
    lemma_span_dropped(a, "<link"@, within, ">"@, b);
    lemma_place(s, "<style"@);
    assert(css_dropped(s) == a + b);
    lemma_dropped_is_shorter(s);
    assert(without_css(a + b) == a + b);
}

/// A colour of the desktop is read behind its name and a colon, up to the semicolon,
/// where it is one.
pub proof fn law_colours_are_read_behind_their_names(a: Seq<char>, name: Seq<char>, value: Seq<char>, b: Seq<char>)
    requires
        first_at(
            a + "--"@ + name + ":"@ + value + seq![';'] + b,
            "--"@ + name + ":"@,
            a.len() as int,
        ),
        forall|i: int| 0 <= i < value.len() ==> (#[trigger] value[i]) != ';',
    ensures
        property(a + "--"@ + name + ":"@ + value + seq![';'] + b, name) == if hex_colour(
            trimmed(value),
        ) {
            Some(trimmed(value))
        } else {
            None
        },
{
    let s = a + "--"@ + name + ":"@ + value + seq![';'] + b;
    let key = "--"@ + name + ":"@;
    lemma_place_is(s, key, a.len() as int);
    let rest = s.skip((a.len() + key.len()) as int);
    assert(rest =~= value.push(';') + b);
    crate::text::lemma_split_first(value, ';', b);
    assert(split(rest, ';')[0] == value);
}

} // verus!
