//! What the window shows, and what a press on it means.
//!
//! The documents on screen are laid out elsewhere; from what they hold and from
//! the state of the reader follow the frame to paint and the thing a press
//! landed on.
use crate::db::BookRow;
use crate::dom::{ancestor_attr, fits, inherited, Dom};
use crate::frame::{Plan, Turn};
use crate::reader::{Action, Link, MenuChoice, Model, Pane, Press, Reader, Step, Surface};
use crate::screen::{eased, eased_at, parse_hex, rgb, SLIDE};
use crate::text::{chars_of, equal, number_to, parse_count, text_in};
use vstd::prelude::*;

verus! {

/// The documents and boxes at hand for a frame.
#[derive(Debug, Clone, Copy, PartialEq, Eq, Structural)]
pub struct Shown {
    /// The selected card has a box.
    pub card: bool,
    /// The card under the pointer, where it has one.
    pub hovered: Option<usize>,
    pub note: bool,
    pub menu: bool,
    pub bars: bool,
}

/// The page turn that a frame at `now` shows: only in a book, and only until it
/// is over.
pub open spec fn turning(m: Model, now: u64) -> Option<Turn> {
    match m.slide {
        Some(s) => if m.pane == Pane::Reading {
            match eased_at(
                if now > s.at {
                    now - s.at
                } else {
                    0
                },
            ) {
                Some(t) => Some(Turn { from: s.from, forward: s.forward, t: t as i64 }),
                None => None,
            }
        } else {
            None
        },
        None => None,
    }
}

/// What a frame has to show.
pub open spec fn planned(m: Model, shown: Shown, columns: usize, width: i64, now: u64) -> Plan {
    Plan {
        page: m.page,
        columns,
        width,
        turn: turning(m, now),
        hovered: m.pane == Pane::Library && (shown.hovered matches Some(i) && i != m.selected),
        selected: m.pane == Pane::Library && shown.card,
        popup: m.popup && shown.note,
        library: m.pane == Pane::Library,
        menu: m.menu && shown.menu,
        hud: m.pane == Pane::Reading && m.hud_shown && shown.bars,
    }
}

impl Reader {
    /// What a frame has to show.
    pub fn plan(&self, shown: &Shown, columns: usize, width: i64, now: u64) -> (r: Plan)
        ensures
            r == planned(self@, *shown, columns, width, now),
    {
        let reading = match self.pane {
            Pane::Reading => true,
            _ => false,
        };
        let library = match self.pane {
            Pane::Library => true,
            _ => false,
        };
        let turn = match self.slide {
            Some(s) => if reading {
                let since: u64 = if now > s.at {
                    now - s.at
                } else {
                    0
                };
                match eased(since) {
                    Some(t) => Some(Turn { from: s.from, forward: s.forward, t }),
                    None => None,
                }
            } else {
                None
            },
            None => None,
        };
        let other = match shown.hovered {
            Some(i) => i != self.selected,
            None => false,
        };
        Plan {
            page: self.page,
            columns,
            width,
            turn,
            hovered: library && other,
            selected: library && shown.card,
            popup: self.popup && shown.note,
            library,
            menu: self.menu && shown.menu,
            hud: reading && self.hud_shown && shown.bars,
        }
    }

    /// The colour behind the page: the theme's own under a book, the chrome's
    /// under everything else.
    pub fn ground(&self, chrome: &str) -> (r: (u8, u8, u8))
        ensures
            (r.0 as int, r.1 as int, r.2 as int) == self@.ground(chrome@),
    {
        match self.pane {
            Pane::Reading => {
                let c = self.style.theme.background_rgb();
                let r: (u8, u8, u8) = (c[0], c[1], c[2]);
                assert(seq![r.0, r.1, r.2] =~= c@);
                r
            },
            _ => parse_hex(chrome),
        }
    }
}

impl Model {
    /// The colour behind the page.
    pub open spec fn ground(self, chrome: Seq<char>) -> (int, int, int) {
        if self.pane == Pane::Reading {
            let c = self.style.theme.ground();
            (c[0] as int, c[1] as int, c[2] as int)
        } else {
            rgb(chrome)
        }
    }

    /// A press on the page: the bars are on top, so they get it first, then a
    /// link does; what neither takes is left to the page.
    pub open spec fn page_pressed(
        self,
        control: Option<Seq<char>>,
        link: Link,
        label: Seq<char>,
        s: Surface,
    ) -> Option<Step> {
        match control {
            Some(what) => match self.hud_pressed(what, s) {
                Some(step) => Some(step),
                None => self.link_pressed(link, label),
            },
            None => self.link_pressed(link, label),
        }
    }

    /// A press on the shelf or on a list: the settings panel is on top, so it
    /// gets it first.
    pub open spec fn list_pressed(self, choice: Option<MenuChoice>, press: Press) -> Step {
        match self.menu_chosen(choice) {
            Some(step) => step,
            None => self.clicked(press),
        }
    }
}

/// The characters of a text that may be there.
pub open spec fn characters(s: Option<&str>) -> Option<Seq<char>> {
    match s {
        Some(t) => Some(t@),
        None => None,
    }
}

impl Reader {
    /// A press while reading; `None` where the page takes it.
    pub fn page_pressed(
        &mut self,
        control: Option<&str>,
        link: Link,
        label: &str,
        s: &Surface,
    ) -> (r: Option<Vec<Action>>)
        ensures
            match old(self)@.page_pressed(characters(control), link, label@, *s) {
                Some(step) => r matches Some(a) && (final(self)@, a@) == step,
                None => r is None && final(self)@ == old(self)@,
            },
    {
        if let Some(what) = control {
            let done = self.hud_action(what, s);
            if done.is_some() {
                return done;
            }
        }
        self.link_action(link, label)
    }

    /// A press on the shelf or on a list.
    pub fn list_pressed(&mut self, choice: &Option<MenuChoice>, press: &Press) -> (r: Vec<Action>)
        ensures
            (final(self)@, r@) == old(self)@.list_pressed(*choice, *press),
    {
        match self.menu_action(choice) {
            Some(done) => done,
            None => self.on_click(press),
        }
    }
}

/// The first book with an identity, from the `i`th on.
pub open spec fn book_from(rows: Seq<BookRow>, hash: Seq<char>, i: int) -> Option<int>
    decreases rows.len() - i,
{
    if i < 0 || i >= rows.len() {
        None
    } else if rows[i].hash@ == hash {
        Some(i)
    } else {
        book_from(rows, hash, i + 1)
    }
}

/// Where a book is on the shelf.
pub fn find_book(rows: &[BookRow], hash: &str) -> (r: Option<usize>)
    ensures
        match r {
            Some(i) => book_from(rows@, hash@, 0) == Some(i as int),
            None => book_from(rows@, hash@, 0) is None,
        },
{
    let mut i: usize = 0;
    while i < rows.len()
        invariant
            i <= rows@.len(),
            book_from(rows@, hash@, 0) == book_from(rows@, hash@, i as int),
        decreases rows.len() - i,
    {
        if equal(rows[i].hash.as_str(), hash) {
            return Some(i);
        }
        i = i + 1;
    }
    None
}

/// What a press on a node of the shelf landed on: the cog, a completion or a
/// card, whichever is asked first.
pub open spec fn shelf_press(dom: Dom, node: int, rows: Seq<BookRow>, press: Press) -> bool {
    if inherited(dom.nodes@, node, "data-menu"@) is Some {
        press is Gear
    } else {
        match inherited(dom.nodes@, node, "data-suggest"@) {
            Some(text) => press matches Press::Suggestion(t) && t@ == text,
            None => match inherited(dom.nodes@, node, "data-hash"@) {
                Some(hash) => match book_from(rows, hash, 0) {
                    Some(i) => press == Press::Card(i as usize),
                    None => press is Nothing,
                },
                None => press is Nothing,
            },
        }
    }
}

/// What a press on a node of a list landed on.
pub open spec fn entry_press(dom: Dom, node: int, press: Press) -> bool {
    match inherited(dom.nodes@, node, "data-index"@) {
        Some(v) => match number_to(v, 10, usize::MAX as nat) {
            Some(n) => press == Press::Entry(n as usize),
            None => press is Nothing,
        },
        None => press is Nothing,
    }
}

/// Is this what a press on a node of the document on screen landed on?
pub open spec fn pressed_on(dom: Dom, node: int, pane: Pane, rows: Seq<BookRow>, r: Press) -> bool {
    match pane {
        Pane::Library => shelf_press(dom, node, rows, r),
        Pane::Toc => entry_press(dom, node, r),
        Pane::Reading => r is Nothing,
    }
}

/// What a press on a node of the document on screen landed on.
pub fn press_at(dom: &Dom, node: usize, pane: Pane, rows: &[BookRow]) -> (r: Press)
    requires
        dom.wf(),
    ensures
        pressed_on(*dom, node as int, pane, rows@, r),
{
    match pane {
        Pane::Library => {
            if ancestor_attr(dom, node, "data-menu").is_some() {
                return Press::Gear;
            }
            if let Some(text) = ancestor_attr(dom, node, "data-suggest") {
                return Press::Suggestion(text);
            }
            match ancestor_attr(dom, node, "data-hash") {
                Some(hash) => match find_book(rows, hash.as_str()) {
                    Some(i) => Press::Card(i),
                    None => Press::Nothing,
                },
                None => Press::Nothing,
            }
        },
        Pane::Toc => match indexed_at(dom, node) {
            Some(i) => Press::Entry(i),
            None => Press::Nothing,
        },
        Pane::Reading => Press::Nothing,
    }
}

/// The number that a node's row or card has.
pub open spec fn row_number(dom: Dom, node: int) -> Option<usize> {
    match inherited(dom.nodes@, node, "data-index"@) {
        Some(v) => match number_to(v, 10, usize::MAX as nat) {
            Some(n) => Some(n as usize),
            None => None,
        },
        None => None,
    }
}

/// The number of the row or card that a node is in.
pub fn indexed_at(dom: &Dom, node: usize) -> (r: Option<usize>)
    requires
        dom.wf(),
    ensures
        r == row_number(*dom, node as int),
{
    match ancestor_attr(dom, node, "data-index") {
        Some(v) => {
            let chars = chars_of(v.as_str());
            parse_count(&chars)
        },
        None => None,
    }
}

/// The first of some nodes that is inside a link, and where that leads.
pub open spec fn linked_from(dom: Dom, hits: Seq<Option<usize>>, i: int) -> Option<Seq<char>>
    decreases hits.len() - i,
{
    if i < 0 || i >= hits.len() {
        None
    } else {
        let here = match hits[i] {
            Some(node) => inherited(dom.nodes@, node as int, "href"@),
            None => None,
        };
        match here {
            Some(h) => Some(h),
            None => linked_from(dom, hits, i + 1),
        }
    }
}

/// The link among the nodes that were hit: a note reference is a small target, so
/// the points around a press count where the press itself is on no link.
pub fn href_at(dom: &Dom, hits: &[Option<usize>]) -> (r: Option<String>)
    requires
        dom.wf(),
    ensures
        text_in(r) == linked_from(*dom, hits@, 0),
{
    let mut i: usize = 0;
    while i < hits.len()
        invariant
            dom.wf(),
            i <= hits@.len(),
            linked_from(*dom, hits@, 0) == linked_from(*dom, hits@, i as int),
        decreases hits.len() - i,
    {
        if let Some(node) = hits[i] {
            let found = ancestor_attr(dom, node, "href");
            if found.is_some() {
                return found;
            }
        }
        i = i + 1;
    }
    None
}

/// A press that is itself on a link follows that link, whatever is around it.
pub proof fn law_the_exact_point_wins(dom: Dom, hits: Seq<Option<usize>>, node: usize)
    requires
        hits.len() > 0,
        hits[0] == Some(node),
        inherited(dom.nodes@, node as int, "href"@) is Some,
    ensures
        linked_from(dom, hits, 0) == inherited(dom.nodes@, node as int, "href"@),
{
}

/// A press on a control of the bars never reaches the page under it.
pub proof fn law_the_bars_take_their_presses(
    m: Model,
    what: Seq<char>,
    link: Link,
    label: Seq<char>,
    s: Surface,
)
    requires
        m.hud_pressed(what, s) is Some,
    ensures
        m.page_pressed(Some(what), link, label, s) == m.hud_pressed(what, s),
{
}

/// While the settings panel is up, no press reaches the shelf under it.
pub proof fn law_the_panel_takes_every_press(
    m: Model,
    choice: Option<MenuChoice>,
    press: Press,
    other: Press,
)
    requires
        m.menu,
    ensures
        m.list_pressed(choice, press) == m.list_pressed(choice, other),
        m.list_pressed(choice, press).0.pane == m.pane,
        m.list_pressed(choice, press).0.selected == m.selected,
{
}

/// What is planned can be composed, and a turn is on show only until its time is
/// up.
pub proof fn law_frames_can_be_composed(
    m: Model,
    shown: Shown,
    columns: usize,
    width: i64,
    now: u64,
)
    requires
        1 <= columns <= 2,
        0 <= width,
        fits(width),
        m.page < usize::MAX,
        m.slide matches Some(s) ==> s.from < usize::MAX,
    ensures
        planned(m, shown, columns, width, now).wf(),
        planned(m, shown, columns, width, now).turn is Some ==> m.pane == Pane::Reading && (
        m.slide matches Some(s) && now < s.at + SLIDE),
{
    if let Some(s) = m.slide {
        let e = if now > s.at {
            now - s.at
        } else {
            0
        };
        if e < SLIDE {
            assert(0 <= (2 * SLIDE - e) * e <= 320 * 160) by (nonlinear_arith)
                requires
                    0 <= e < 160,
                    SLIDE == 160,
            ;
            assert((2 * SLIDE - e) * e <= 160 * 160) by (nonlinear_arith)
                requires
                    0 <= e < 160,
                    SLIDE == 160,
            ;
            assert(SLIDE * SLIDE == 25_600);
        }
    }
}

} // verus!
