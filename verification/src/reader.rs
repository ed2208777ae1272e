//! The reading window: what is on screen, and what a key, a press or the clock
//! makes of it.
//!
//! The window decides here and acts elsewhere: each event yields the next state
//! and the actions to perform, in order. What an action finds out comes back as
//! another event.
use crate::db::Sort;
use crate::marks::Mark;
use crate::paginate::clamped;
use crate::readout::TocMode;
use crate::screen::{FRAME, HUD_LINGER, SLIDE};
use crate::style::{ReadingStyle, Theme};
use crate::text::text_in;
use vstd::prelude::*;

verus! {

/// Which surface is on screen. Every one is a laid-out document; only where the
/// markup comes from differs.
#[derive(Debug, Clone, Copy, PartialEq, Eq, Structural)]
pub enum Pane {
    Library,
    Reading,
    Toc,
}

/// A key that was pressed; `Text` is what a printing key types.
#[derive(Debug, Clone)]
pub enum Key {
    Escape,
    Enter,
    Backspace,
    Tab,
    Space,
    Left,
    Right,
    Up,
    Down,
    PageUp,
    PageDown,
    Home,
    End,
    F2,
    F5,
    Text(String),
    Other,
}

/// A page turn in flight: the page being left, which way it went, and when it
/// began.
#[derive(Debug, Clone, Copy, PartialEq, Eq, Structural)]
pub struct Slide {
    pub from: usize,
    pub forward: bool,
    pub at: u64,
}

/// Where the reader was before following a link or an entry, and how to say so.
#[derive(Debug, Clone)]
pub struct Back {
    pub spine: usize,
    pub page: usize,
    pub label: String,
}

/// What the window is to do.
#[derive(Debug, Clone, Copy, PartialEq, Eq, Structural)]
pub enum Action {
    Exit,
    /// Store the position the reader is at, if they are in a book.
    SaveHere,
    /// Store a page of the open chapter as the position.
    SaveAt(usize),
    /// List the books again, and the completions with them.
    ReloadRows,
    /// List the completions again.
    Complete,
    OpenSelected,
    AddFolder,
    ApplyTag,
    /// Look through the watched folders.
    Rescan,
    OpenMenu,
    BuildMenu,
    DropFolder,
    /// The shelf has to be laid out again.
    DropLibrary,
    /// Name the window after the application.
    ShowTitle,
    /// Select the book that was open.
    SelectOpenBook,
    /// Go to the page the selected card is on.
    FollowSelection,
    /// Lay out a chapter, on its last page if backwards.
    Load { index: usize, backwards: bool },
    Restyle,
    Relayout,
    MeasureBook,
    SaveScale,
    SaveTheme,
    ToggleBookmark,
    Highlight,
    CopySelection,
    RemoveMark(i64),
    LoadMarks,
    BuildToc,
    /// The list has to be laid out again.
    DropToc,
    /// Go to the page the selected entry is on.
    FollowToc,
    OpenEntry(usize),
    SaveNote,
    DeleteMark(i64),
    OpenNote,
    /// Go to a spine item, and to the followed link's fragment in it.
    GoTo(usize),
    GoBack,
    DropHud,
    Redraw,
}

/// What the layouts on screen say: the pages of the view's own document and of
/// the chapter, the columns that paint, the cards in a row, the contents entry
/// that covers the chapter, and the time in milliseconds.
#[derive(Debug, Clone, Copy, PartialEq, Eq, Structural)]
pub struct Surface {
    pub pages: usize,
    pub chapter_pages: usize,
    pub columns: usize,
    pub cards: usize,
    pub covering: usize,
    pub now: u64,
}

/// The state of the window.
#[derive(Debug, Clone)]
pub struct Reader {
    pub pane: Pane,
    /// What the search box holds.
    pub query: String,
    pub sort: Sort,
    /// How many books are listed.
    pub rows: usize,
    pub selected: usize,
    /// A tag being typed for the selected book. Tagging borrows the search box.
    pub tagging: Option<String>,
    /// The settings panel is up.
    pub menu: bool,
    /// The folder path being typed into it.
    pub adding: Option<String>,
    pub mode: TocMode,
    /// How many entries the contents view lists.
    pub listed: usize,
    pub toc_sel: usize,
    /// In-book search.
    pub find: String,
    /// The mark being annotated, and the note as typed so far.
    pub noting: Option<i64>,
    pub note: String,
    /// A book is open.
    pub book: bool,
    /// How many spine items it has.
    pub chapters: usize,
    pub index: usize,
    /// The page of whichever view is on screen.
    pub page: usize,
    /// The reading page to come back to when the contents close.
    pub resume_page: usize,
    /// One or two, as asked for.
    pub columns: usize,
    pub style: ReadingStyle,
    /// The foot of the page shows a page number, not a percentage.
    pub show_page: bool,
    /// A note is on show over the page.
    pub popup: bool,
    /// The highlight that the last press landed in.
    pub mark: Option<i64>,
    pub back: Option<Back>,
    pub slide: Option<Slide>,
    pub hud_shown: bool,
    /// When to put the bars away.
    pub hud_until: Option<u64>,
    /// When to leave by itself.
    pub exit_at: Option<u64>,
}

/// The state of the window, its texts as characters.
#[verifier::ext_equal]
pub struct Model {
    pub pane: Pane,
    pub query: Seq<char>,
    pub sort: Sort,
    pub rows: usize,
    pub selected: usize,
    pub tagging: Option<Seq<char>>,
    pub menu: bool,
    pub adding: Option<Seq<char>>,
    pub mode: TocMode,
    pub listed: usize,
    pub toc_sel: usize,
    pub find: Seq<char>,
    pub noting: Option<i64>,
    pub note: Seq<char>,
    pub book: bool,
    pub chapters: usize,
    pub index: usize,
    pub page: usize,
    pub resume_page: usize,
    pub columns: usize,
    pub style: ReadingStyle,
    pub show_page: bool,
    pub popup: bool,
    pub mark: Option<i64>,
    pub back: Option<(usize, usize, Seq<char>)>,
    pub slide: Option<Slide>,
    pub hud_shown: bool,
    pub hud_until: Option<u64>,
    pub exit_at: Option<u64>,
}

impl View for Reader {
    type V = Model;

    open spec fn view(&self) -> Model {
        Model {
            pane: self.pane,
            query: self.query@,
            sort: self.sort,
            rows: self.rows,
            selected: self.selected,
            tagging: text_in(self.tagging),
            menu: self.menu,
            adding: text_in(self.adding),
            mode: self.mode,
            listed: self.listed,
            toc_sel: self.toc_sel,
            find: self.find@,
            noting: self.noting,
            note: self.note@,
            book: self.book,
            chapters: self.chapters,
            index: self.index,
            page: self.page,
            resume_page: self.resume_page,
            columns: self.columns,
            style: self.style,
            show_page: self.show_page,
            popup: self.popup,
            mark: self.mark,
            back: match self.back {
                Some(b) => Some((b.spine, b.page, b.label@)),
                None => None,
            },
            slide: self.slide,
            hud_shown: self.hud_shown,
            hud_until: self.hud_until,
            exit_at: self.exit_at,
        }
    }
}

/// `s` without its last character.
pub open spec fn rubbed(s: Seq<char>) -> Seq<char> {
    if s.len() == 0 {
        s
    } else {
        s.drop_last()
    }
}

/// A text that may be there, with more behind it.
pub open spec fn typed_on(t: Option<Seq<char>>, more: Seq<char>) -> Option<Seq<char>> {
    match t {
        Some(s) => Some(s + more),
        None => None,
    }
}

pub open spec fn rubbed_in(t: Option<Seq<char>>) -> Option<Seq<char>> {
    match t {
        Some(s) => Some(rubbed(s)),
        None => None,
    }
}

/// The last of `n` things, counted from nought; nought for none.
pub open spec fn last_of(n: int) -> int {
    if n > 0 {
        n - 1
    } else {
        0
    }
}

/// A time `ms` after `now`.
pub open spec fn later(now: u64, ms: u64) -> u64 {
    if now + ms <= u64::MAX {
        (now + ms) as u64
    } else {
        u64::MAX
    }
}

/// What a pressed control of the settings panel asks for.
#[derive(Debug, Clone)]
pub enum MenuChoice {
    Theme(Theme),
    /// Stop watching a folder.
    Drop(String),
    /// Type a folder to watch.
    Add,
    Other,
}

/// What a press on the shelf or on a list landed on.
#[derive(Debug, Clone)]
pub enum Press {
    Gear,
    Suggestion(String),
    Card(usize),
    Entry(usize),
    Nothing,
}

/// What a press on the page landed on, as far as links go.
#[derive(Debug, Clone, Copy, PartialEq, Eq, Structural)]
pub enum Link {
    /// No link.
    Nothing,
    /// A link out of the book.
    Outside,
    /// A link that leads nowhere in the book.
    Broken,
    /// A note to read here.
    Note,
    /// A place in a spine item.
    Place(usize),
}

/// When the window wakes by itself.
#[derive(Debug, Clone, Copy, PartialEq, Eq, Structural)]
pub enum Wake {
    /// As it was told before.
    Unchanged,
    /// When something happens.
    Never,
    At(u64),
}

pub type Step = (Model, Seq<Action>);

impl Model {
    /// The page the reader is at. All views share one page, so behind a list it
    /// is the page to come back to, and on the shelf there is none.
    pub open spec fn place(self) -> Option<usize> {
        match self.pane {
            Pane::Library => None,
            Pane::Reading => Some(self.page),
            Pane::Toc => Some(self.resume_page),
        }
    }

    /// The page is on the list or the shelf, and stays on it.
    pub open spec fn paged(self, forward: bool, s: Surface) -> Model {
        Model {
            page: if forward {
                clamped(self.page + 1, 0, last_of(s.pages as int)) as usize
            } else {
                last_of(self.page as int) as usize
            },
            ..self
        }
    }

    /// The selection moved along the shelf.
    pub open spec fn selecting(self, by: int) -> Step {
        if self.rows == 0 {
            (self, seq![])
        } else {
            (
                Model { selected: clamped(self.selected + by, 0, self.rows - 1) as usize, ..self },
                seq![Action::FollowSelection, Action::Redraw],
            )
        }
    }

    /// A key while the settings panel is up: the panel takes every one.
    pub open spec fn menu_pressed(self, key: Key) -> Step {
        let built = seq![Action::BuildMenu];
        if self.adding is Some {
            match key {
                Key::Escape => (Model { adding: None, ..self }, built),
                Key::Enter => (self, seq![Action::AddFolder]),
                Key::Backspace => (Model { adding: rubbed_in(self.adding), ..self }, built),
                Key::Text(c) => (Model { adding: typed_on(self.adding, c@), ..self }, built),
                Key::Space => (Model { adding: typed_on(self.adding, " "@), ..self }, built),
                Key::F5 => (self, seq![Action::Rescan, Action::BuildMenu]),
                _ => (self, seq![]),
            }
        } else {
            match key {
                Key::Escape => (Model { menu: false, ..self }, seq![Action::Redraw]),
                Key::F5 => (self, seq![Action::Rescan, Action::BuildMenu]),
                _ => (self, seq![]),
            }
        }
    }

    /// A key while a tag is being typed: every letter is tag text.
    pub open spec fn tag_pressed(self, key: Key) -> Step {
        let changed = seq![Action::Complete, Action::DropLibrary, Action::Redraw];
        match key {
            Key::Escape => (Model { tagging: None, ..self }, changed),
            Key::Enter => (self, seq![Action::ApplyTag] + changed),
            Key::Backspace => (Model { tagging: rubbed_in(self.tagging), ..self }, changed),
            Key::Text(c) => (Model { tagging: typed_on(self.tagging, c@), ..self }, changed),
            Key::Space => (Model { tagging: typed_on(self.tagging, "-"@), ..self }, changed),
            _ => (self, seq![]),
        }
    }

    /// A key on the shelf. Typing searches, so sorting, scanning and tagging
    /// live on keys that are no letters.
    pub open spec fn shelf_pressed(self, key: Key, s: Surface) -> Step {
        let listed = seq![Action::ReloadRows, Action::DropLibrary, Action::Redraw];
        let turned = seq![Action::DropLibrary, Action::Redraw];
        match key {
            Key::Escape => if self.query.len() == 0 {
                (self, seq![Action::Exit, Action::DropLibrary, Action::Redraw])
            } else {
                (Model { query: Seq::empty(), ..self }, listed)
            },
            Key::Enter => (self, seq![Action::OpenSelected]),
            Key::Backspace => (Model { query: rubbed(self.query), ..self }, listed),
            Key::Right => self.selecting(1),
            Key::Left => self.selecting(-1),
            Key::Down => self.selecting(s.cards as int),
            Key::Up => self.selecting(-(s.cards as int)),
            Key::PageDown => (self.paged(true, s), turned),
            Key::PageUp => (self.paged(false, s), turned),
            Key::Space => if self.query.len() == 0 {
                (self.paged(true, s), turned)
            } else {
                (Model { query: self.query + " "@, ..self }, listed)
            },
            Key::Tab => (Model { sort: self.sort.following(), ..self }, listed),
            Key::F5 => (self, seq![Action::Rescan, Action::DropLibrary, Action::Redraw]),
            Key::F2 => if self.rows > 0 {
                (
                    Model { tagging: Some(Seq::empty()), ..self },
                    seq![Action::Complete, Action::DropLibrary, Action::Redraw],
                )
            } else {
                (self, seq![])
            },
            Key::Text(c) => (Model { query: self.query + c@, ..self }, listed),
            _ => (self, seq![]),
        }
    }

    pub open spec fn library_pressed(self, key: Key, s: Surface) -> Step {
        if self.menu {
            self.menu_pressed(key)
        } else if self.tagging is Some {
            self.tag_pressed(key)
        } else {
            self.shelf_pressed(key, s)
        }
    }

    /// The contents open: on the entry covering where the reader is, at the top
    /// of a search or of the marks.
    pub open spec fn contents_opened(self, s: Surface) -> Step {
        if self.book {
            (
                Model {
                    resume_page: self.page,
                    toc_sel: if self.mode == TocMode::Contents {
                        s.covering
                    } else {
                        0
                    },
                    pane: Pane::Toc,
                    page: 0,
                    ..self
                },
                seq![Action::BuildToc, Action::FollowToc, Action::Redraw],
            )
        } else {
            (self, seq![])
        }
    }

    /// The contents close, and the reader is where they were.
    pub open spec fn contents_closed(self, s: Surface) -> Step {
        (
            Model {
                mode: TocMode::Contents,
                noting: None,
                pane: Pane::Reading,
                page: clamped(self.resume_page as int, 0, last_of(s.chapter_pages as int)) as usize,
                ..self
            },
            seq![Action::Redraw],
        )
    }

    /// The shelf shows, from its top, with the book just closed selected.
    pub open spec fn shelved(self) -> Step {
        (
            Model { page: 0, pane: Pane::Library, ..self },
            seq![
                Action::SaveAt(
                    if self.pane == Pane::Toc {
                        self.resume_page
                    } else {
                        self.page
                    },
                ),
                Action::ShowTitle,
                Action::ReloadRows,
                Action::SelectOpenBook,
                Action::Redraw,
            ],
        )
    }

    /// A page turned, across a chapter boundary where there is no other way.
    pub open spec fn turned(self, forward: bool, s: Surface) -> Step {
        let slid = Some(Slide { from: self.page, forward, at: s.now });
        if forward {
            if self.page + s.columns <= last_of(s.pages as int) {
                (
                    Model { page: (self.page + s.columns) as usize, slide: slid, ..self },
                    seq![Action::SaveHere, Action::Redraw],
                )
            } else if self.index + 1 < self.chapters {
                (
                    self,
                    seq![
                        Action::Load { index: (self.index + 1) as usize, backwards: false },
                        Action::SaveHere,
                        Action::Redraw,
                    ],
                )
            } else {
                (self, seq![])
            }
        } else if self.page >= s.columns {
            (
                Model { page: (self.page - s.columns) as usize, slide: slid, ..self },
                seq![Action::SaveHere, Action::Redraw],
            )
        } else if self.index > 0 {
            (
                self,
                seq![
                    Action::Load { index: (self.index - 1) as usize, backwards: true },
                    Action::SaveHere,
                    Action::Redraw,
                ],
            )
        } else {
            (self, seq![])
        }
    }

    /// A chapter turned.
    pub open spec fn chapter_turned(self, forward: bool) -> Seq<Action> {
        let next = if forward {
            self.index + 1
        } else {
            self.index - 1
        };
        if 0 <= next < self.chapters {
            seq![Action::Load { index: next as usize, backwards: false }, Action::Redraw]
        } else {
            seq![]
        }
    }

    /// What has to be measured again when the layout changes.
    pub open spec fn measured_again(self) -> Seq<Action> {
        if self.show_page {
            seq![Action::MeasureBook]
        } else {
            seq![]
        }
    }

    /// The other number of columns.
    pub open spec fn recolumned(self) -> Step {
        (
            Model {
                columns: if self.columns == 2 {
                    1
                } else {
                    2
                },
                ..self
            },
            seq![Action::Relayout] + self.measured_again() + seq![Action::Redraw],
        )
    }

    /// Another letter size, within bounds.
    pub open spec fn rescaled(self, scale: int) -> Step {
        let to = clamped(scale, 800, 1600) as i64;
        if to == self.style.scale {
            (self, seq![])
        } else {
            (
                Model { style: ReadingStyle { scale: to, ..self.style }, ..self },
                seq![Action::SaveScale, Action::Restyle] + self.measured_again(),
            )
        }
    }

    pub open spec fn rethemed(self) -> Step {
        (
            Model { style: ReadingStyle { theme: self.style.theme.following(), ..self.style }, ..self },
            seq![Action::SaveTheme, Action::Restyle],
        )
    }

    /// A letter typed while reading is a command.
    pub open spec fn reading_typed(self, c: Seq<char>, s: Surface) -> Step {
        if c == "q"@ {
            (self, seq![Action::SaveHere, Action::Exit])
        } else if c == "l"@ {
            self.shelved()
        } else if c == "/"@ {
            Model { find: Seq::empty(), mode: TocMode::Search, ..self }.contents_opened(s)
        } else if c == "m"@ {
            let next = Model { mode: TocMode::Marks, ..self }.contents_opened(s);
            (next.0, seq![Action::LoadMarks] + next.1)
        } else if c == "b"@ {
            (self, seq![Action::ToggleBookmark])
        } else if c == "h"@ {
            (self, seq![Action::Highlight])
        } else if c == "y"@ {
            (self, seq![Action::CopySelection])
        } else if c == "c"@ {
            self.recolumned()
        } else if c == "t"@ {
            self.rethemed()
        } else if c == "+"@ || c == "="@ {
            self.rescaled(self.style.scale + 100)
        } else if c == "-"@ {
            self.rescaled(self.style.scale - 100)
        } else {
            (self, seq![])
        }
    }

    pub open spec fn reading_pressed(self, key: Key, s: Surface) -> Step {
        match key {
            Key::Escape => self.shelved(),
            Key::Tab => self.contents_opened(s),
            Key::Right | Key::PageDown | Key::Space => self.turned(true, s),
            Key::Left | Key::PageUp => self.turned(false, s),
            Key::Down => (self, self.chapter_turned(true)),
            Key::Up => (self, self.chapter_turned(false)),
            Key::Text(c) => self.reading_typed(c@, s),
            _ => (self, seq![]),
        }
    }

    /// The selection moved along the list.
    pub open spec fn entry_moved(self, by: int) -> Step {
        if self.listed == 0 {
            (self, seq![Action::DropToc, Action::Redraw])
        } else {
            (
                Model { toc_sel: clamped(self.toc_sel + by, 0, self.listed - 1) as usize, ..self },
                seq![Action::FollowToc, Action::DropToc, Action::Redraw],
            )
        }
    }

    /// A letter on a list is a command where nothing is being typed.
    pub open spec fn list_typed(self, c: Seq<char>, marks: Seq<Mark>) -> Step {
        let changed = seq![Action::DropToc, Action::Redraw];
        if c == "q"@ {
            (self, seq![Action::SaveHere, Action::Exit])
        } else if c == "l"@ {
            self.shelved()
        } else if self.mode == TocMode::Marks && c == "n"@ {
            if self.toc_sel < marks.len() {
                (
                    Model {
                        note: marks[self.toc_sel as int].note@,
                        noting: Some(marks[self.toc_sel as int].id),
                        ..self
                    },
                    changed,
                )
            } else {
                (self, changed)
            }
        } else if self.mode == TocMode::Marks && c == "x"@ {
            if self.toc_sel < marks.len() {
                (self, seq![Action::DeleteMark(marks[self.toc_sel as int].id)] + changed)
            } else {
                (self, changed)
            }
        } else {
            (self, seq![])
        }
    }

    /// A key on a list. While a note or a query is being typed every letter is
    /// text, so the commands are out of reach.
    pub open spec fn toc_pressed(self, key: Key, s: Surface, marks: Seq<Mark>) -> Step {
        let changed = seq![Action::DropToc, Action::Redraw];
        let noting = self.noting is Some;
        let searching = self.mode == TocMode::Search;
        match key {
            Key::Escape => if noting {
                (Model { noting: None, note: Seq::empty(), ..self }, changed)
            } else if searching && self.find.len() > 0 {
                (Model { find: Seq::empty(), ..self }, changed)
            } else {
                self.contents_closed(s)
            },
            Key::Tab => self.contents_closed(s),
            Key::Backspace => if noting {
                (Model { note: rubbed(self.note), ..self }, changed)
            } else if searching {
                (Model { find: rubbed(self.find), toc_sel: 0, ..self }, changed)
            } else {
                (self, seq![])
            },
            Key::Space => if noting {
                (Model { note: self.note + " "@, ..self }, changed)
            } else if searching {
                (Model { find: self.find + " "@, toc_sel: 0, ..self }, changed)
            } else {
                (self.paged(true, s), seq![Action::Redraw])
            },
            Key::Text(c) => if noting {
                (Model { note: self.note + c@, ..self }, changed)
            } else if searching {
                (Model { find: self.find + c@, toc_sel: 0, ..self }, changed)
            } else {
                self.list_typed(c@, marks)
            },
            Key::Enter => if noting {
                (self, seq![Action::SaveNote] + changed)
            } else {
                (self, seq![Action::OpenEntry(self.toc_sel)])
            },
            Key::Down => self.entry_moved(1),
            Key::Up => self.entry_moved(-1),
            Key::Home => self.entry_moved(-(self.toc_sel as int)),
            Key::End => self.entry_moved(self.listed as int),
            Key::PageDown => (self.paged(true, s), seq![Action::Redraw]),
            Key::PageUp => (self.paged(false, s), seq![Action::Redraw]),
            _ => (self, seq![]),
        }
    }

    /// A key. A note is read and dismissed; nothing else happens while it is up.
    pub open spec fn pressed(self, key: Key, s: Surface, marks: Seq<Mark>) -> Step {
        if self.popup {
            (Model { popup: false, ..self }, seq![Action::Redraw])
        } else {
            match self.pane {
                Pane::Library => self.library_pressed(key, s),
                Pane::Reading => self.reading_pressed(key, s),
                Pane::Toc => self.toc_pressed(key, s, marks),
            }
        }
    }

    /// The bars are up, and their clock starts again.
    pub open spec fn poked(self, now: u64) -> Step {
        if self.pane != Pane::Reading {
            (self, seq![])
        } else {
            (
                Model { hud_until: Some(later(now, HUD_LINGER)), hud_shown: true, ..self },
                if self.hud_shown {
                    seq![]
                } else {
                    seq![Action::Redraw]
                },
            )
        }
    }

    /// What a control of the bars does; nothing for a control that is not there.
    pub open spec fn hud_control(self, what: Seq<char>, s: Surface) -> Option<Step> {
        if what == "bookmark"@ {
            Some((self, seq![Action::ToggleBookmark]))
        } else if what == "contents"@ {
            Some(Model { mode: TocMode::Contents, ..self }.contents_opened(s))
        } else if what == "back"@ {
            Some((self, seq![Action::GoBack]))
        } else if what == "highlight"@ {
            Some((self, seq![Action::Highlight]))
        } else if what == "unhighlight"@ {
            Some(
                match self.mark {
                    Some(id) => (Model { mark: None, ..self }, seq![Action::RemoveMark(id)]),
                    None => (self, seq![]),
                },
            )
        } else if what == "smaller"@ {
            Some(self.rescaled(self.style.scale - 100))
        } else if what == "bigger"@ {
            Some(self.rescaled(self.style.scale + 100))
        } else if what == "columns"@ {
            Some(self.recolumned())
        } else if what == "readout"@ {
            Some(
                (
                    Model { show_page: !self.show_page, ..self },
                    if self.show_page {
                        seq![]
                    } else {
                        seq![Action::MeasureBook]
                    },
                ),
            )
        } else {
            None
        }
    }

    /// A press on a control of the bars. Acting on the bars is using them, so
    /// they stay up.
    pub open spec fn hud_pressed(self, what: Seq<char>, s: Surface) -> Option<Step> {
        if what == "library"@ {
            Some(self.shelved())
        } else {
            match self.hud_control(what, s) {
                Some(step) => {
                    let poked = step.0.poked(s.now);
                    Some((poked.0, step.1 + seq![Action::DropHud, Action::Redraw]))
                },
                None => None,
            }
        }
    }

    /// A press while the settings panel is up; outside its controls it closes
    /// the panel.
    pub open spec fn menu_chosen(self, choice: Option<MenuChoice>) -> Option<Step> {
        if !self.menu {
            None
        } else {
            Some(
                match choice {
                    None => (Model { menu: false, adding: None, ..self }, seq![Action::Redraw]),
                    Some(MenuChoice::Theme(theme)) => (
                        Model { style: ReadingStyle { theme, ..self.style }, ..self },
                        seq![
                            Action::SaveTheme,
                            Action::DropLibrary,
                            Action::DropHud,
                            Action::BuildMenu,
                        ],
                    ),
                    Some(MenuChoice::Drop(_)) => (
                        self,
                        seq![Action::DropFolder, Action::BuildMenu],
                    ),
                    Some(MenuChoice::Add) => (
                        Model { adding: Some(Seq::empty()), ..self },
                        seq![Action::BuildMenu],
                    ),
                    Some(MenuChoice::Other) => (self, seq![Action::BuildMenu]),
                },
            )
        }
    }

    /// A press on a link of the page; `label` words the way back. A popup takes
    /// the press, whatever it lands on.
    pub open spec fn link_pressed(self, link: Link, label: Seq<char>) -> Option<Step> {
        if self.pane != Pane::Reading {
            None
        } else if self.popup {
            Some((Model { popup: false, ..self }, seq![Action::Redraw]))
        } else {
            match link {
                Link::Nothing | Link::Broken => None,
                Link::Outside => Some((self, seq![])),
                Link::Note => Some((Model { popup: true, ..self }, seq![Action::OpenNote])),
                Link::Place(spine) => Some(
                    (
                        Model { back: Some((self.index, self.page, label)), ..self },
                        seq![Action::DropHud, Action::GoTo(spine)],
                    ),
                ),
            }
        }
    }

    /// A press on the shelf or on a list.
    pub open spec fn clicked(self, press: Press) -> Step {
        match (self.pane, press) {
            (Pane::Library, Press::Gear) => (Model { menu: true, ..self }, seq![Action::OpenMenu]),
            (Pane::Library, Press::Suggestion(text)) => (
                Model { query: text@, ..self },
                seq![Action::ReloadRows, Action::DropLibrary, Action::Redraw],
            ),
            (Pane::Library, Press::Card(i)) => (
                Model { selected: i, ..self },
                seq![Action::OpenSelected],
            ),
            (Pane::Toc, Press::Entry(i)) => (self, seq![Action::OpenEntry(i)]),
            _ => (self, seq![]),
        }
    }

    /// The wheel. Half a step is needed for one.
    pub open spec fn wheeled(self, dy: int, s: Surface) -> Step {
        if -500 <= dy <= 500 {
            (self, seq![])
        } else if self.pane == Pane::Reading {
            self.turned(dy > 0, s)
        } else {
            (self.paged(dy > 0, s), seq![Action::Redraw])
        }
    }

    /// The clock. A page turn drives it while it lasts; otherwise only the bars
    /// happen without an event.
    pub open spec fn ticked(self, now: u64) -> (Step, Wake) {
        match self.exit_at {
            Some(at) => if now >= at {
                ((self, seq![Action::SaveHere, Action::Exit]), Wake::Unchanged)
            } else {
                ((self, seq![]), Wake::At(at))
            },
            None => match self.slide {
                Some(slide) => (
                    (
                        Model {
                            slide: if now >= later(slide.at, SLIDE) {
                                None
                            } else {
                                Some(slide)
                            },
                            ..self
                        },
                        seq![Action::Redraw],
                    ),
                    Wake::At(later(now, FRAME)),
                ),
                None => match self.hud_until {
                    Some(at) => if now >= at {
                        (
                            (Model { hud_until: None, hud_shown: false, ..self }, seq![Action::Redraw]),
                            Wake::Never,
                        )
                    } else {
                        ((self, seq![]), Wake::At(at))
                    },
                    None => ((self, seq![]), Wake::Unchanged),
                },
            },
        }
    }
}

impl Model {
    /// A chapter is laid out: it opens on its first page, or on its last.
    pub open spec fn loaded(self, index: usize, pages: usize, backwards: bool) -> Model {
        Model {
            index,
            page: if backwards {
                last_of(pages as int) as usize
            } else {
                0
            },
            ..self
        }
    }

    /// The way back was taken, into a chapter of `pages` pages.
    pub open spec fn landed(self, page: usize, pages: usize) -> Model {
        let at = clamped(page as int, 0, last_of(pages as int)) as usize;
        Model { page: at, resume_page: at, ..self }
    }

    /// A list entry was opened, on its page where it names one.
    pub open spec fn arrived(self, at: Option<usize>) -> Model {
        let page = match at {
            Some(p) => p,
            None => self.page,
        };
        Model { page, resume_page: page, ..self }
    }

    /// A link was followed to a spine item, and to a page where it names one.
    pub open spec fn followed(self, spine: usize, at: Option<usize>) -> Model {
        let page = match at {
            Some(p) => p,
            None => if spine != self.index {
                0
            } else {
                self.page
            },
        };
        Model { page, resume_page: page, ..self }
    }

    /// A list entry opens: the way back leads to where the contents were opened,
    /// and its chapter is laid out unless it is the one that is.
    pub open spec fn entry_opened(self, spine: usize, laid_out: bool, label: Seq<char>) -> Step {
        let left = Model {
            pane: Pane::Reading,
            back: if laid_out {
                Some((self.index, self.resume_page, label))
            } else {
                self.back
            },
            ..self
        };
        let dropped = if laid_out {
            seq![Action::DropHud]
        } else {
            seq![]
        };
        if laid_out && spine == self.index {
            (Model { page: 0, ..left }, dropped)
        } else {
            (left, dropped.push(Action::Load { index: spine, backwards: false }))
        }
    }
}

} // verus!
