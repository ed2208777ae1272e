//! What the window does with an event: the next state, and the actions to
//! perform.
use crate::db::Sort;
use crate::marks::Mark;
use crate::paginate::clamped;
use crate::reader::{
    last_of, later, rubbed, rubbed_in, typed_on, Action, Back, Key, Link, MenuChoice, Model, Pane,
    Press, Reader, Slide, Surface, Wake,
};
use crate::readout::TocMode;
use crate::screen::{FRAME, HUD_LINGER, SLIDE};
use crate::style::{ReadingStyle, Theme};
use crate::text::{chars_of, equal, find_char, lemma_spot, owned, same, spot, string_of, text_in};
use vstd::prelude::*;
use vstd::slice::slice_subrange;

verus! {

fn rub_out(s: &str) -> (r: String)
    ensures
        r@ == rubbed(s@),
{
    let chars = chars_of(s);
    if chars.len() == 0 {
        return String::new();
    }
    let front = slice_subrange(chars.as_slice(), 0, chars.len() - 1);
    assert(front@ =~= s@.drop_last());
    string_of(front)
}

fn type_on(s: &str, more: &str) -> (r: String)
    ensures
        r@ == s@ + more@,
{
    let mut out = owned(s);
    out.append(more);
    out
}

fn rub_in(t: &Option<String>) -> (r: Option<String>)
    ensures
        text_in(r) == rubbed_in(text_in(*t)),
{
    match t {
        Some(s) => Some(rub_out(s.as_str())),
        None => None,
    }
}

fn type_in(t: &Option<String>, more: &str) -> (r: Option<String>)
    ensures
        text_in(r) == typed_on(text_in(*t), more@),
{
    match t {
        Some(s) => Some(type_on(s.as_str(), more)),
        None => None,
    }
}

fn is_empty(s: &str) -> (r: bool)
    ensures
        r == (s@.len() == 0),
{
    chars_of(s).len() == 0
}

fn last(n: usize) -> (r: usize)
    ensures
        r == last_of(n as int),
{
    if n > 0 {
        n - 1
    } else {
        0
    }
}

fn after(now: u64, ms: u64) -> (r: u64)
    ensures
        r == later(now, ms),
{
    if now <= u64::MAX - ms {
        now + ms
    } else {
        u64::MAX
    }
}

/// `by` places on from `at`, or back, among `n`.
fn moved(at: usize, back: bool, by: usize, n: usize) -> (r: usize)
    requires
        n > 0,
    ensures
        r == clamped(
            if back {
                at - by
            } else {
                at + by
            },
            0,
            n - 1,
        ),
{
    if back {
        let to: usize = if at >= by {
            at - by
        } else {
            0
        };
        if to > n - 1 {
            n - 1
        } else {
            to
        }
    } else if at >= n - 1 || by > n - 1 - at {
        n - 1
    } else {
        at + by
    }
}

/// What a pressed control of the settings panel asks for, by its name.
pub open spec fn choice_of(what: Seq<char>, choice: MenuChoice) -> bool {
    let theme = spot(what, ':') matches Some(i) && what.take(i) == "theme"@;
    let drop = spot(what, ':') matches Some(i) && what.take(i) == "drop"@;
    let rest = what.skip(spot(what, ':')->0 + 1);
    match choice {
        MenuChoice::Theme(t) => theme && t == (if rest == "white"@ {
            Theme::White
        } else if rest == "grey"@ {
            Theme::Grey
        } else if rest == "night"@ {
            Theme::Night
        } else {
            Theme::Sepia
        }),
        MenuChoice::Drop(path) => !theme && drop && path@ == rest,
        MenuChoice::Add => !theme && !drop && what == "add"@,
        MenuChoice::Other => !theme && !drop && what != "add"@,
    }
}

/// What a pressed control of the settings panel asks for: a theme by its name, a
/// folder to stop watching, or to type one.
pub fn menu_choice(what: &str) -> (r: MenuChoice)
    ensures
        choice_of(what@, r),
{
    proof {
        lemma_spot(what@, ':');
    }
    let chars = chars_of(what);
    let all = chars.as_slice();
    if let Some(i) = find_char(all, ':') {
        let head = slice_subrange(all, 0, i);
        let rest = slice_subrange(all, i + 1, all.len());
        proof {
            assert(head@ =~= what@.take(i as int));
            assert(rest@ =~= what@.skip(i + 1));
            reveal_strlit("theme");
            reveal_strlit("drop");
            assert("theme"@.len() != "drop"@.len());
        }
        if same(head, "theme") {
            return MenuChoice::Theme(
                if same(rest, "white") {
                    Theme::White
                } else if same(rest, "grey") {
                    Theme::Grey
                } else if same(rest, "night") {
                    Theme::Night
                } else {
                    Theme::Sepia
                },
            );
        }
        if same(head, "drop") {
            return MenuChoice::Drop(string_of(rest));
        }
    }
    if equal(what, "add") {
        MenuChoice::Add
    } else {
        MenuChoice::Other
    }
}

/// The folders without one of them.
pub open spec fn folders_without(folders: Seq<String>, path: Seq<char>) -> Seq<Seq<char>>
    decreases folders.len(),
{
    if folders.len() == 0 {
        Seq::empty()
    } else {
        let before = folders_without(folders.drop_last(), path);
        if folders.last()@ == path {
            before
        } else {
            before.push(folders.last()@)
        }
    }
}

/// The characters of each text.
pub open spec fn all_texts(v: Seq<String>) -> Seq<Seq<char>> {
    Seq::new(v.len(), |i: int| v[i]@)
}

/// The watched folders without the one to drop.
pub fn drop_folder(folders: &[String], path: &str) -> (r: Vec<String>)
    ensures
        all_texts(r@) == folders_without(folders@, path@),
{
    let mut out: Vec<String> = Vec::new();
    let mut i: usize = 0;
    assert(folders@.take(0) =~= Seq::<String>::empty());
    assert(all_texts(out@) =~= Seq::empty());
    while i < folders.len()
        invariant
            i <= folders.len(),
            all_texts(out@) == folders_without(folders@.take(i as int), path@),
        decreases folders.len() - i,
    {
        proof {
            assert(folders@.take(i + 1).drop_last() =~= folders@.take(i as int));
        }
        if !equal(folders[i].as_str(), path) {
            let ghost was = out@;
            out.push(owned(folders[i].as_str()));
            assert(all_texts(out@) =~= all_texts(was).push(folders@[i as int]@));
        }
        i = i + 1;
    }
    assert(folders@.take(folders@.len() as int) =~= folders@);
    out
}

/// Folders with one more, unless it is among them.
pub open spec fn with_folder(folders: Seq<Seq<char>>, dir: Seq<char>) -> Seq<Seq<char>> {
    if folders.contains(dir) {
        folders
    } else {
        folders.push(dir)
    }
}

/// The watched folders with one more, unless it is among them.
pub fn add_folder(folders: &[String], dir: &str) -> (r: Vec<String>)
    ensures
        all_texts(r@) == with_folder(all_texts(folders@), dir@),
{
    let mut out: Vec<String> = Vec::new();
    let mut there = false;
    let mut i: usize = 0;
    while i < folders.len()
        invariant
            i <= folders.len(),
            all_texts(out@) =~= all_texts(folders@).take(i as int),
            there == exists|k: int| 0 <= k < i && (#[trigger] folders@[k])@ == dir@,
        decreases folders.len() - i,
    {
        let ghost was = out@;
        out.push(owned(folders[i].as_str()));
        assert(all_texts(out@) =~= all_texts(was).push(folders@[i as int]@));
        if equal(folders[i].as_str(), dir) {
            assert(folders@[i as int]@ == dir@);
            there = true;
        }
        i = i + 1;
    }
    assert(all_texts(out@) =~= all_texts(folders@));
    proof {
        let texts = all_texts(folders@);
        if there {
            let k = choose|k: int| 0 <= k < i && (#[trigger] folders@[k])@ == dir@;
            assert(texts[k] == dir@);
        } else if texts.contains(dir@) {
            let k = choose|k: int| 0 <= k < texts.len() && texts[k] == dir@;
            assert(folders@[k]@ == dir@);
        }
    }
    if !there {
        let ghost was = out@;
        out.push(owned(dir));
        assert(all_texts(out@) =~= all_texts(was).push(dir@));
    }
    out
}

impl Reader {
    /// The shelf, with nothing open.
    pub fn new(style: ReadingStyle, start: usize, exit_at: Option<u64>) -> (r: Self)
        ensures
            r@ == (Model {
                pane: Pane::Library,
                query: Seq::empty(),
                sort: Sort::Recent,
                rows: 0,
                selected: 0,
                tagging: None,
                menu: false,
                adding: None,
                mode: TocMode::Contents,
                listed: 0,
                toc_sel: 0,
                find: Seq::empty(),
                noting: None,
                note: Seq::empty(),
                book: false,
                chapters: 0,
                index: start,
                page: 0,
                resume_page: 0,
                columns: 1,
                style,
                show_page: false,
                popup: false,
                mark: None,
                back: None,
                slide: None,
                hud_shown: false,
                hud_until: None,
                exit_at,
            }),
    {
        Reader {
            pane: Pane::Library,
            query: String::new(),
            sort: Sort::Recent,
            rows: 0,
            selected: 0,
            tagging: None,
            menu: false,
            adding: None,
            mode: TocMode::Contents,
            listed: 0,
            toc_sel: 0,
            find: String::new(),
            noting: None,
            note: String::new(),
            book: false,
            chapters: 0,
            index: start,
            page: 0,
            resume_page: 0,
            columns: 1,
            style,
            show_page: false,
            popup: false,
            mark: None,
            back: None,
            slide: None,
            hud_shown: false,
            hud_until: None,
            exit_at,
        }
    }

    /// Page a chrome document, the shelf or a list.
    pub fn turn_view(&mut self, forward: bool, s: &Surface)
        ensures
            final(self)@ == old(self)@.paged(forward, *s),
    {
        if forward {
            let end: usize = last(s.pages);
            self.page = if self.page < end {
                self.page + 1
            } else {
                end
            };
        } else {
            self.page = last(self.page);
        }
    }

    fn move_selection(&mut self, back: bool, by: usize) -> (r: Vec<Action>)
        ensures
            (final(self)@, r@) == old(self)@.selecting(
                if back {
                    -(by as int)
                } else {
                    by as int
                },
            ),
    {
        if self.rows == 0 {
            return Vec::new();
        }
        self.selected = moved(self.selected, back, by, self.rows);
        vec![Action::FollowSelection, Action::Redraw]
    }

    fn menu_key(&mut self, key: &Key) -> (r: Vec<Action>)
        ensures
            (final(self)@, r@) == old(self)@.menu_pressed(*key),
    {
        if self.adding.is_some() {
            match key {
                Key::Escape => {
                    self.adding = None;
                    vec![Action::BuildMenu]
                },
                Key::Enter => vec![Action::AddFolder],
                Key::Backspace => {
                    self.adding = rub_in(&self.adding);
                    vec![Action::BuildMenu]
                },
                Key::Text(c) => {
                    self.adding = type_in(&self.adding, c.as_str());
                    vec![Action::BuildMenu]
                },
                Key::Space => {
                    self.adding = type_in(&self.adding, " ");
                    vec![Action::BuildMenu]
                },
                Key::F5 => vec![Action::Rescan, Action::BuildMenu],
                _ => Vec::new(),
            }
        } else {
            match key {
                Key::Escape => {
                    self.menu = false;
                    vec![Action::Redraw]
                },
                Key::F5 => vec![Action::Rescan, Action::BuildMenu],
                _ => Vec::new(),
            }
        }
    }

    fn tag_key(&mut self, key: &Key) -> (r: Vec<Action>)
        ensures
            (final(self)@, r@) == old(self)@.tag_pressed(*key),
    {
        match key {
            Key::Escape => {
                self.tagging = None;
            },
            Key::Enter => {
                let r = vec![
                    Action::ApplyTag,
                    Action::Complete,
                    Action::DropLibrary,
                    Action::Redraw,
                ];
                assert(r@ =~= old(self)@.tag_pressed(*key).1);
                return r;
            },
            Key::Backspace => {
                self.tagging = rub_in(&self.tagging);
            },
            Key::Text(c) => {
                self.tagging = type_in(&self.tagging, c.as_str());
            },
            Key::Space => {
                self.tagging = type_in(&self.tagging, "-");
            },
            _ => {
                return Vec::new();
            },
        }
        vec![Action::Complete, Action::DropLibrary, Action::Redraw]
    }

    fn shelf_key(&mut self, key: &Key, s: &Surface) -> (r: Vec<Action>)
        ensures
            (final(self)@, r@) == old(self)@.shelf_pressed(*key, *s),
    {
        match key {
            Key::Escape => {
                if is_empty(self.query.as_str()) {
                    return vec![Action::Exit, Action::DropLibrary, Action::Redraw];
                }
                self.query = String::new();
            },
            Key::Enter => {
                return vec![Action::OpenSelected];
            },
            Key::Backspace => {
                self.query = rub_out(self.query.as_str());
            },
            Key::Right => {
                return self.move_selection(false, 1);
            },
            Key::Left => {
                return self.move_selection(true, 1);
            },
            Key::Down => {
                return self.move_selection(false, s.cards);
            },
            Key::Up => {
                return self.move_selection(true, s.cards);
            },
            Key::PageDown => {
                self.turn_view(true, s);
                return vec![Action::DropLibrary, Action::Redraw];
            },
            Key::PageUp => {
                self.turn_view(false, s);
                return vec![Action::DropLibrary, Action::Redraw];
            },
            Key::Space => {
                if is_empty(self.query.as_str()) {
                    self.turn_view(true, s);
                    return vec![Action::DropLibrary, Action::Redraw];
                }
                self.query = type_on(self.query.as_str(), " ");
            },
            Key::Tab => {
                self.sort = self.sort.next();
            },
            Key::F5 => {
                return vec![Action::Rescan, Action::DropLibrary, Action::Redraw];
            },
            Key::F2 => {
                if self.rows == 0 {
                    return Vec::new();
                }
                self.tagging = Some(String::new());
                return vec![Action::Complete, Action::DropLibrary, Action::Redraw];
            },
            Key::Text(c) => {
                self.query = type_on(self.query.as_str(), c.as_str());
            },
            _ => {
                return Vec::new();
            },
        }
        vec![Action::ReloadRows, Action::DropLibrary, Action::Redraw]
    }

    /// A key on the library.
    pub fn library_key(&mut self, key: &Key, s: &Surface) -> (r: Vec<Action>)
        ensures
            (final(self)@, r@) == old(self)@.library_pressed(*key, *s),
    {
        if self.menu {
            self.menu_key(key)
        } else if self.tagging.is_some() {
            self.tag_key(key)
        } else {
            self.shelf_key(key, s)
        }
    }
}

/// `a` followed by `b`.
fn chained(a: Vec<Action>, b: Vec<Action>) -> (r: Vec<Action>)
    ensures
        r@ == a@ + b@,
{
    let mut out = a;
    let mut k: usize = 0;
    while k < b.len()
        invariant
            k <= b.len(),
            out@ =~= a@ + b@.take(k as int),
        decreases b.len() - k,
    {
        out.push(b[k]);
        k = k + 1;
    }
    assert(b@.take(b@.len() as int) =~= b@);
    out
}

impl Reader {
    /// Open the contents view on whatever it lists.
    pub fn open_toc(&mut self, s: &Surface) -> (r: Vec<Action>)
        ensures
            (final(self)@, r@) == old(self)@.contents_opened(*s),
    {
        if !self.book {
            return Vec::new();
        }
        self.resume_page = self.page;
        self.toc_sel = match self.mode {
            TocMode::Contents => s.covering,
            _ => 0,
        };
        self.pane = Pane::Toc;
        self.page = 0;
        vec![Action::BuildToc, Action::FollowToc, Action::Redraw]
    }

    /// Close the contents view.
    pub fn close_toc(&mut self, s: &Surface) -> (r: Vec<Action>)
        ensures
            (final(self)@, r@) == old(self)@.contents_closed(*s),
    {
        self.mode = TocMode::Contents;
        self.noting = None;
        self.pane = Pane::Reading;
        let end: usize = last(s.chapter_pages);
        self.page = if self.resume_page < end {
            self.resume_page
        } else {
            end
        };
        vec![Action::Redraw]
    }

    /// The page the reader is at, whichever view is on screen.
    pub fn place(&self) -> (r: Option<usize>)
        ensures
            r == self@.place(),
    {
        match self.pane {
            Pane::Library => None,
            Pane::Reading => Some(self.page),
            Pane::Toc => Some(self.resume_page),
        }
    }

    /// Back to the shelf.
    pub fn to_library(&mut self) -> (r: Vec<Action>)
        ensures
            (final(self)@, r@) == old(self)@.shelved(),
    {
        let was: usize = match self.pane {
            Pane::Toc => self.resume_page,
            _ => self.page,
        };
        self.page = 0;
        self.pane = Pane::Library;
        vec![
            Action::SaveAt(was),
            Action::ShowTitle,
            Action::ReloadRows,
            Action::SelectOpenBook,
            Action::Redraw,
        ]
    }

    /// Turn one page, crossing chapter boundaries in either direction.
    pub fn turn(&mut self, forward: bool, s: &Surface) -> (r: Vec<Action>)
        ensures
            (final(self)@, r@) == old(self)@.turned(forward, *s),
    {
        let slide = Some(Slide { from: self.page, forward, at: s.now });
        if forward {
            let end: usize = last(s.pages);
            if self.page <= end && s.columns <= end - self.page {
                self.page = self.page + s.columns;
                self.slide = slide;
                vec![Action::SaveHere, Action::Redraw]
            } else if self.chapters > 0 && self.index < self.chapters - 1 {
                vec![
                    Action::Load { index: self.index + 1, backwards: false },
                    Action::SaveHere,
                    Action::Redraw,
                ]
            } else {
                Vec::new()
            }
        } else if self.page >= s.columns {
            self.page = self.page - s.columns;
            self.slide = slide;
            vec![Action::SaveHere, Action::Redraw]
        } else if self.index > 0 {
            vec![
                Action::Load { index: self.index - 1, backwards: true },
                Action::SaveHere,
                Action::Redraw,
            ]
        } else {
            Vec::new()
        }
    }

    /// Turn a chapter.
    pub fn turn_chapter(&self, forward: bool) -> (r: Vec<Action>)
        ensures
            r@ == self@.chapter_turned(forward),
    {
        if forward {
            if self.chapters > 0 && self.index < self.chapters - 1 {
                vec![Action::Load { index: self.index + 1, backwards: false }, Action::Redraw]
            } else {
                Vec::new()
            }
        } else if self.index > 0 && self.index - 1 < self.chapters {
            vec![Action::Load { index: self.index - 1, backwards: false }, Action::Redraw]
        } else {
            Vec::new()
        }
    }

    fn measured(&self) -> (r: Vec<Action>)
        ensures
            r@ == self@.measured_again(),
    {
        if self.show_page {
            vec![Action::MeasureBook]
        } else {
            Vec::new()
        }
    }

    /// One column or two.
    pub fn toggle_columns(&mut self) -> (r: Vec<Action>)
        ensures
            (final(self)@, r@) == old(self)@.recolumned(),
    {
        self.columns = if self.columns == 2 {
            1
        } else {
            2
        };
        chained(chained(vec![Action::Relayout], self.measured()), vec![Action::Redraw])
    }

    /// Set the letter size. It is a property of the reader, not of the book, so
    /// it is stored once and applies to every book from then on.
    pub fn set_font_scale(&mut self, scale: i64) -> (r: Vec<Action>)
        ensures
            (final(self)@, r@) == old(self)@.rescaled(scale as int),
    {
        let to: i64 = if scale < 800 {
            800
        } else if scale > 1600 {
            1600
        } else {
            scale
        };
        if to == self.style.scale {
            return Vec::new();
        }
        self.style = ReadingStyle { theme: self.style.theme, scale: to };
        chained(vec![Action::SaveScale, Action::Restyle], self.measured())
    }

    /// The letter size one step on.
    fn step_font_scale(&mut self, bigger: bool) -> (r: Vec<Action>)
        ensures
            (final(self)@, r@) == old(self)@.rescaled(
                if bigger {
                    old(self).style.scale + 100
                } else {
                    old(self).style.scale - 100
                },
            ),
    {
        let scale: i64 = self.style.scale;
        if bigger {
            if scale > 1600 {
                self.set_font_scale(1600)
            } else {
                self.set_font_scale(scale + 100)
            }
        } else if scale < 800 {
            self.set_font_scale(800)
        } else {
            self.set_font_scale(scale - 100)
        }
    }

    fn reading_text(&mut self, c: &str, s: &Surface) -> (r: Vec<Action>)
        ensures
            (final(self)@, r@) == old(self)@.reading_typed(c@, *s),
    {
        if equal(c, "q") {
            vec![Action::SaveHere, Action::Exit]
        } else if equal(c, "l") {
            self.to_library()
        } else if equal(c, "/") {
            self.find = String::new();
            self.mode = TocMode::Search;
            self.open_toc(s)
        } else if equal(c, "m") {
            self.mode = TocMode::Marks;
            let rest = self.open_toc(s);
            chained(vec![Action::LoadMarks], rest)
        } else if equal(c, "b") {
            vec![Action::ToggleBookmark]
        } else if equal(c, "h") {
            vec![Action::Highlight]
        } else if equal(c, "y") {
            vec![Action::CopySelection]
        } else if equal(c, "c") {
            self.toggle_columns()
        } else if equal(c, "t") {
            self.style = ReadingStyle { theme: self.style.theme.next(), scale: self.style.scale };
            vec![Action::SaveTheme, Action::Restyle]
        } else if equal(c, "+") || equal(c, "=") {
            self.step_font_scale(true)
        } else if equal(c, "-") {
            self.step_font_scale(false)
        } else {
            Vec::new()
        }
    }

    /// A key on the page.
    pub fn reading_key(&mut self, key: &Key, s: &Surface) -> (r: Vec<Action>)
        ensures
            (final(self)@, r@) == old(self)@.reading_pressed(*key, *s),
    {
        match key {
            Key::Escape => self.to_library(),
            Key::Tab => self.open_toc(s),
            Key::Right | Key::PageDown | Key::Space => self.turn(true, s),
            Key::Left | Key::PageUp => self.turn(false, s),
            Key::Down => self.turn_chapter(true),
            Key::Up => self.turn_chapter(false),
            Key::Text(c) => self.reading_text(c.as_str(), s),
            _ => Vec::new(),
        }
    }

    fn move_toc_selection(&mut self, back: bool, by: usize) -> (r: Vec<Action>)
        ensures
            (final(self)@, r@) == old(self)@.entry_moved(
                if back {
                    -(by as int)
                } else {
                    by as int
                },
            ),
    {
        if self.listed == 0 {
            return vec![Action::DropToc, Action::Redraw];
        }
        self.toc_sel = moved(self.toc_sel, back, by, self.listed);
        vec![Action::FollowToc, Action::DropToc, Action::Redraw]
    }

    fn list_text(&mut self, c: &str, marks: &[Mark]) -> (r: Vec<Action>)
        ensures
            (final(self)@, r@) == old(self)@.list_typed(c@, marks@),
    {
        let marking = match self.mode {
            TocMode::Marks => true,
            _ => false,
        };
        if equal(c, "q") {
            vec![Action::SaveHere, Action::Exit]
        } else if equal(c, "l") {
            self.to_library()
        } else if marking && equal(c, "n") {
            if self.toc_sel < marks.len() {
                let mark = &marks[self.toc_sel];
                self.note = owned(mark.note.as_str());
                self.noting = Some(mark.id);
            }
            vec![Action::DropToc, Action::Redraw]
        } else if marking && equal(c, "x") {
            if self.toc_sel < marks.len() {
                let id: i64 = marks[self.toc_sel].id;
                chained(
                    vec![Action::DeleteMark(id)],
                    vec![Action::DropToc, Action::Redraw],
                )
            } else {
                vec![Action::DropToc, Action::Redraw]
            }
        } else {
            Vec::new()
        }
    }

    /// A key on a list. This is a list you pass through, so the keys are few.
    pub fn toc_key(&mut self, key: &Key, s: &Surface, marks: &[Mark]) -> (r: Vec<Action>)
        ensures
            (final(self)@, r@) == old(self)@.toc_pressed(*key, *s, marks@),
    {
        let noting = self.noting.is_some();
        let searching = match self.mode {
            TocMode::Search => true,
            _ => false,
        };
        match key {
            Key::Escape => {
                if noting {
                    self.noting = None;
                    self.note = String::new();
                } else if searching && !is_empty(self.find.as_str()) {
                    self.find = String::new();
                } else {
                    return self.close_toc(s);
                }
            },
            Key::Tab => {
                return self.close_toc(s);
            },
            Key::Backspace => {
                if noting {
                    self.note = rub_out(self.note.as_str());
                } else if searching {
                    self.find = rub_out(self.find.as_str());
                    self.toc_sel = 0;
                } else {
                    return Vec::new();
                }
            },
            Key::Space => {
                if noting {
                    self.note = type_on(self.note.as_str(), " ");
                } else if searching {
                    self.find = type_on(self.find.as_str(), " ");
                    self.toc_sel = 0;
                } else {
                    self.turn_view(true, s);
                    return vec![Action::Redraw];
                }
            },
            Key::Text(c) => {
                if noting {
                    self.note = type_on(self.note.as_str(), c.as_str());
                } else if searching {
                    self.find = type_on(self.find.as_str(), c.as_str());
                    self.toc_sel = 0;
                } else {
                    return self.list_text(c.as_str(), marks);
                }
            },
            Key::Enter => {
                if noting {
                    return chained(
                        vec![Action::SaveNote],
                        vec![Action::DropToc, Action::Redraw],
                    );
                }
                return vec![Action::OpenEntry(self.toc_sel)];
            },
            Key::Down => {
                return self.move_toc_selection(false, 1);
            },
            Key::Up => {
                return self.move_toc_selection(true, 1);
            },
            Key::Home => {
                let by: usize = self.toc_sel;
                return self.move_toc_selection(true, by);
            },
            Key::End => {
                let by: usize = self.listed;
                return self.move_toc_selection(false, by);
            },
            Key::PageDown => {
                self.turn_view(true, s);
                return vec![Action::Redraw];
            },
            Key::PageUp => {
                self.turn_view(false, s);
                return vec![Action::Redraw];
            },
            _ => {
                return Vec::new();
            },
        }
        vec![Action::DropToc, Action::Redraw]
    }

    /// A key.
    pub fn on_key(&mut self, key: &Key, s: &Surface, marks: &[Mark]) -> (r: Vec<Action>)
        ensures
            (final(self)@, r@) == old(self)@.pressed(*key, *s, marks@),
    {
        if self.popup {
            self.popup = false;
            return vec![Action::Redraw];
        }
        match self.pane {
            Pane::Library => self.library_key(key, s),
            Pane::Reading => self.reading_key(key, s),
            Pane::Toc => self.toc_key(key, s, marks),
        }
    }

    /// Wake the bars and start their clock. Pointer motion is the gesture.
    pub fn poke_hud(&mut self, now: u64) -> (r: Vec<Action>)
        ensures
            (final(self)@, r@) == old(self)@.poked(now),
    {
        match self.pane {
            Pane::Reading => {
                self.hud_until = Some(after(now, HUD_LINGER));
                if self.hud_shown {
                    Vec::new()
                } else {
                    self.hud_shown = true;
                    vec![Action::Redraw]
                }
            },
            _ => Vec::new(),
        }
    }

    fn control(&mut self, what: &str, s: &Surface) -> (r: Option<Vec<Action>>)
        ensures
            match old(self)@.hud_control(what@, *s) {
                Some(step) => r matches Some(a) && (final(self)@, a@) == step,
                None => r is None && final(self)@ == old(self)@,
            },
    {
        if equal(what, "bookmark") {
            Some(vec![Action::ToggleBookmark])
        } else if equal(what, "contents") {
            self.mode = TocMode::Contents;
            Some(self.open_toc(s))
        } else if equal(what, "back") {
            Some(vec![Action::GoBack])
        } else if equal(what, "highlight") {
            Some(vec![Action::Highlight])
        } else if equal(what, "unhighlight") {
            match self.mark {
                Some(id) => {
                    self.mark = None;
                    Some(vec![Action::RemoveMark(id)])
                },
                None => Some(Vec::new()),
            }
        } else if equal(what, "smaller") {
            Some(self.step_font_scale(false))
        } else if equal(what, "bigger") {
            Some(self.step_font_scale(true))
        } else if equal(what, "columns") {
            Some(self.toggle_columns())
        } else if equal(what, "readout") {
            self.show_page = !self.show_page;
            if self.show_page {
                Some(vec![Action::MeasureBook])
            } else {
                Some(Vec::new())
            }
        } else {
            None
        }
    }

    /// A press on a control of the bars. `None` where it is no control, so the
    /// page takes the press.
    pub fn hud_action(&mut self, what: &str, s: &Surface) -> (r: Option<Vec<Action>>)
        ensures
            match old(self)@.hud_pressed(what@, *s) {
                Some(step) => r matches Some(a) && (final(self)@, a@) == step,
                None => r is None && final(self)@ == old(self)@,
            },
    {
        if equal(what, "library") {
            return Some(self.to_library());
        }
        match self.control(what, s) {
            Some(done) => {
                self.poke_hud(s.now);
                Some(chained(done, vec![Action::DropHud, Action::Redraw]))
            },
            None => None,
        }
    }

    /// A press while the settings panel may be up. `None` where it is not.
    pub fn menu_action(&mut self, choice: &Option<MenuChoice>) -> (r: Option<Vec<Action>>)
        ensures
            match old(self)@.menu_chosen(*choice) {
                Some(step) => r matches Some(a) && (final(self)@, a@) == step,
                None => r is None && final(self)@ == old(self)@,
            },
    {
        if !self.menu {
            return None;
        }
        match choice {
            None => {
                self.menu = false;
                self.adding = None;
                Some(vec![Action::Redraw])
            },
            Some(MenuChoice::Theme(theme)) => {
                self.style = ReadingStyle { theme: *theme, scale: self.style.scale };
                Some(
                    vec![
                        Action::SaveTheme,
                        Action::DropLibrary,
                        Action::DropHud,
                        Action::BuildMenu,
                    ],
                )
            },
            Some(MenuChoice::Drop(_)) => Some(vec![Action::DropFolder, Action::BuildMenu]),
            Some(MenuChoice::Add) => {
                self.adding = Some(String::new());
                Some(vec![Action::BuildMenu])
            },
            Some(MenuChoice::Other) => Some(vec![Action::BuildMenu]),
        }
    }

    /// Follow whatever link is under the pointer. `None` where the page is to
    /// take the press. A footnote or a bibliography entry opens where you are;
    /// anything longer is a place, so go there, and remember where you were.
    pub fn link_action(&mut self, link: Link, label: &str) -> (r: Option<Vec<Action>>)
        ensures
            match old(self)@.link_pressed(link, label@) {
                Some(step) => r matches Some(a) && (final(self)@, a@) == step,
                None => r is None && final(self)@ == old(self)@,
            },
    {
        match self.pane {
            Pane::Reading => {},
            _ => {
                return None;
            },
        }
        if self.popup {
            self.popup = false;
            return Some(vec![Action::Redraw]);
        }
        match link {
            Link::Nothing | Link::Broken => None,
            Link::Outside => Some(Vec::new()),
            Link::Note => {
                self.popup = true;
                Some(vec![Action::OpenNote])
            },
            Link::Place(spine) => {
                self.back = Some(
                    Back { spine: self.index, page: self.page, label: owned(label) },
                );
                Some(vec![Action::DropHud, Action::GoTo(spine)])
            },
        }
    }

    /// Open whatever is under the pointer, on the shelf or on a list.
    pub fn on_click(&mut self, press: &Press) -> (r: Vec<Action>)
        ensures
            (final(self)@, r@) == old(self)@.clicked(*press),
    {
        match self.pane {
            Pane::Library => match press {
                Press::Gear => {
                    self.menu = true;
                    vec![Action::OpenMenu]
                },
                Press::Suggestion(text) => {
                    self.query = owned(text.as_str());
                    vec![Action::ReloadRows, Action::DropLibrary, Action::Redraw]
                },
                Press::Card(i) => {
                    self.selected = *i;
                    vec![Action::OpenSelected]
                },
                _ => Vec::new(),
            },
            Pane::Toc => match press {
                Press::Entry(i) => vec![Action::OpenEntry(*i)],
                _ => Vec::new(),
            },
            Pane::Reading => Vec::new(),
        }
    }

    /// The wheel turned by `dy` thousandths of a step.
    pub fn on_wheel(&mut self, dy: i64, s: &Surface) -> (r: Vec<Action>)
        ensures
            (final(self)@, r@) == old(self)@.wheeled(dy as int, *s),
    {
        if -500 <= dy && dy <= 500 {
            return Vec::new();
        }
        match self.pane {
            Pane::Reading => self.turn(dy > 0, s),
            _ => {
                self.turn_view(dy > 0, s);
                vec![Action::Redraw]
            },
        }
    }

    /// The clock.
    pub fn on_tick(&mut self, now: u64) -> (r: (Vec<Action>, Wake))
        ensures
            ((final(self)@, (r.0)@), r.1) == old(self)@.ticked(now),
    {
        if let Some(at) = self.exit_at {
            return if now >= at {
                (vec![Action::SaveHere, Action::Exit], Wake::Unchanged)
            } else {
                (Vec::new(), Wake::At(at))
            };
        }
        if let Some(slide) = self.slide {
            if now >= after(slide.at, SLIDE) {
                self.slide = None;
            }
            return (vec![Action::Redraw], Wake::At(after(now, FRAME)));
        }
        match self.hud_until {
            Some(at) => if now >= at {
                self.hud_until = None;
                self.hud_shown = false;
                (vec![Action::Redraw], Wake::Never)
            } else {
                (Vec::new(), Wake::At(at))
            },
            None => (Vec::new(), Wake::Unchanged),
        }
    }
}

/// What actions find out.
impl Reader {
    /// The books were listed.
    pub fn rows_loaded(&mut self, n: usize)
        ensures
            final(self)@ == (Model {
                rows: n,
                selected: clamped(old(self).selected as int, 0, last_of(n as int)) as usize,
                ..old(self)@
            }),
    {
        self.rows = n;
        let end: usize = last(n);
        if self.selected > end {
            self.selected = end;
        }
    }

    /// The book that was open is at a place of the shelf, or is not on it.
    pub fn book_found(&mut self, at: Option<usize>)
        ensures
            final(self)@ == (Model {
                selected: match at {
                    Some(i) => i,
                    None => 0,
                },
                ..old(self)@
            }),
    {
        self.selected = match at {
            Some(i) => i,
            None => 0,
        };
    }

    /// A row of the document on screen is on a page, or is not in it.
    pub fn page_found(&mut self, at: Option<usize>)
        ensures
            final(self)@ == (Model {
                page: match at {
                    Some(p) => p,
                    None => old(self).page,
                },
                ..old(self)@
            }),
    {
        if let Some(p) = at {
            self.page = p;
        }
    }

    /// The document on screen was laid out again on `pages` pages.
    pub fn relaid(&mut self, pages: usize)
        ensures
            final(self)@ == (Model {
                page: clamped(old(self).page as int, 0, last_of(pages as int)) as usize,
                ..old(self)@
            }),
    {
        let end: usize = last(pages);
        if self.page > end {
            self.page = end;
        }
    }

    /// The list was built with `n` entries.
    pub fn list_built(&mut self, n: usize)
        ensures
            final(self)@ == (Model { listed: n, ..old(self)@ }),
    {
        self.listed = n;
    }

    /// A mark was deleted, and `n` are left.
    pub fn marks_left(&mut self, n: usize)
        ensures
            final(self)@ == (Model {
                toc_sel: clamped(old(self).toc_sel as int, 0, last_of(n as int)) as usize,
                ..old(self)@
            }),
    {
        let end: usize = last(n);
        if self.toc_sel > end {
            self.toc_sel = end;
        }
    }

    /// The tag that was typed.
    pub fn take_tag(&mut self) -> (r: Option<String>)
        ensures
            text_in(r) == old(self)@.tagging,
            final(self)@ == (Model { tagging: None, ..old(self)@ }),
    {
        let r = match &self.tagging {
            Some(t) => Some(owned(t.as_str())),
            None => None,
        };
        self.tagging = None;
        r
    }

    /// The folder that was typed.
    pub fn take_folder(&mut self) -> (r: Option<String>)
        ensures
            text_in(r) == old(self)@.adding,
            final(self)@ == (Model { adding: None, ..old(self)@ }),
    {
        let r = match &self.adding {
            Some(t) => Some(owned(t.as_str())),
            None => None,
        };
        self.adding = None;
        r
    }

    /// The note that was typed, and the mark it is for.
    pub fn take_note(&mut self) -> (r: Option<(i64, String)>)
        ensures
            match old(self).noting {
                Some(id) => {
                    &&& r matches Some(n) && n.0 == id && n.1@ == old(self)@.note
                    &&& final(self)@ == (Model { noting: None, note: Seq::empty(), ..old(self)@ })
                },
                None => r is None && final(self)@ == old(self)@,
            },
    {
        match self.noting {
            Some(id) => {
                let text = owned(self.note.as_str());
                self.noting = None;
                self.note = String::new();
                Some((id, text))
            },
            None => None,
        }
    }

    /// A book was opened, to be read from a spine item.
    pub fn book_opened(&mut self, chapters: usize, index: usize)
        ensures
            final(self)@ == (Model {
                book: true,
                chapters,
                index,
                pane: Pane::Reading,
                ..old(self)@
            }),
    {
        self.book = true;
        self.chapters = chapters;
        self.index = index;
        self.pane = Pane::Reading;
    }

    /// A chapter was laid out on `pages` pages: it opens on the first, or on the
    /// last for turning back across a chapter boundary.
    pub fn chapter_loaded(&mut self, index: usize, pages: usize, backwards: bool)
        ensures
            final(self)@ == old(self)@.loaded(index, pages, backwards),
    {
        self.index = index;
        self.page = if backwards {
            last(pages)
        } else {
            0
        };
    }

    /// The chapter to try after one that could not be laid out: the next there
    /// is.
    pub fn chapter_failed(&self, index: usize) -> (r: Option<usize>)
        ensures
            r == self@.after_failed(index),
    {
        if self.chapters > 0 && index < self.chapters - 1 {
            Some(index + 1)
        } else {
            None
        }
    }

    /// The way back, which is taken once.
    pub fn take_back(&mut self) -> (r: Option<Back>)
        ensures
            match old(self)@.back {
                Some(b) => r matches Some(to) && (to.spine, to.page, to.label@) == b,
                None => r is None,
            },
            final(self)@ == (Model { back: None, ..old(self)@ }),
    {
        let r = match &self.back {
            Some(b) => Some(Back { spine: b.spine, page: b.page, label: owned(b.label.as_str()) }),
            None => None,
        };
        self.back = None;
        r
    }

    /// The way back was taken, into a chapter of `pages` pages.
    pub fn land(&mut self, page: usize, pages: usize)
        ensures
            final(self)@ == old(self)@.landed(page, pages),
    {
        let end: usize = last(pages);
        self.page = if page < end {
            page
        } else {
            end
        };
        self.resume_page = self.page;
    }

    /// A link was followed to a spine item, and to a page where it names one.
    /// Where the item could not be laid out, the chapter on show starts at its
    /// head.
    pub fn follow(&mut self, spine: usize, at: Option<usize>)
        ensures
            final(self)@ == old(self)@.followed(spine, at),
    {
        if let Some(p) = at {
            self.page = p;
        } else if spine != self.index {
            self.page = 0;
        }
        self.resume_page = self.page;
    }

    /// A list entry was opened, on its page where it names one.
    pub fn arrive(&mut self, at: Option<usize>)
        ensures
            final(self)@ == old(self)@.arrived(at),
    {
        if let Some(p) = at {
            self.page = p;
        }
        self.resume_page = self.page;
    }

    /// A list entry opens. `laid_out` says whether a chapter is, and `label`
    /// words the way back.
    pub fn open_entry(&mut self, spine: usize, laid_out: bool, label: &str) -> (r: Vec<Action>)
        ensures
            (final(self)@, r@) == old(self)@.entry_opened(spine, laid_out, label@),
    {
        let mut todo: Vec<Action> = Vec::new();
        if laid_out {
            self.back = Some(
                Back { spine: self.index, page: self.resume_page, label: owned(label) },
            );
            todo.push(Action::DropHud);
        }
        self.pane = Pane::Reading;
        if laid_out && spine == self.index {
            self.page = 0;
        } else {
            todo.push(Action::Load { index: spine, backwards: false });
        }
        assert(todo@ =~= old(self)@.entry_opened(spine, laid_out, label@).1);
        todo
    }
}

/// What has to be laid out before a frame.
#[derive(Debug, Clone, Copy, PartialEq, Eq, Structural)]
pub enum Build {
    Library,
    Toc,
    Hud,
    Nothing,
}

impl Model {
    /// The chapter after one that could not be laid out, if there is one.
    pub open spec fn after_failed(self, index: usize) -> Option<usize> {
        if index + 1 < self.chapters {
            Some((index + 1) as usize)
        } else {
            None
        }
    }

    /// What has to be laid out before a frame.
    pub open spec fn to_build(self, shelf: Option<usize>, list: bool) -> Build {
        match self.pane {
            Pane::Library => if shelf == Some(self.page) {
                Build::Nothing
            } else {
                Build::Library
            },
            Pane::Toc => if list {
                Build::Nothing
            } else {
                Build::Toc
            },
            Pane::Reading => if self.hud_shown {
                Build::Hud
            } else {
                Build::Nothing
            },
        }
    }
}

impl Reader {
    /// What has to be laid out before a frame: the shelf where it is not, or for
    /// another page than the one its covers were chosen for; the list where it is
    /// not; and the bars while they are up.
    pub fn to_build(&self, shelf: Option<usize>, list: bool) -> (r: Build)
        ensures
            r == self@.to_build(shelf, list),
    {
        match self.pane {
            Pane::Library => match shelf {
                Some(page) => if page == self.page {
                    Build::Nothing
                } else {
                    Build::Library
                },
                None => Build::Library,
            },
            Pane::Toc => if list {
                Build::Nothing
            } else {
                Build::Toc
            },
            Pane::Reading => if self.hud_shown {
                Build::Hud
            } else {
                Build::Nothing
            },
        }
    }
}

/// What is under the pointer: a card of the shelf, a control of the bars, a row
/// of the settings panel.
#[derive(Debug, Clone)]
pub struct Hover {
    pub card: Option<usize>,
    pub control: Option<String>,
    pub row: Option<String>,
}

impl Hover {
    pub open spec fn spots(&self) -> (Option<usize>, Option<Seq<char>>, Option<Seq<char>>) {
        (self.card, text_in(self.control), text_in(self.row))
    }

    pub fn new() -> (r: Self)
        ensures
            r.spots() == (None::<usize>, None::<Seq<char>>, None::<Seq<char>>),
    {
        Hover { card: None, control: None, row: None }
    }

    /// The pointer left, so nothing is under it. Was anything?
    pub fn left(&mut self) -> (r: bool)
        ensures
            final(self).spots() == (None::<usize>, None::<Seq<char>>, None::<Seq<char>>),
            r == (old(self).spots() != (None::<usize>, None::<Seq<char>>, None::<Seq<char>>)),
    {
        let any = self.card.is_some() || self.control.is_some() || self.row.is_some();
        self.card = None;
        self.control = None;
        self.row = None;
        any
    }

    /// The pointer moved. Is anything else under it now? Only then is there
    /// something to paint.
    pub fn moved(&mut self, card: Option<usize>, control: Option<String>, row: Option<String>) -> (r:
        bool)
        ensures
            final(self).spots() == (card, text_in(control), text_in(row)),
            r == (final(self).spots() != old(self).spots()),
    {
        let same_card = match (self.card, card) {
            (Some(a), Some(b)) => a == b,
            (None, None) => true,
            _ => false,
        };
        let changed = !same_card || !same_text(&self.control, &control) || !same_text(
            &self.row,
            &row,
        );
        self.card = card;
        self.control = control;
        self.row = row;
        changed
    }
}

fn same_text(a: &Option<String>, b: &Option<String>) -> (r: bool)
    ensures
        r == (text_in(*a) == text_in(*b)),
{
    match (a, b) {
        (Some(x), Some(y)) => equal(x.as_str(), y.as_str()),
        (None, None) => true,
        _ => false,
    }
}

} // verus!
