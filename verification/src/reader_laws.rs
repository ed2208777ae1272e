//! What holds of the window whatever happens to it.
use crate::marks::Mark;
use crate::reader::{
    last_of, Action, Key, Link, MenuChoice, Model, Pane, Press, Slide, Surface, Wake,
};
use crate::readout::TocMode;
use crate::screen::{HUD_LINGER, SLIDE};
use crate::style::Theme;
use vstd::prelude::*;

verus! {

impl Model {
    /// The selection is on the shelf, at its head when the shelf is empty, and
    /// one column or two are asked for.
    pub open spec fn wf(self) -> bool {
        &&& self.selected <= last_of(self.rows as int)
        &&& 1 <= self.columns <= 2
    }

    /// What is being typed into, if anything is: the settings panel, the tag
    /// box, a note or the search of the book.
    pub open spec fn typing(self) -> bool {
        match self.pane {
            Pane::Library => if self.menu {
                self.adding is Some
            } else {
                true
            },
            Pane::Reading => false,
            Pane::Toc => self.noting is Some || self.mode == TocMode::Search,
        }
    }
}

/// No key moves the selection off the shelf, or asks for anything but one or two
/// columns.
pub proof fn law_keys_keep_the_selection_on_the_shelf(m: Model, key: Key, s: Surface, marks: Seq<Mark>)
    requires
        m.wf(),
    ensures
        m.pressed(key, s, marks).0.wf(),
{
}

/// While something is being typed, a letter is text: it neither leaves the view
/// nor turns a page nor quits.
pub proof fn law_letters_are_text_while_typing(m: Model, c: String, s: Surface, marks: Seq<Mark>)
    requires
        m.typing(),
        !m.popup,
    ensures
        ({
            let next = m.pressed(Key::Text(c), s, marks);
            &&& next.0.pane == m.pane
            &&& next.0.page == m.page
            &&& !next.1.contains(Action::Exit)
        }),
{
    let done = m.pressed(Key::Text(c), s, marks).1;
    assert(forall|i: int| 0 <= i < done.len() ==> done[i] != Action::Exit);
}

/// A note on show takes the next key, whatever it is, and that is all that
/// happens.
pub proof fn law_a_note_takes_the_next_key(m: Model, key: Key, s: Surface, marks: Seq<Mark>)
    requires
        m.popup,
    ensures
        m.pressed(key, s, marks) == (Model { popup: false, ..m }, seq![Action::Redraw]),
{
}

/// A page turned back within a chapter is the page that was left.
pub proof fn law_turning_back_undoes_a_turn(m: Model, s: Surface, then: Surface)
    requires
        m.page + s.columns <= last_of(s.pages as int),
        then.columns == s.columns,
    ensures
        m.turned(true, s).0.turned(false, then).0.page == m.page,
        m.turned(true, s).0.turned(false, then).0.index == m.index,
{
}

/// A turn stays in the chapter, or loads a chapter that is there; turning past
/// either end of the book does nothing. Every turn stores the position.
pub proof fn law_turns_stay_in_the_book(m: Model, forward: bool, s: Surface)
    requires
        m.page <= last_of(s.pages as int),
        m.index < m.chapters,
        1 <= s.columns,
    ensures
        ({
            let (next, done) = m.turned(forward, s);
            &&& next.page <= last_of(s.pages as int)
            &&& forall|i: usize, b: bool|
                #[trigger] done.contains(Action::Load { index: i, backwards: b }) ==> i < m.chapters
            &&& done.len() > 0 ==> done.contains(Action::SaveHere)
            &&& done.len() == 0 ==> next == m
            &&& next.page != m.page || done.len() == 0 || exists|i: usize, b: bool|
                #[trigger] done.contains(Action::Load { index: i, backwards: b })
        }),
{
    let (next, done) = m.turned(forward, s);
    if done.len() > 0 {
        assert(done[done.len() - 2] == Action::SaveHere);
    }
    if done.len() == 3 {
        let load = done[0];
        assert(done.contains(load));
        if forward {
            assert(load == Action::Load { index: (m.index + 1) as usize, backwards: false });
        } else {
            assert(load == Action::Load { index: (m.index - 1) as usize, backwards: true });
        }
    }
}

/// Asking for the other number of columns twice asks for what there was.
pub proof fn law_columns_toggle(m: Model)
    requires
        m.wf(),
    ensures
        m.recolumned().0.recolumned().0 == m,
{
}

/// The four themes come round.
pub proof fn law_themes_come_round(m: Model)
    ensures
        m.rethemed().0.rethemed().0.rethemed().0.rethemed().0 == m,
        m.rethemed().0.style.theme != m.style.theme,
{
}

/// The letter size stays within its bounds, and a step either way is undone by
/// one the other way unless a bound was in the way.
pub proof fn law_the_letter_size_stays_in_bounds(m: Model, scale: int)
    ensures
        800 <= m.rescaled(scale).0.style.scale <= 1600,
        m.rescaled(scale).0.style.theme == m.style.theme,
        900 <= m.style.scale <= 1500 ==> {
            let bigger = m.rescaled(m.style.scale + 100).0;
            bigger.rescaled(bigger.style.scale - 100).0 == m
        },
{
}

/// Whoever opens the contents and closes them is where they were.
pub proof fn law_closing_the_contents_returns(m: Model, s: Surface, then: Surface)
    requires
        m.book,
        m.pane == Pane::Reading,
        m.page <= last_of(then.chapter_pages as int),
    ensures
        ({
            let back = m.contents_opened(s).0.contents_closed(then).0;
            back.page == m.page && back.index == m.index && back.pane == Pane::Reading
        }),
{
}

/// Looking something up does not move the reader: a list that opens, is paged
/// and walked through leaves the place alone.
pub proof fn law_lists_do_not_move_the_reader(
    m: Model,
    s: Surface,
    then: Surface,
    forward: bool,
    by: int,
)
    requires
        m.book,
        m.pane == Pane::Reading,
    ensures
        ({
            let open = m.contents_opened(s).0;
            &&& open.place() == m.place()
            &&& open.paged(forward, then).place() == m.place()
            &&& open.entry_moved(by).0.place() == m.place()
            &&& open.index == m.index
        }),
{
}

/// Closing a book first stores the place the reader was at, from the page or
/// from a list, and from then on there is no place to store over it.
pub proof fn law_closing_a_book_stores_the_place(m: Model)
    requires
        m.pane != Pane::Library,
    ensures
        m.place() is Some,
        m.shelved().1[0] == Action::SaveAt(m.place()->0),
        m.shelved().0.place() is None,
{
}

/// The way back leads to the chapter and the page that a link was followed from.
pub proof fn law_the_way_back_is_where_the_link_was(m: Model, spine: usize, label: Seq<char>)
    requires
        m.pane == Pane::Reading,
        !m.popup,
    ensures
        ({
            let next = m.link_pressed(Link::Place(spine), label)->0;
            &&& next.0.back == Some((m.index, m.page, label))
            &&& next.1.contains(Action::GoTo(spine))
        }),
{
    let done = (m.link_pressed(Link::Place(spine), label)->0).1;
    assert(done[1] == Action::GoTo(spine));
}

/// Escape backs out one step at a time: a note or a query that is being typed
/// first, then the view, and only from an empty search box the application.
pub proof fn law_escape_backs_out_one_step(m: Model, s: Surface, marks: Seq<Mark>)
    requires
        !m.popup,
    ensures
        ({
            let (next, done) = m.pressed(Key::Escape, s, marks);
            &&& done.contains(Action::Exit) <==> m.pane == Pane::Library && !m.menu && m.tagging is None
                && m.query.len() == 0
            &&& m.pane == Pane::Reading ==> next.pane == Pane::Library
            &&& m.pane == Pane::Toc && m.noting is Some ==> next.pane == Pane::Toc && next.noting is None
            &&& m.pane == Pane::Toc && m.noting is None && m.mode == TocMode::Search && m.find.len() > 0
                ==> next.pane == Pane::Toc && next.find.len() == 0
            &&& m.pane == Pane::Toc && m.noting is None && !(m.mode == TocMode::Search && m.find.len()
                > 0) ==> next.pane == Pane::Reading
        }),
{
    let done = m.pressed(Key::Escape, s, marks).1;
    if m.pane == Pane::Library && !m.menu && m.tagging is None && m.query.len() == 0 {
        assert(done[0] == Action::Exit);
    } else {
        assert(forall|i: int| 0 <= i < done.len() ==> done[i] != Action::Exit);
    }
}

/// The bars linger for their time after the pointer moved, and are gone when the
/// clock strikes after it.
pub proof fn law_the_bars_linger_and_go(m: Model, moved: u64, now: u64)
    requires
        m.pane == Pane::Reading,
        m.exit_at is None,
        m.slide is None,
        moved + HUD_LINGER <= u64::MAX,
    ensures
        ({
            let woken = m.poked(moved).0;
            &&& woken.hud_shown
            &&& now < moved + HUD_LINGER ==> ((woken.ticked(now)).0).0.hud_shown
            &&& now >= moved + HUD_LINGER ==> !((woken.ticked(now)).0).0.hud_shown
        }),
{
}

/// A page turn ends: a tick after its time has nothing left to slide.
pub proof fn law_page_turns_end(m: Model, slide: Slide, now: u64)
    requires
        m.exit_at is None,
        m.slide == Some(slide),
        slide.at + SLIDE <= now,
    ensures
        ((m.ticked(now)).0).0.slide is None,
{
}

/// The wheel turns the page the way it is turned: down as the key for the next page
/// does, up as the key for the page before; less than half a step does nothing.
pub proof fn law_the_wheel_turns_its_own_way(m: Model, dy: int, s: Surface, marks: Seq<Mark>)
    requires
        m.pane == Pane::Reading,
        !m.popup,
    ensures
        dy > 500 ==> m.wheeled(dy, s) == m.pressed(Key::PageDown, s, marks),
        dy < -500 ==> m.wheeled(dy, s) == m.pressed(Key::PageUp, s, marks),
        -500 <= dy <= 500 ==> m.wheeled(dy, s) == (m, Seq::<Action>::empty()),
        dy > 500 && m.page + s.columns < s.pages ==> m.wheeled(dy, s).0.page == m.page + s.columns,
        dy < -500 && s.columns <= m.page ==> m.wheeled(dy, s).0.page == m.page - s.columns,
{
}

/// A step of the wheel and one the other way lead back to the page that was left.
pub proof fn law_the_wheel_is_turned_back(m: Model, dy: int, s: Surface)
    requires
        m.pane == Pane::Reading,
        dy > 500 && m.page + s.columns < s.pages || dy < -500 && s.columns <= m.page && m.page < s.pages,
    ensures
        m.wheeled(dy, s).0.wheeled(-dy, s).0.page == m.page,
        m.wheeled(dy, s).0.wheeled(-dy, s).0.index == m.index,
{
}

/// On the shelf and on a list the wheel goes a page on or back, and no further than
/// there are pages.
pub proof fn law_the_wheel_pages_lists(m: Model, dy: int, s: Surface)
    requires
        m.pane != Pane::Reading,
        m.page < s.pages,
    ensures
        dy > 500 ==> m.wheeled(dy, s).0.page == if m.page + 1 < s.pages {
            m.page + 1
        } else {
            m.page as int
        },
        dy < -500 ==> m.wheeled(dy, s).0.page == if m.page > 0 {
            m.page - 1
        } else {
            0
        },
{
}

/// The keys of the next page go as many pages on as there are columns, and those of
/// the page before as many back; the bars slide the way the page went.
pub proof fn law_page_keys_turn_pages(m: Model, key: Key, s: Surface, marks: Seq<Mark>)
    requires
        m.pane == Pane::Reading,
        !m.popup,
    ensures
        ({
            let next = m.pressed(key, s, marks).0;
            &&& (key is Right || key is PageDown || key is Space) && m.page + s.columns < s.pages ==> next.page
                == m.page + s.columns && next.index == m.index && next.slide == Some(
                Slide { from: m.page, forward: true, at: s.now },
            )
            &&& (key is Left || key is PageUp) && s.columns <= m.page ==> next.page == m.page - s.columns
                && next.index == m.index && next.slide == Some(
                Slide { from: m.page, forward: false, at: s.now },
            )
        }),
{
}

/// Past the last page a turn opens the next chapter at its head, and before the
/// first the chapter before it at its end.
pub proof fn law_turns_cross_chapters(m: Model, s: Surface, pages: usize)
    requires
        m.index + 1 < m.chapters,
        pages > 0,
        m.index > 0,
        s.pages > 0,
    ensures
        m.page + s.columns >= s.pages ==> m.turned(true, s).1.contains(
            Action::Load { index: (m.index + 1) as usize, backwards: false },
        ),
        m.page < s.columns ==> m.turned(false, s).1.contains(
            Action::Load { index: (m.index - 1) as usize, backwards: true },
        ),
        m.loaded((m.index + 1) as usize, pages, false).page == 0,
        m.loaded((m.index - 1) as usize, pages, true).page == pages - 1,
        m.loaded((m.index + 1) as usize, pages, false).index == m.index + 1,
{
    if m.page + s.columns >= s.pages {
        assert(m.turned(true, s).1[0] == Action::Load { index: (m.index + 1) as usize, backwards: false });
    }
    if m.page < s.columns {
        assert(m.turned(false, s).1[0] == Action::Load { index: (m.index - 1) as usize, backwards: true });
    }
}

/// The keys of the next chapter and of the one before open it at its head; there is
/// none past either end of the book.
pub proof fn law_chapter_keys_turn_chapters(m: Model, s: Surface, marks: Seq<Mark>)
    requires
        m.pane == Pane::Reading,
        !m.popup,
        m.index < m.chapters,
    ensures
        m.pressed(Key::Down, s, marks).1 == if m.index + 1 < m.chapters {
            seq![Action::Load { index: (m.index + 1) as usize, backwards: false }, Action::Redraw]
        } else {
            seq![]
        },
        m.pressed(Key::Up, s, marks).1 == if m.index > 0 {
            seq![Action::Load { index: (m.index - 1) as usize, backwards: false }, Action::Redraw]
        } else {
            seq![]
        },
        m.pressed(Key::Down, s, marks).0 == m,
        m.pressed(Key::Up, s, marks).0 == m,
{
}

/// The letters that are commands while reading, each by what it does.
pub proof fn law_letters_are_commands_while_reading(m: Model, c: String, s: Surface, marks: Seq<Mark>)
    requires
        m.pane == Pane::Reading,
        m.book,
        !m.popup,
        800 <= m.style.scale <= 1600,
    ensures
        ({
            let (next, done) = m.pressed(Key::Text(c), s, marks);
            &&& c@ == "q"@ ==> next == m && done == seq![Action::SaveHere, Action::Exit]
            &&& c@ == "l"@ ==> next.pane == Pane::Library && done[0] == Action::SaveAt(m.page)
            &&& c@ == "/"@ ==> next.pane == Pane::Toc && next.mode == TocMode::Search && next.find.len() == 0
            &&& c@ == "m"@ ==> next.pane == Pane::Toc && next.mode == TocMode::Marks && done[0]
                == Action::LoadMarks
            &&& c@ == "b"@ ==> next == m && done == seq![Action::ToggleBookmark]
            &&& c@ == "h"@ ==> next == m && done == seq![Action::Highlight]
            &&& c@ == "y"@ ==> next == m && done == seq![Action::CopySelection]
            &&& c@ == "c"@ ==> next.columns == (if m.columns == 2 {
                1int
            } else {
                2
            }) && done[0] == Action::Relayout
            &&& c@ == "t"@ ==> next.style.theme != m.style.theme && done.contains(Action::SaveTheme)
            &&& (c@ == "+"@ || c@ == "="@) && m.style.scale <= 1500 ==> next.style.scale == m.style.scale
                + 100 && done.contains(Action::SaveScale)
            &&& c@ == "-"@ && m.style.scale >= 900 ==> next.style.scale == m.style.scale - 100
                && done.contains(Action::SaveScale)
        }),
{
    reveal_strlit("q");
    reveal_strlit("l");
    reveal_strlit("/");
    reveal_strlit("m");
    reveal_strlit("b");
    reveal_strlit("h");
    reveal_strlit("y");
    reveal_strlit("c");
    reveal_strlit("t");
    reveal_strlit("+");
    reveal_strlit("=");
    reveal_strlit("-");
    let (next, done) = m.pressed(Key::Text(c), s, marks);
    assert(c@.len() == 1 ==> c@[0] == c@.last());
    if c@ == "t"@ {
        assert(done[0] == Action::SaveTheme);
    }
    if (c@ == "+"@ || c@ == "="@) && m.style.scale <= 1500 || c@ == "-"@ && m.style.scale >= 900 {
        assert(done[0] == Action::SaveScale);
    }
}

/// On the shelf the arrows select the book beside, and those above and below a row
/// of cards away, as far as there are books.
pub proof fn law_arrows_select_books(m: Model, s: Surface, marks: Seq<Mark>)
    requires
        m.pane == Pane::Library,
        !m.menu,
        m.tagging is None,
        !m.popup,
        m.selected < m.rows,
    ensures
        m.pressed(Key::Right, s, marks).0.selected == if m.selected + 1 < m.rows {
            m.selected + 1
        } else {
            m.selected as int
        },
        m.pressed(Key::Left, s, marks).0.selected == if m.selected > 0 {
            m.selected - 1
        } else {
            0
        },
        m.selected + s.cards < m.rows ==> m.pressed(Key::Down, s, marks).0.selected == m.selected + s.cards,
        m.selected >= s.cards ==> m.pressed(Key::Up, s, marks).0.selected == m.selected - s.cards,
        m.pressed(Key::Enter, s, marks) == (m, seq![Action::OpenSelected]),
{
}

/// What is typed on the shelf is searched for: letters come to the end of the query
/// and are rubbed out from there, and the books are listed again.
pub proof fn law_typing_on_the_shelf_searches(m: Model, c: String, s: Surface, marks: Seq<Mark>)
    requires
        m.pane == Pane::Library,
        !m.menu,
        m.tagging is None,
        !m.popup,
    ensures
        ({
            let typed = m.pressed(Key::Text(c), s, marks);
            &&& typed.0.query == m.query + c@
            &&& typed.1.contains(Action::ReloadRows)
        }),
        c@.len() == 1 ==> m.pressed(Key::Text(c), s, marks).0.pressed(Key::Backspace, s, marks).0.query
            == m.query,
        m.query.len() > 0 ==> m.pressed(Key::Space, s, marks).0.query == m.query.push(' '),
        m.query.len() > 0 ==> m.pressed(Key::Escape, s, marks).0.query.len() == 0,
        m.rows > 0 ==> m.pressed(Key::F2, s, marks).0.tagging == Some(Seq::<char>::empty()),
        m.pressed(Key::F5, s, marks).1.contains(Action::Rescan),
        m.pressed(Key::Tab, s, marks).0.sort != m.sort,
{
    reveal_strlit(" ");
    assert(m.query + " "@ =~= m.query.push(' '));
    assert(m.pressed(Key::Text(c), s, marks).1[0] == Action::ReloadRows);
    assert(m.pressed(Key::F5, s, marks).1[0] == Action::Rescan);
    if c@.len() == 1 {
        assert((m.query + c@).drop_last() =~= m.query);
    }
}

/// A tag is typed like a query, a space in it as a hyphen; Enter applies it, Escape
/// does not.
pub proof fn law_a_tag_is_typed(m: Model, t: Seq<char>, c: String, s: Surface, marks: Seq<Mark>)
    requires
        m.pane == Pane::Library,
        !m.menu,
        m.tagging == Some(t),
        !m.popup,
    ensures
        m.pressed(Key::Text(c), s, marks).0.tagging == Some(t + c@),
        m.pressed(Key::Space, s, marks).0.tagging == Some(t.push('-')),
        t.len() > 0 ==> m.pressed(Key::Backspace, s, marks).0.tagging == Some(t.drop_last()),
        m.pressed(Key::Enter, s, marks).1.contains(Action::ApplyTag),
        m.pressed(Key::Escape, s, marks).0.tagging is None,
        !m.pressed(Key::Escape, s, marks).1.contains(Action::ApplyTag),
        m.pressed(Key::Text(c), s, marks).0.query == m.query,
{
    reveal_strlit("-");
    assert(t + "-"@ =~= t.push('-'));
    assert(m.pressed(Key::Enter, s, marks).1[0] == Action::ApplyTag);
    let done = m.pressed(Key::Escape, s, marks).1;
    assert(forall|i: int| 0 <= i < done.len() ==> done[i] != Action::ApplyTag);
}

/// On a list the arrows select the entry beside, Home the first, End the last, and
/// Enter opens what is selected.
pub proof fn law_arrows_select_entries(m: Model, s: Surface, marks: Seq<Mark>)
    requires
        m.pane == Pane::Toc,
        m.noting is None,
        !m.popup,
        m.toc_sel < m.listed,
    ensures
        m.pressed(Key::Down, s, marks).0.toc_sel == if m.toc_sel + 1 < m.listed {
            m.toc_sel + 1
        } else {
            m.toc_sel as int
        },
        m.pressed(Key::Up, s, marks).0.toc_sel == if m.toc_sel > 0 {
            m.toc_sel - 1
        } else {
            0
        },
        m.pressed(Key::Home, s, marks).0.toc_sel == 0,
        m.pressed(Key::End, s, marks).0.toc_sel == m.listed - 1,
        m.pressed(Key::Enter, s, marks) == (m, seq![Action::OpenEntry(m.toc_sel)]),
        m.pressed(Key::Tab, s, marks).0.pane == Pane::Reading,
{
}

/// In the list of marks one key annotates the selected mark, from the note it has,
/// and another deletes it.
pub proof fn law_marks_are_annotated_and_deleted(m: Model, c: String, s: Surface, marks: Seq<Mark>)
    requires
        m.pane == Pane::Toc,
        m.mode == TocMode::Marks,
        m.noting is None,
        !m.popup,
        m.toc_sel < marks.len(),
    ensures
        ({
            let (next, done) = m.pressed(Key::Text(c), s, marks);
            let mark = marks[m.toc_sel as int];
            &&& c@ == "n"@ ==> next.noting == Some(mark.id) && next.note == mark.note@
            &&& c@ == "x"@ ==> next == m && done[0] == Action::DeleteMark(mark.id)
        }),
{
    reveal_strlit("q");
    reveal_strlit("l");
    reveal_strlit("n");
    reveal_strlit("x");
    assert(c@.len() == 1 ==> c@[0] == c@.last());
}

/// A note, or a search of the book, is typed letter by letter, whatever the letters
/// are commands for elsewhere; Enter keeps the note.
pub proof fn law_notes_and_searches_are_typed(m: Model, c: String, s: Surface, marks: Seq<Mark>)
    requires
        m.pane == Pane::Toc,
        !m.popup,
    ensures
        m.noting is Some ==> {
            &&& m.pressed(Key::Text(c), s, marks).0.note == m.note + c@
            &&& m.pressed(Key::Space, s, marks).0.note == m.note.push(' ')
            &&& m.note.len() > 0 ==> m.pressed(Key::Backspace, s, marks).0.note == m.note.drop_last()
            &&& m.pressed(Key::Enter, s, marks).1[0] == Action::SaveNote
        },
        m.noting is None && m.mode == TocMode::Search ==> {
            &&& m.pressed(Key::Text(c), s, marks).0.find == m.find + c@
            &&& m.pressed(Key::Space, s, marks).0.find == m.find.push(' ')
            &&& m.find.len() > 0 ==> m.pressed(Key::Backspace, s, marks).0.find == m.find.drop_last()
            &&& m.pressed(Key::Text(c), s, marks).0.toc_sel == 0
        },
{
    reveal_strlit(" ");
    assert(m.note + " "@ =~= m.note.push(' '));
    assert(m.find + " "@ =~= m.find.push(' '));
}

/// What the controls of the bars do, by their names.
pub proof fn law_controls_do_what_they_say(m: Model, s: Surface)
    requires
        m.pane == Pane::Reading,
        m.book,
    ensures
        m.hud_pressed("library"@, s) matches Some(step) && step.0.pane == Pane::Library,
        m.hud_pressed("bookmark"@, s) matches Some(step) && step.1[0] == Action::ToggleBookmark,
        m.hud_pressed("contents"@, s) matches Some(step) && step.0.pane == Pane::Toc && step.0.mode
            == TocMode::Contents,
        m.hud_pressed("back"@, s) matches Some(step) && step.1[0] == Action::GoBack,
        m.hud_pressed("highlight"@, s) matches Some(step) && step.1[0] == Action::Highlight,
        m.mark matches Some(id) ==> (m.hud_pressed("unhighlight"@, s) matches Some(step) && step.1[0]
            == Action::RemoveMark(id) && step.0.mark is None),
        900 <= m.style.scale <= 1600 ==> (m.hud_pressed("smaller"@, s) matches Some(step)
            && step.0.style.scale == m.style.scale - 100),
        800 <= m.style.scale <= 1500 ==> (m.hud_pressed("bigger"@, s) matches Some(step)
            && step.0.style.scale == m.style.scale + 100),
        1 <= m.columns <= 2 ==> (m.hud_pressed("columns"@, s) matches Some(step) && step.0.columns == 3
            - m.columns),
        m.hud_pressed("readout"@, s) matches Some(step) && step.0.show_page != m.show_page,
{
    reveal_strlit("library");
    reveal_strlit("bookmark");
    reveal_strlit("contents");
    reveal_strlit("back");
    reveal_strlit("highlight");
    reveal_strlit("unhighlight");
    reveal_strlit("smaller");
    reveal_strlit("bigger");
    reveal_strlit("columns");
    reveal_strlit("readout");
    assert("library"@[0] == 'l' && "bookmark"@[1] == 'o' && "contents"@[2] == 'n' && "back"@[1] == 'a'
        && "highlight"@[0] == 'h' && "unhighlight"@[0] == 'u' && "smaller"@[0] == 's' && "bigger"@[1] == 'i'
        && "columns"@[2] == 'l' && "readout"@[0] == 'r');
}

/// A press opens what it lands on: the card of a book, an entry of a list, the
/// settings; a suggestion becomes the query.
pub proof fn law_presses_open_what_they_land_on(m: Model, text: String, i: usize)
    ensures
        m.pane == Pane::Library ==> {
            &&& m.clicked(Press::Card(i)).0.selected == i
            &&& m.clicked(Press::Card(i)).1 == seq![Action::OpenSelected]
            &&& m.clicked(Press::Gear).0.menu
            &&& m.clicked(Press::Suggestion(text)).0.query == text@
            &&& m.clicked(Press::Suggestion(text)).1.contains(Action::ReloadRows)
        },
        m.pane == Pane::Toc ==> m.clicked(Press::Entry(i)) == (m, seq![Action::OpenEntry(i)]),
        m.clicked(Press::Nothing) == (m, Seq::<Action>::empty()),
{
    if m.pane == Pane::Library {
        assert(m.clicked(Press::Suggestion(text)).1[0] == Action::ReloadRows);
    }
}

/// The settings panel sets the theme that is pressed, begins a folder, and goes away
/// when the press lands beside it.
pub proof fn law_the_panel_does_what_is_pressed(m: Model, theme: Theme, path: String)
    requires
        m.menu,
    ensures
        m.menu_chosen(Some(MenuChoice::Theme(theme))) matches Some(step) && step.0.style.theme == theme
            && step.1.contains(Action::SaveTheme),
        m.menu_chosen(Some(MenuChoice::Drop(path))) matches Some(step) && step.1.contains(
            Action::DropFolder,
        ),
        m.menu_chosen(Some(MenuChoice::Add)) matches Some(step) && step.0.adding == Some(
            Seq::<char>::empty(),
        ),
        m.menu_chosen(None) matches Some(step) && !step.0.menu && step.0.adding is None,
{
    assert((m.menu_chosen(Some(MenuChoice::Theme(theme)))->0).1[0] == Action::SaveTheme);
    assert((m.menu_chosen(Some(MenuChoice::Drop(path)))->0).1[0] == Action::DropFolder);
}

/// Whoever opens an entry or follows a link is on the page it names, and closing a
/// list from there leads back to that page; the way back leads to where they were.
pub proof fn law_a_followed_place_is_the_place(
    m: Model,
    spine: usize,
    page: usize,
    pages: usize,
    label: Seq<char>,
)
    ensures
        m.arrived(Some(page)).page == page && m.arrived(Some(page)).resume_page == page,
        m.followed(spine, Some(page)).page == page && m.followed(spine, Some(page)).resume_page == page,
        spine != m.index ==> m.followed(spine, None).page == 0,
        m.followed(m.index, None).page == m.page,
        page < pages ==> m.landed(page, pages).page == page && m.landed(page, pages).resume_page == page,
        m.entry_opened(spine, true, label).0.back == Some((m.index, m.resume_page, label)),
        m.entry_opened(spine, true, label).0.pane == Pane::Reading,
        spine != m.index ==> m.entry_opened(spine, true, label).1.contains(
            Action::Load { index: spine, backwards: false },
        ),
{
    let done = m.entry_opened(spine, true, label).1;
    if spine != m.index {
        assert(done[1] == Action::Load { index: spine, backwards: false });
    }
}

/// A link to a note opens the note and no other page; one out of the book, or to
/// nowhere in it, does not move the reader.
pub proof fn law_only_links_into_the_book_are_followed(m: Model, label: Seq<char>)
    requires
        m.pane == Pane::Reading,
        !m.popup,
    ensures
        m.link_pressed(Link::Note, label) matches Some(step) && step.0.popup && step.1
            == seq![Action::OpenNote] && step.0.page == m.page,
        m.link_pressed(Link::Outside, label) == Some((m, Seq::<Action>::empty())),
        m.link_pressed(Link::Broken, label) is None,
        m.link_pressed(Link::Nothing, label) is None,
{
}

/// In the settings, Escape first gives up a folder that is being typed and then closes
/// the panel; Enter adds the folder, and what is typed comes to its end.
pub proof fn law_folders_are_typed_in_the_settings(m: Model, c: String, s: Surface, marks: Seq<Mark>)
    requires
        m.pane == Pane::Library,
        m.menu,
        !m.popup,
    ensures
        m.adding is None ==> !m.pressed(Key::Escape, s, marks).0.menu,
        m.adding is Some ==> m.pressed(Key::Escape, s, marks).0.menu && m.pressed(
            Key::Escape,
            s,
            marks,
        ).0.adding is None,
        m.adding is Some ==> m.pressed(Key::Enter, s, marks).1.contains(Action::AddFolder),
        m.adding matches Some(t) ==> m.pressed(Key::Text(c), s, marks).0.adding == Some(t + c@),
        m.adding matches Some(t) ==> m.pressed(Key::Space, s, marks).0.adding == Some(t.push(' ')),
        m.adding matches Some(t) && t.len() > 0 ==> m.pressed(Key::Backspace, s, marks).0.adding
            == Some(m.adding->0.drop_last()),
        m.pressed(Key::F5, s, marks).1.contains(Action::Rescan),
{
    reveal_strlit(" ");
    if let Some(t) = m.adding {
        assert(t + " "@ =~= t.push(' '));
    }
    let enter = seq![Action::AddFolder];
    assert(enter[0] == Action::AddFolder);
    let scan = seq![Action::Rescan, Action::BuildMenu];
    assert(scan[0] == Action::Rescan);
}

/// A letter that is no command of a list does nothing there: of the contents only `q`
/// and `l` are, of the marks `n` and `x` as well.
pub proof fn law_other_letters_do_nothing_in_lists(m: Model, c: String, s: Surface, marks: Seq<Mark>)
    requires
        m.pane == Pane::Toc,
        m.mode != TocMode::Search,
        m.noting is None,
        !m.popup,
        c@ != "q"@,
        c@ != "l"@,
        m.mode == TocMode::Contents || (c@ != "n"@ && c@ != "x"@),
    ensures
        m.pressed(Key::Text(c), s, marks).0 == m,
        m.pressed(Key::Text(c), s, marks).1.len() == 0,
        m.pressed(Key::Backspace, s, marks).0 == m,
        m.pressed(Key::Enter, s, marks) == (m, seq![Action::OpenEntry(m.toc_sel)]),
{
}

/// What is timed happens when its time has come: the window closes, the bars go, and
/// before that nothing changes.
pub proof fn law_timed_things_wait_for_their_time(m: Model, at: u64, now: u64)
    ensures
        m.exit_at == Some(at) && now >= at ==> (m.ticked(now).0).1.contains(Action::Exit) && (m.ticked(
            now,
        ).0).1.contains(Action::SaveHere),
        m.exit_at == Some(at) && now < at ==> m.ticked(now) == ((m, Seq::<Action>::empty()), Wake::At(at)),
        m.exit_at is None && m.slide is None && m.hud_until == Some(at) && now < at ==> m.ticked(now)
            == ((m, Seq::<Action>::empty()), Wake::At(at)),
        m.exit_at is None && m.slide is None && m.hud_until == Some(at) && now >= at ==> !(m.ticked(
            now,
        ).0).0.hud_shown,
        m.exit_at is None && m.slide is None && m.hud_until is None ==> (m.ticked(now).0).0 == m,
{
    let done = seq![Action::SaveHere, Action::Exit];
    assert(done[0] == Action::SaveHere && done[1] == Action::Exit);
}

/// The contents open on the entry that covers where the reader is, every other list on
/// its first, and each on its first page; the page that was read is kept.
pub proof fn law_lists_open_where_they_should(m: Model, s: Surface, marks: Seq<Mark>)
    requires
        m.pane == Pane::Reading,
        m.book,
        !m.popup,
    ensures
        ({
            let next = m.pressed(Key::Tab, s, marks).0;
            &&& next.pane == Pane::Toc && next.page == 0 && next.resume_page == m.page
            &&& m.mode == TocMode::Contents ==> next.toc_sel == s.covering
            &&& m.mode != TocMode::Contents ==> next.toc_sel == 0
        }),
{
}

} // verus!
