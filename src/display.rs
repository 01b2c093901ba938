//! The whole screen: a chapter list to pick from, or the chapter being typed.
use vstd::prelude::*;

use crate::backend::Backend;
use crate::layout::{wrap_lines, wrap_of};
use crate::render::{is_shift, no_shift_from, abs, frame_step, full_frame, key_effect, ChapterDisplay, Dimensions, DisplayView, Key, TermOp};

verus! {

/// An entry of the table of contents: its name, its depth in the table, and
/// the index by which the book reader opens it.
pub struct Chapter {
    pub name: String,
    pub depth: usize,
    pub index: usize,
}

/// What the screen shows.
pub enum State {
    ChapterSelect,
    Chapter(ChapterDisplay),
}

/// What the caller must do after a key.
#[derive(Debug, Copy, Clone, PartialEq, Eq, Structural)]
pub enum Action {
    Nothing,
    Quit,
    Open(usize),
}

/// The selection state, as plain values.
pub struct SelectView {
    pub chapter: nat,
    pub count: nat,
    pub selecting: bool,
}

/// The chapter selected after `key` in the chapter list: one up for Up or
/// `k`, one down for Down or `j`, within the list.
pub open spec fn select_after(chapter: nat, count: nat, key: Key) -> nat {
    match key {
        Key::Up | Key::Char('k') => if chapter > 0 { (chapter - 1) as nat } else { 0 },
        Key::Down | Key::Char('j') => {
            let last = if count > 0 { (count - 1) as nat } else { 0 };
            if chapter + 1 < last { chapter + 1 } else { last }
        },
        _ => chapter,
    }
}

/// The screen of a typing session.
pub struct Display {
    dimensions: Dimensions,
    chapters: Vec<Chapter>,
    chapter: usize,
    state: State,
}

impl View for Display {
    type V = SelectView;

    closed spec fn view(&self) -> SelectView {
        SelectView {
            chapter: self.chapter as nat,
            count: self.chapters@.len(),
            selecting: self.state is ChapterSelect,
        }
    }
}

impl Display {
    pub closed spec fn wf(&self) -> bool {
        &&& self.dimensions.wf()
        &&& (self.chapters@.len() == 0 || self.chapter < self.chapters@.len())
        &&& match self.state {
            State::Chapter(d) => d.wf() && d@.dimensions == self.dimensions,
            State::ChapterSelect => true,
        }
    }

    /// The chapter view, when a chapter is open.
    pub closed spec fn chapter_view(&self) -> DisplayView {
        match self.state {
            State::Chapter(d) => d@,
            State::ChapterSelect => arbitrary(),
        }
    }

    /// A screen of `view_width` by `view_height` cells with a text column
    /// `width` wide, showing the chapter list with the first chapter selected.
    pub fn new(chapters: Vec<Chapter>, width: u16, view_width: u16, view_height: u16) -> (r: Display)
        ensures
            r@.chapter == 0,
            r@.count == chapters@.len(),
            r@.selecting,
            (width > 0 && view_width > 0 && view_height > 0) ==> r.wf(),
    {
        Display {
            dimensions: Dimensions::new(width, view_width, view_height),
            chapters,
            chapter: 0,
            state: State::ChapterSelect,
        }
    }

    /// Acts on a key. In the chapter list, Esc quits, Up and Down move the
    /// selection and Enter asks for the selected chapter to be opened; in a
    /// chapter, Esc goes back to the list and other keys go to the chapter.
    pub fn handle_input(&mut self, key: Key) -> (r: Action)
        requires
            old(self).wf(),
        ensures
            final(self).wf(),
            final(self)@.count == old(self)@.count,
            old(self)@.selecting ==> match key {
                Key::Esc => r == Action::Quit && final(self)@ == old(self)@,
                Key::Enter => final(self)@ == old(self)@ && (if old(self)@.count > 0 {
                    r == Action::Open(old(self).index_of(old(self)@.chapter as int))
                } else {
                    r == Action::Nothing
                }),
                _ => r == Action::Nothing && final(self)@ == (SelectView {
                    chapter: select_after(old(self)@.chapter, old(self)@.count, key),
                    ..old(self)@
                }),
            },
            !old(self)@.selecting ==> r == Action::Nothing && match key {
                Key::Esc => final(self)@ == (SelectView { selecting: true, ..old(self)@ }),
                _ => final(self)@ == old(self)@ && final(self).chapter_view() == (DisplayView {
                    tracker: key_effect(old(self).chapter_view().tracker, key),
                    ..old(self).chapter_view()
                }),
            },
    {
        if let Key::Esc = key {
            match self.state {
                State::ChapterSelect => {
                    return Action::Quit;
                },
                State::Chapter(_) => {
                    self.state = State::ChapterSelect;
                    return Action::Nothing;
                },
            }
        }
        match &mut self.state {
            State::ChapterSelect => {
                match key {
                    Key::Up | Key::Char('k') => {
                        self.chapter = if self.chapter > 0 {
                            self.chapter - 1
                        } else {
                            0
                        };
                    },
                    Key::Down | Key::Char('j') => {
                        let last = if self.chapters.len() > 0 {
                            self.chapters.len() - 1
                        } else {
                            0
                        };
                        self.chapter = if self.chapter < last {
                            self.chapter + 1
                        } else {
                            last
                        };
                    },
                    Key::Enter => {
                        if self.chapters.len() > 0 {
                            return Action::Open(self.chapters[self.chapter].index);
                        }
                    },
                    _ => {},
                }
                Action::Nothing
            },
            State::Chapter(display) => {
                display.handle_input(key);
                Action::Nothing
            },
        }
    }

    /// The index by which chapter `i` of the list is opened.
    pub closed spec fn index_of(&self, i: int) -> usize {
        self.chapters@[i].index
    }

    /// Opens a chapter whose typing state is `backend`.
    pub fn open_chapter(&mut self, backend: Backend)
        requires
            old(self).wf(),
            backend.wf(),
        ensures
            final(self).wf(),
            !final(self)@.selecting,
            final(self)@.chapter == old(self)@.chapter,
            final(self).chapter_view().tracker == backend@,
            final(self).chapter_view().needs_full_render,
    {
        self.state = State::Chapter(ChapterDisplay::enter(self.dimensions, backend));
    }

    /// Draws the next frame: the chapter list in full, or the chapter
    /// incrementally where it can be and in full where it cannot.
    pub fn render(&mut self, out: &mut Vec<TermOp>)
        requires
            old(self).wf(),
        ensures
            final(self).wf(),
            final(self)@ == old(self)@,
            old(self)@.selecting ==> list_frame(old(out)@, final(out)@),
            !old(self)@.selecting ==> ({
                let v = old(self).chapter_view();
                if v.needs_full_render || abs(v.line_diff()) > 65535 {
                    full_frame(v, final(self).chapter_view(), old(out)@, final(out)@)
                } else {
                    frame_step(v, final(self).chapter_view(), old(out)@, final(out)@)
                }
            }),
    {
        match &mut self.state {
            State::ChapterSelect => {
                self.render_chapter_list(out);
            },
            State::Chapter(display) => {
                if display.render_chapter(out) {
                    display.full_render_chapter(out);
                }
            },
        }
    }

    /// Draws the chapter list: the selected chapter's name on the middle row
    /// behind a marker, the chapters before it above and those after it below,
    /// each indented by its depth and wrapped to the text column.
    fn render_chapter_list(&self, out: &mut Vec<TermOp>)
        requires
            self.wf(),
        ensures
            list_frame(old(out)@, final(out)@),
    {
        let ghost o = out@.len() as int;
        let ghost before = out@;
        out.push(TermOp::Hide);
        out.push(TermOp::ClearAll);
        let ghost start = out@;
        proof {
            assert(start.take(o) =~= before);
            assert(start.take(start.len() as int) =~= start);

        }
        let count = self.chapters.len();
        if count == 0 {
            return ;
        }
        proof {
            assert(start.len() == o + 2 && o >= 0);
        }
        let col = self.dimensions.anchor.0;
        let middle = self.dimensions.anchor.1;
        let height = self.dimensions.screen_size.1;
        let names = self.wrapped_name(self.chapter);
        let indent = self.indent(self.chapter);
        let nlines = names.len();
        let up = if nlines > 0 && (nlines - 1) / 2 < middle as usize {
            ((nlines - 1) / 2) as u16
        } else {
            middle
        };
        let first = middle - up;
        emit(out, TermOp::MoveTo(if col >= 2 { col - 2 } else { 0 }, middle), Ghost(start));
        emit(out, TermOp::Print(vec!['>']), Ghost(start));
        let mut i: usize = 0;
        while i < nlines
            invariant
                first <= middle,
                nlines == names@.len(),
                out@.len() >= start.len(),
                out@.take(start.len() as int) == start,
                no_shift_from(out@, o + 2),
                start.take(o) == before,
                start.len() == o + 2,
                o >= 0,
            decreases nlines - i,
        {
            if i <= 65535 && first as usize + i <= 65535 {
                emit(out, TermOp::MoveTo(indent, (first as usize + i) as u16), Ghost(start));
                emit(out, TermOp::Print(names[i].clone()), Ghost(start));
            }
            i = i + 1;
        }
        let mut above: usize = if first >= 2 { first as usize - 2 } else { 0 };
        let mut cur = self.chapter;
        while cur > 0 && above >= 1
            invariant
                cur <= self.chapter < count == self.chapters@.len(),
                self.wf(),
                above <= 65535,
                out@.len() >= start.len(),
                out@.take(start.len() as int) == start,
                no_shift_from(out@, o + 2),
                start.take(o) == before,
                start.len() == o + 2,
                o >= 0,
            decreases cur,
        {
            cur = cur - 1;
            let names = self.wrapped_name(cur);
            let indent = self.indent(cur);
            let mut k: usize = 0;
            while k < names.len() && above >= 1 + k
                invariant
                    k <= names@.len(),
                    out@.len() >= start.len(),
                    out@.take(start.len() as int) == start,
                no_shift_from(out@, o + 2),
                start.take(o) == before,
                start.len() == o + 2,
                o >= 0,
                decreases names@.len() - k,
            {
                let row = above - k;
                if row <= 65535 {
                    emit(out, TermOp::MoveTo(indent, row as u16), Ghost(start));
                    emit(out, TermOp::Print(names[names.len() - 1 - k].clone()), Ghost(start));
                }
                k = k + 1;
            }
            above = if above > names.len() {
                above - names.len() - 1
            } else {
                0
            };
        }
        let mut below: usize = if nlines < height as usize {
            first as usize + nlines + 1
        } else {
            height as usize
        };
        let mut cur = self.chapter + 1;
        while cur < count && below < height as usize
            invariant
                self.chapter < cur <= count == self.chapters@.len(),
                self.wf(),
                below <= 2 * 65536,
                out@.len() >= start.len(),
                out@.take(start.len() as int) == start,
                no_shift_from(out@, o + 2),
                start.take(o) == before,
                start.len() == o + 2,
                o >= 0,
            decreases count - cur,
        {
            let names = self.wrapped_name(cur);
            let indent = self.indent(cur);
            let mut k: usize = 0;
            while k < names.len() && k < height as usize - below
                invariant
                    k <= names@.len(),
                    below < height,
                    out@.len() >= start.len(),
                    out@.take(start.len() as int) == start,
                no_shift_from(out@, o + 2),
                start.take(o) == before,
                start.len() == o + 2,
                o >= 0,
                decreases names@.len() - k,
            {
                emit(out, TermOp::MoveTo(indent, (below + k) as u16), Ghost(start));
                emit(out, TermOp::Print(names[k].clone()), Ghost(start));
                k = k + 1;
            }
            below = if names.len() < height as usize {
                below + names.len() + 1
            } else {
                height as usize
            };
            cur = cur + 1;
        }
        proof {
            assert(out@.take(o) =~= start.take(o)) by {
                assert(out@.take(start.len() as int) == start);
            }
            assert(out@[o] == start[o]);
            assert(out@[o + 1] == start[o + 1]);
        }
    }

    /// Screen column where the name of chapter `i` starts: two cells in per
    /// level of depth.
    fn indent(&self, i: usize) -> (r: u16)
        requires
            i < self.chapters@.len(),
        ensures
            r == (if self.dimensions.anchor.0 + 2 * self.chapters@[i as int].depth > 65535 {
                65535
            } else {
                self.dimensions.anchor.0 + 2 * self.chapters@[i as int].depth
            }),
    {
        let depth = self.chapters[i].depth;
        let a = self.dimensions.anchor.0 as usize;
        if depth > 32767 || a + 2 * depth > 65535 {
            65535
        } else {
            (a + 2 * depth) as u16
        }
    }

    /// The name of chapter `i` wrapped to the text column less its indent.
    fn wrapped_name(&self, i: usize) -> (r: Vec<Vec<char>>)
        requires
            i < self.chapters@.len(),
            self.dimensions.width > 0,
        ensures
            r@.map_values(|l: Vec<char>| l@) == wrap_of(
                self.chapters@[i as int].name@,
                name_width(self.dimensions.width as int, self.chapters@[i as int].depth as int) as nat,
            ),
    {
        let depth = self.chapters[i].depth;
        let w = self.dimensions.width as usize;
        let at = if depth < w / 2 && 2 * depth < w {
            w - 2 * depth
        } else {
            1
        };
        wrap_lines(self.chapters[i].name.as_str(), at)
    }
}

/// Appends an operation that does not scroll, keeping what came before.
fn emit(out: &mut Vec<TermOp>, op: TermOp, start: Ghost<Seq<TermOp>>)
    requires
        !is_shift(op),
        old(out)@.len() >= start@.len() >= 2,
        old(out)@.take(start@.len() as int) == start@,
        no_shift_from(old(out)@, start@.len() as int),
    ensures
        final(out)@ == old(out)@.push(op),
        final(out)@.take(start@.len() as int) == start@,
        no_shift_from(final(out)@, start@.len() as int),
{
    let ghost before = out@;
    out.push(op);
    proof {
        assert(out@.take(start@.len() as int) =~= before.take(start@.len() as int));
        assert forall|j: int| start@.len() <= j < out@.len() implies !is_shift(#[trigger] out@[j]) by {
            if j < before.len() {
                assert(out@[j] == before[j]);
            }
        }
    }
}

/// A frame of the chapter list: the screen is hidden and cleared first, then
/// drawn on without scrolling.
pub open spec fn list_frame(before: Seq<TermOp>, after: Seq<TermOp>) -> bool {
    let o = before.len() as int;
    &&& after.len() >= o + 2
    &&& after.take(o) == before
    &&& after[o] == TermOp::Hide
    &&& after[o + 1] == TermOp::ClearAll
    &&& no_shift_from(after, o + 2)
}

/// Columns left for a name at `depth` in a text column `width` wide: two fewer
/// per level, at least one.
pub open spec fn name_width(width: int, depth: int) -> int {
    if depth < width / 2 && 2 * depth < width {
        width - 2 * depth
    } else {
        1
    }
}

} // verus!
