//! The incremental renderer: the cursor stays on one screen row and the text
//! scrolls past it; each keystroke is answered with the few terminal
//! operations that bring the screen up to date.
use vstd::prelude::*;

use crate::backend::{lemma_positions_ordered, Backend, TrackerView};
use crate::layout::{
    contiguous_from, layout_of, lemma_layout_row_step, layout_sorted, lemma_layout_sorted, line_matches, lines_match, wrap_of,
    wrap_text, Linebreak, VirtualLine,
};
use crate::position::{byte_offset, char_width, lemma_byte_offset_mono, utf8_len, utf8_width, Len};
use crate::style::{no_style, ordered, sum_chars, tiles, Style};

verus! {

/// A text attribute of the terminal.
#[derive(Debug, Copy, Clone, PartialEq, Eq, Structural)]
pub enum Attr {
    Bold,
    NormalIntensity,
    Italic,
    NoItalic,
    Reverse,
    NoReverse,
    Reset,
}

/// A foreground colour of the terminal.
#[derive(Debug, Copy, Clone, PartialEq, Eq, Structural)]
pub enum Color {
    Red,
    Reset,
}

/// One terminal operation.
#[derive(Debug, Clone, PartialEq, Eq)]
pub enum TermOp {
    Hide,
    Show,
    ClearAll,
    MoveTo(u16, u16),
    ScrollUp(u16),
    ScrollDown(u16),
    SetAttr(Attr),
    SetForeground(Color),
    Print(Vec<char>),
}

/// A terminal operation as plain values.
pub enum OpView {
    Hide,
    Show,
    ClearAll,
    MoveTo(u16, u16),
    ScrollUp(u16),
    ScrollDown(u16),
    SetAttr(Attr),
    SetForeground(Color),
    Print(Seq<char>),
}

pub open spec fn op_view(op: TermOp) -> OpView {
    match op {
        TermOp::Hide => OpView::Hide,
        TermOp::Show => OpView::Show,
        TermOp::ClearAll => OpView::ClearAll,
        TermOp::MoveTo(c, r) => OpView::MoveTo(c, r),
        TermOp::ScrollUp(n) => OpView::ScrollUp(n),
        TermOp::ScrollDown(n) => OpView::ScrollDown(n),
        TermOp::SetAttr(a) => OpView::SetAttr(a),
        TermOp::SetForeground(c) => OpView::SetForeground(c),
        TermOp::Print(v) => OpView::Print(v@),
    }
}

/// The operations as plain values.
pub open spec fn ops_view(ops: Seq<TermOp>) -> Seq<OpView> {
    ops.map_values(|op: TermOp| op_view(op))
}

/// The attribute changes from style `prev` to style `next`: italic off, bold
/// off, italic on, bold on, each where it changes; the centre flag has no
/// attribute.
pub open spec fn switch_ops(prev: Style, next: Style) -> Seq<OpView> {
    let off = prev.bits & !next.bits;
    let on = next.bits & !prev.bits;
    (if off & 1 == 1 { seq![OpView::SetAttr(Attr::NoItalic)] } else { Seq::empty() }) + (if off & 2 == 2 {
        seq![OpView::SetAttr(Attr::NormalIntensity)]
    } else {
        Seq::empty()
    }) + (if on & 1 == 1 { seq![OpView::SetAttr(Attr::Italic)] } else { Seq::empty() }) + (if on & 2
        == 2 {
        seq![OpView::SetAttr(Attr::Bold)]
    } else {
        Seq::empty()
    })
}

/// Printing the style pieces `ps` of the text from character index `a`: for
/// each piece, the attribute changes from the previous piece's style (no style
/// before the first), then the piece's characters.
pub open spec fn styled_ops(t: Seq<char>, a: int, ps: Seq<(Style, Len)>) -> Seq<OpView>
    decreases ps.len(),
{
    if ps.len() == 0 {
        Seq::empty()
    } else {
        let k = ps.len() - 1;
        let prev = if k == 0 { no_style() } else { ps[k - 1].0 };
        let from = a + sum_chars(ps.drop_last());
        styled_ops(t, a, ps.drop_last()) + switch_ops(prev, ps[k].0) + seq![
            OpView::Print(t.subrange(from, from + ps[k].1.chars)),
        ]
    }
}

/// Printing the glyph of a separator of kind `kind`.
pub open spec fn glyph_ops(kind: Linebreak) -> Seq<OpView> {
    if glyph(kind).len() > 0 {
        seq![OpView::Print(glyph(kind))]
    } else {
        Seq::empty()
    }
}

/// A prefix of a prefix.
pub proof fn lemma_take_take<A>(s: Seq<A>, m: int, l: int)
    requires
        0 <= l <= m <= s.len(),
    ensures
        s.take(l) == s.take(m).take(l),
{
    assert(s.take(l) =~= s.take(m).take(l));
}

/// `ops` is what drawing `start..end` of screen line `line` emits, the range
/// counted from the line's start and cut to its text: a move to the range's
/// first cell, then for each piece of one style the attribute changes and the
/// characters, then the separator's glyph if `end` reaches past the text, then
/// a reset of the attributes.
#[verifier::opaque]
pub open spec fn range_drawn(v: DisplayView, line: ScreenLine, start: Len, end: Len, ops: Seq<OpView>) -> bool {
    let t = v.tracker.text;
    let len = line.line.end.chars - line.line.start.chars;
    exists|ps: Seq<(Style, Len)>|
        #[trigger] tiles(
            v.tracker.styles,
            Len::at(t, line.line.start.chars + cut_start(line, start, end)),
            Len::at(t, line.line.start.chars + cut_end(line, end)),
            ps,
        ) && ops == seq![OpView::MoveTo(column_at(v.dimensions, cut_start(line, start, end)) as u16, line.row)]
            + styled_ops(t, line.line.start.chars + cut_start(line, start, end), ps) + (if end.chars > len {
            glyph_ops(line.line.linebreak)
        } else {
            Seq::empty()
        }) + seq![OpView::SetAttr(Attr::Reset)]
}

/// The whole of a screen line: its text and its separator, counted from the
/// line's start.
pub open spec fn whole_line(sl: ScreenLine) -> Len {
    Len {
        bytes: (sl.line.end.bytes + sl.line.separator_len.bytes - sl.line.start.bytes) as usize,
        chars: (sl.line.end.chars + sl.line.separator_len.chars - sl.line.start.chars) as usize,
    }
}

/// `ops` is what drawing the screen line `sl` in full emits.
pub open spec fn line_drawn(v: DisplayView, sl: ScreenLine, ops: Seq<OpView>) -> bool {
    range_drawn(v, sl, Len { bytes: 0, chars: 0 }, whole_line(sl), ops)
}

/// `ops` is what drawing the screen lines `sls` in full, one after the other,
/// emits.
pub open spec fn lines_drawn(v: DisplayView, sls: Seq<ScreenLine>, ops: Seq<OpView>) -> bool
    decreases sls.len(),
{
    if sls.len() == 0 {
        ops.len() == 0
    } else {
        exists|m: int|
            0 <= m <= ops.len() && lines_drawn(v, sls.drop_last(), #[trigger] ops.take(m)) && line_drawn(
                v,
                sls.last(),
                ops.skip(m),
            )
    }
}

/// `ops` is a range drawn as an error: reversed and in red, then back.
pub open spec fn error_range_drawn(v: DisplayView, sl: ScreenLine, start: Len, end: Len, ops: Seq<OpView>) -> bool {
    &&& ops.len() >= 6
    &&& ops[0] == OpView::SetAttr(Attr::Reverse)
    &&& ops[1] == OpView::SetForeground(Color::Red)
    &&& range_drawn(v, sl, start, end, ops.subrange(2, ops.len() - 2))
    &&& ops[ops.len() - 2] == OpView::SetForeground(Color::Reset)
    &&& ops[ops.len() - 1] == OpView::SetAttr(Attr::NoReverse)
}

/// `ops` redraws the character at error position `e` on screen line `sl`, in
/// error style or plainly; nothing when `e` is not a character of that line.
pub open spec fn error_drawn_at(v: DisplayView, sl: ScreenLine, e: Len, as_error: bool, ops: Seq<OpView>) -> bool {
    let t = v.tracker.text;
    if sl.line.start.chars <= e.chars < t.len() {
        let x = Len { bytes: (e.bytes - sl.line.start.bytes) as usize, chars: (e.chars - sl.line.start.chars) as usize };
        let xe = Len { bytes: (x.bytes + char_width(t[e.chars as int])) as usize, chars: (x.chars + 1) as usize };
        if as_error {
            error_range_drawn(v, sl, x, xe, ops)
        } else {
            range_drawn(v, sl, x, xe, ops)
        }
    } else {
        ops.len() == 0
    }
}

/// `ops` redraws the error positions `errs` from index `cur` on over the
/// screen lines `sls` from index `k` on: each error on the first of those
/// lines whose text and separator reach past it, until the lines or the errors
/// run out.
pub open spec fn overlay_drawn(
    v: DisplayView,
    sls: Seq<ScreenLine>,
    errs: Seq<Len>,
    as_error: bool,
    k: int,
    cur: int,
    ops: Seq<OpView>,
) -> bool
    decreases sls.len() - k + errs.len() - cur,
{
    if k < 0 || cur < 0 || k >= sls.len() || cur >= errs.len() {
        ops.len() == 0
    } else if errs[cur].chars >= sls[k].line.end.chars + sls[k].line.separator_len.chars {
        overlay_drawn(v, sls, errs, as_error, k + 1, cur, ops)
    } else {
        exists|m: int|
            0 <= m <= ops.len() && error_drawn_at(v, sls[k], errs[cur], as_error, #[trigger] ops.take(m))
                && overlay_drawn(v, sls, errs, as_error, k, cur + 1, ops.skip(m))
    }
}

/// Where a drawn range ends, counted from the line's start: at `end`, or at
/// the end of the line's text if that comes first.
pub open spec fn cut_end(line: ScreenLine, end: Len) -> int {
    let len = line.line.end.chars - line.line.start.chars;
    if end.chars < len {
        end.chars as int
    } else {
        len
    }
}

/// Where a drawn range starts, counted from the line's start: at `start`, or
/// where it ends if that comes first.
pub open spec fn cut_start(line: ScreenLine, start: Len, end: Len) -> int {
    if start.chars <= cut_end(line, end) {
        start.chars as int
    } else {
        cut_end(line, end)
    }
}

/// Viewing operations one more at a time.
pub proof fn lemma_view_skip_push(ops: Seq<TermOp>, from: int, op: TermOp)
    requires
        0 <= from <= ops.len(),
    ensures
        ops_view(ops.push(op).skip(from)) == ops_view(ops.skip(from)).push(op_view(op)),
{
    assert(ops_view(ops.push(op).skip(from)) =~= ops_view(ops.skip(from)).push(op_view(op)));
}

/// Viewing operations that came in two stretches.
pub proof fn lemma_view_skip_split(fin: Seq<TermOp>, mid: Seq<TermOp>, from: int)
    requires
        0 <= from <= mid.len() <= fin.len(),
        fin.take(mid.len() as int) == mid,
    ensures
        ops_view(fin.skip(from)) == ops_view(mid.skip(from)) + ops_view(fin.skip(mid.len() as int)),
{
    assert forall|i: int| 0 <= i < fin.len() - from implies #[trigger] fin.skip(from)[i] == (mid.skip(from)
        + fin.skip(mid.len() as int))[i] by {
        if from + i < mid.len() {
            assert(fin.take(mid.len() as int)[from + i] == fin[from + i]);
        }
    }
    assert(fin.skip(from) =~= mid.skip(from) + fin.skip(mid.len() as int));
    assert(ops_view(fin.skip(from)) =~= ops_view(mid.skip(from)) + ops_view(fin.skip(mid.len() as int)));
}

/// The characters that the operations print, in order.
pub open spec fn printed(ops: Seq<TermOp>) -> Seq<char>
    decreases ops.len(),
{
    if ops.len() == 0 {
        Seq::empty()
    } else {
        match ops.last() {
            TermOp::Print(v) => printed(ops.drop_last()) + v@,
            _ => printed(ops.drop_last()),
        }
    }
}

/// The operation moves or wipes what the screen shows: a scroll or a clear.
pub open spec fn is_shift(op: TermOp) -> bool {
    op is ScrollUp || op is ScrollDown || op is ClearAll
}

/// No operation from index `from` on scrolls or clears the screen.
pub open spec fn no_shift_from(ops: Seq<TermOp>, from: int) -> bool {
    forall|k: int| from <= k < ops.len() ==> !is_shift(#[trigger] ops[k])
}

/// The screen: its size, the cell where the cursor stays, and the width of
/// the text column.
#[derive(Debug, Copy, Clone)]
pub struct Dimensions {
    pub screen_size: (u16, u16),
    pub anchor: (u16, u16),
    pub width: u16,
}

impl Dimensions {
    /// A text column and a screen row to put the cursor on.
    pub open spec fn wf(self) -> bool {
        &&& self.width > 0
        &&& self.anchor.1 < self.screen_size.1
    }

    /// A text column `width` wide, at most the screen's width, centred, with
    /// the cursor on the middle row.
    pub fn new(width: u16, view_width: u16, view_height: u16) -> (r: Dimensions)
        ensures
            r.width == (if width < view_width { width } else { view_width }),
            r.screen_size == (view_width, view_height),
            r.anchor == ((view_width / 2 - r.width / 2) as u16, view_height / 2),
    {
        let width = if width < view_width {
            width
        } else {
            view_width
        };
        Dimensions {
            screen_size: (view_width, view_height),
            anchor: (view_width / 2 - width / 2, view_height / 2),
            width,
        }
    }
}

/// A virtual line placed on a screen row.
#[derive(Debug, Copy, Clone, PartialEq, Eq, Structural)]
pub struct ScreenLine {
    pub line: VirtualLine,
    pub row: u16,
}

impl ScreenLine {
    /// The length of the line's text.
    pub fn len(&self) -> (r: Len)
        requires
            ordered(self.line.start, self.line.end),
        ensures
            r.bytes == self.line.end.bytes - self.line.start.bytes,
            r.chars == self.line.end.chars - self.line.start.chars,
    {
        self.line.end.sub(self.line.start)
    }

    /// The length of the line's text and its separator.
    pub fn len_with_break(&self) -> (r: Len)
        requires
            ordered(self.line.start, self.line.end),
            self.line.end.bytes + self.line.separator_len.bytes <= usize::MAX,
            self.line.end.chars + self.line.separator_len.chars <= usize::MAX,
        ensures
            r.bytes == self.line.end.bytes + self.line.separator_len.bytes - self.line.start.bytes,
            r.chars == self.line.end.chars + self.line.separator_len.chars - self.line.start.chars,
    {
        self.line.end.sub(self.line.start).add(self.line.separator_len)
    }
}

/// The line's text and its separator lie in `t`, at positions of it.
pub open spec fn line_in_text(vl: VirtualLine, t: Seq<char>) -> bool {
    &&& vl.start.is_pos_in(t)
    &&& vl.end.is_pos_in(t)
    &&& vl.start.chars <= vl.end.chars
    &&& vl.end.chars + vl.separator_len.chars <= t.len()
    &&& vl.end.bytes + vl.separator_len.bytes == byte_offset(t, vl.end.chars + vl.separator_len.chars)
}

/// What the renderer needs of the lines of text `t`: positions of the text,
/// in order, the last one ending the text.
pub open spec fn lines_wf(ls: Seq<VirtualLine>, t: Seq<char>) -> bool {
    &&& ls.len() > 0
    &&& ls.last().end.chars == t.len()
    &&& forall|k: int| 0 <= k < ls.len() ==> line_in_text(#[trigger] ls[k], t)
    &&& forall|j: int, k: int|
        #![trigger ls[j], ls[k]]
        0 <= j < k < ls.len() ==> ls[j].end.chars <= ls[k].start.chars && ls[j].line <= ls[k].line
}

/// Lines laid out by the layout are as the renderer needs them.
pub proof fn lemma_layout_lines_wf(lines: Seq<VirtualLine>, t: Seq<char>, frags: Seq<Seq<char>>)
    requires
        lines_match(lines, layout_of(t, frags), t),
        utf8_len(t) <= usize::MAX,
    ensures
        lines_wf(lines, t),
{
    let ms = layout_of(t, frags);
    lemma_layout_sorted(t, frags);
    assert(t.take(t.len() as int) =~= t);
    lemma_byte_offset_mono(t, 0, t.len() as int);
    assert(line_matches(lines[lines.len() - 1], ms[ms.len() - 1], t));
    assert(ms.last().end == t.len());
    assert forall|k: int| 0 <= k < lines.len() implies line_in_text(#[trigger] lines[k], t) by {
        lemma_line_facts(lines, t, frags, k);
    }
    assert forall|j: int, k: int| #![trigger lines[j], lines[k]] 0 <= j < k < lines.len() implies lines[j].end.chars
        <= lines[k].start.chars && lines[j].line <= lines[k].line by {
        lemma_line_pair(lines, t, frags, j, k);
    }
}

proof fn lemma_line_facts(lines: Seq<VirtualLine>, t: Seq<char>, frags: Seq<Seq<char>>, k: int)
    requires
        lines_match(lines, layout_of(t, frags), t),
        utf8_len(t) <= usize::MAX,
        contiguous_from(t, layout_of(t, frags), 0),
        0 <= k < lines.len(),
    ensures
        lines[k].start.is_pos_in(t),
        lines[k].end.is_pos_in(t),
        lines[k].start.chars <= lines[k].end.chars,
        lines[k].end.chars + lines[k].separator_len.chars <= t.len(),
        lines[k].end.bytes + lines[k].separator_len.bytes == byte_offset(
            t,
            lines[k].end.chars + lines[k].separator_len.chars,
        ),
{
    let ms = layout_of(t, frags);
    let m = ms[k];
    assert(line_matches(lines[k], m, t));
    assert(m.start <= m.end && m.end + m.sep <= t.len());
    assert(t.take(t.len() as int) =~= t);
    lemma_byte_offset_mono(t, 0, t.len() as int);
    lemma_byte_offset_mono(t, m.start as int, t.len() as int);
    lemma_byte_offset_mono(t, m.end as int, (m.end + m.sep) as int);
    lemma_byte_offset_mono(t, (m.end + m.sep) as int, t.len() as int);
}

proof fn lemma_line_pair(lines: Seq<VirtualLine>, t: Seq<char>, frags: Seq<Seq<char>>, j: int, k: int)
    requires
        lines_match(lines, layout_of(t, frags), t),
        utf8_len(t) <= usize::MAX,
        layout_sorted(layout_of(t, frags)),
        contiguous_from(t, layout_of(t, frags), 0),
        0 <= j < k < lines.len(),
    ensures
        lines[j].end.chars <= lines[k].start.chars,
        lines[j].line <= lines[k].line,
{
    let ms = layout_of(t, frags);
    assert(line_matches(lines[j], ms[j], t));
    assert(line_matches(lines[k], ms[k], t));
    assert(ms[j].end <= ms[k].start && ms[j].line <= ms[k].line);
    assert(ms[k].start <= ms[k].end && ms[k].end + ms[k].sep <= t.len());
    assert(ms[j].start <= ms[j].end && ms[j].end + ms[j].sep <= t.len());
    assert(t.take(t.len() as int) =~= t);
    lemma_byte_offset_mono(t, 0, t.len() as int);
}

/// `lines` is the layout of `t` wrapped at `width` columns.
#[verifier::opaque]
pub open spec fn laid_out(lines: Seq<VirtualLine>, t: Seq<char>, width: nat) -> bool {
    lines_match(lines, layout_of(t, wrap_of(t, width)), t)
}

/// The state of a chapter on screen, as plain values.
pub struct DisplayView {
    pub dimensions: Dimensions,
    pub tracker: TrackerView,
    pub lines: Seq<VirtualLine>,
    pub previous_line: nat,
    pub needs_full_render: bool,
}

/// Index of the line that holds character index `idx`: the first whose text
/// ends at or after it.
pub open spec fn line_of(ls: Seq<VirtualLine>, idx: int) -> int {
    choose|y: int| #[trigger] splits_at(ls, idx, y)
}

/// The lines before `y` end before character index `idx`, the others do not.
pub open spec fn splits_at(ls: Seq<VirtualLine>, idx: int, y: int) -> bool {
    &&& 0 <= y <= ls.len()
    &&& forall|k: int| 0 <= k < y ==> (#[trigger] ls[k]).end.chars < idx
    &&& forall|k: int| y <= k < ls.len() ==> (#[trigger] ls[k]).end.chars >= idx
}

/// A chapter being typed on screen.
pub struct ChapterDisplay {
    dimensions: Dimensions,
    backend: Backend,
    lines: Vec<VirtualLine>,
    previous_line: usize,
    needs_full_render: bool,
}

impl View for ChapterDisplay {
    type V = DisplayView;

    closed spec fn view(&self) -> DisplayView {
        DisplayView {
            dimensions: self.dimensions,
            tracker: self.backend@,
            lines: self.lines@,
            previous_line: self.previous_line as nat,
            needs_full_render: self.needs_full_render,
        }
    }
}

impl DisplayView {
    /// The lines are the layout of the text at the column's width, and the
    /// line drawn last is one of them.
    pub open spec fn wf(self) -> bool {
        &&& self.dimensions.wf()
        &&& self.tracker.wf()
        &&& laid_out(self.lines, self.tracker.text, self.dimensions.width as nat)
        &&& lines_wf(self.lines, self.tracker.text)
        &&& self.previous_line < self.lines.len()
    }

    /// Index of the line that holds the cursor.
    pub open spec fn cursor_line(self) -> int {
        line_of(self.lines, self.tracker.cursor.chars as int)
    }

    /// Rows to scroll: the row of the cursor's line less the row drawn last.
    pub open spec fn line_diff(self) -> int {
        self.lines[self.cursor_line()].line - self.lines[self.previous_line as int].line
    }
}

impl ChapterDisplay {
    pub closed spec fn wf(&self) -> bool {
        &&& self@.wf()
        &&& self.backend.wf()
    }

    /// The state of a well-formed chapter view: its lines are the layout of
    /// its text.
    pub proof fn lemma_view_wf(&self)
        requires
            self.wf(),
        ensures
            self@.wf(),
    {
    }

    /// Opens a chapter: its text is wrapped at the column's width, and the
    /// first frame will be drawn in full.
    pub fn enter(dimensions: Dimensions, backend: Backend) -> (r: ChapterDisplay)
        requires
            dimensions.wf(),
            backend.wf(),
        ensures
            r.wf(),
            r@.dimensions == dimensions,
            r@.tracker == backend@,
            r@.previous_line == 0,
            r@.needs_full_render,
    {
        proof {
            backend.lemma_view_wf();
        }
        let lines = wrap_text(backend.text(), dimensions.width);
        proof {
            let t = backend@.text;
            lemma_layout_lines_wf(lines@, t, wrap_of(t, dimensions.width as nat));
            reveal(laid_out);
        }
        ChapterDisplay { dimensions, backend, lines, previous_line: 0, needs_full_render: true }
    }

    /// The typing state.
    pub fn backend(&self) -> (r: &Backend)
        ensures
            r@ == self@.tracker,
    {
        &self.backend
    }

    /// The virtual lines of the chapter.
    pub fn lines(&self) -> (r: &Vec<VirtualLine>)
        ensures
            r@ == self@.lines,
    {
        &self.lines
    }

    /// Index of the line that holds character index `idx`.
    pub fn char_index_to_virtual_line(&self, idx: usize) -> (r: usize)
        requires
            self.wf(),
            idx <= self@.tracker.text.len(),
        ensures
            r == line_of(self@.lines, idx as int),
            r < self@.lines.len(),
    {
        let ghost ls = self.lines@;
        let mut lo: usize = 0;
        let mut hi: usize = self.lines.len();
        while lo < hi
            invariant
                ls == self.lines@,
                lines_wf(ls, self@.tracker.text),
                0 <= lo <= hi <= ls.len(),
                forall|k: int| 0 <= k < lo ==> (#[trigger] ls[k]).end.chars < idx,
                forall|k: int| hi <= k < ls.len() ==> (#[trigger] ls[k]).end.chars >= idx,
            decreases hi - lo,
        {
            let mid = lo + (hi - lo) / 2;
            if self.lines[mid].end.chars < idx {
                proof {
                    assert forall|k: int| 0 <= k < mid + 1 implies (#[trigger] ls[k]).end.chars < idx by {
                        if k < mid {
                            assert(ls[k].end.chars <= ls[mid as int].start.chars);
                        }
                    }
                }
                lo = mid + 1;
            } else {
                proof {
                    assert forall|k: int| mid <= k < ls.len() implies (#[trigger] ls[k]).end.chars >= idx by {
                        if k > mid {
                            assert(ls[mid as int].end.chars <= ls[k].start.chars);
                        }
                    }
                }
                hi = mid;
            }
        }
        proof {
            lemma_line_of_unique(ls, idx as int, lo as int);
            if lo == ls.len() {
                assert(ls[ls.len() - 1].end.chars < idx);
            }
        }
        lo
    }

    /// Column within its line and index of the line of character index `cursor`.
    pub fn to_virtual(&self, cursor: usize) -> (r: (u16, usize))
        requires
            self.wf(),
            cursor <= self@.tracker.text.len(),
        ensures
            r.1 == line_of(self@.lines, cursor as int),
            r.1 < self@.lines.len(),
            r.0 == column_in(self@.lines[r.1 as int], cursor as int),
    {
        let y = self.char_index_to_virtual_line(cursor);
        let start = self.lines[y].start.chars;
        let x: u16 = if cursor < start {
            0
        } else if cursor - start > 65535 {
            65535
        } else {
            (cursor - start) as u16
        };
        (x, y)
    }

    /// Rows between the line `current` and the line drawn last.
    fn line_difference(&self, current: usize) -> (r: i128)
        requires
            self.wf(),
            current < self@.lines.len(),
        ensures
            r == self@.lines[current as int].line - self@.lines[self@.previous_line as int].line,
    {
        self.lines[current].line as i128 - self.lines[self.previous_line].line as i128
    }
}

/// Column of character index `idx` in line `vl`: its distance from the start
/// of the line, none before it, at most the largest column.
pub open spec fn column_in(vl: VirtualLine, idx: int) -> int {
    if idx < vl.start.chars {
        0
    } else if idx - vl.start.chars > 65535 {
        65535
    } else {
        idx - vl.start.chars
    }
}

proof fn lemma_line_of_unique(ls: Seq<VirtualLine>, idx: int, y: int)
    requires
        0 <= y <= ls.len(),
        forall|k: int| 0 <= k < y ==> (#[trigger] ls[k]).end.chars < idx,
        forall|k: int| y <= k < ls.len() ==> (#[trigger] ls[k]).end.chars >= idx,
    ensures
        line_of(ls, idx) == y,
{
    assert(splits_at(ls, idx, y));
    let z = line_of(ls, idx);
    assert(splits_at(ls, idx, z));
    if z < y {
        assert(ls[z].end.chars < idx);
    } else if z > y {
        assert(ls[y].end.chars < idx);
    }
}

/// Keys that the chapter view acts on.
#[derive(Debug, Copy, Clone, PartialEq, Eq, Structural)]
pub enum Key {
    Char(char),
    Enter,
    Backspace,
    DeleteWord,
    Esc,
    Up,
    Down,
    Other,
}

/// `off` is a position of `t` counted from `base`.
pub open spec fn rel_pos(t: Seq<char>, base: Len, off: Len) -> bool {
    &&& base.chars + off.chars <= t.len()
    &&& base.bytes + off.bytes == byte_offset(t, base.chars + off.chars)
}

/// The glyph drawn for the separator of a line of kind `kind`.
pub open spec fn glyph(kind: Linebreak) -> Seq<char> {
    match kind {
        Linebreak::Existing => seq!['\u{AC}'],
        Linebreak::Wrapped => seq![' '],
        Linebreak::Eof => Seq::empty(),
    }
}

/// Printing one more operation adds what it prints.
pub proof fn lemma_printed_push(ops: Seq<TermOp>, op: TermOp)
    ensures
        printed(ops.push(op)) == printed(ops) + match op {
            TermOp::Print(v) => v@,
            _ => Seq::empty(),
        },
{
    assert(ops.push(op).drop_last() =~= ops);
    if !(op is Print) {
        assert(printed(ops) + Seq::<char>::empty() =~= printed(ops));
    }
}

proof fn lemma_sum_chars_prefix(pieces: Seq<(Style, Len)>, k: int)
    requires
        0 <= k < pieces.len(),
    ensures
        sum_chars(pieces.take(k + 1)) == sum_chars(pieces.take(k)) + pieces[k].1.chars,
        sum_chars(pieces.take(k + 1)) <= sum_chars(pieces),
    decreases pieces.len() - k,
{
    assert(pieces.take(k + 1).drop_last() =~= pieces.take(k));
    if k + 1 < pieces.len() {
        lemma_sum_chars_prefix(pieces, k + 1);
    } else {
        assert(pieces.take(k + 1) =~= pieces);
    }
}

impl ChapterDisplay {
    fn column(&self, x: usize) -> (r: u16)
        ensures
            r == (if self.dimensions.anchor.0 + x > 65535 { 65535 } else { self.dimensions.anchor.0 + x }),
    {
        let a = self.dimensions.anchor.0 as usize;
        if x > 65535 || a + x > 65535 {
            65535
        } else {
            (a + x) as u16
        }
    }

    /// The characters of the text from index `from` up to `to`.
    fn text_range(&self, from: usize, to: usize) -> (r: Vec<char>)
        requires
            from <= to <= self@.tracker.text.len(),
        ensures
            r@ == self@.tracker.text.subrange(from as int, to as int),
    {
        let chars = self.backend.chars();
        let mut out: Vec<char> = Vec::new();
        let mut j = from;
        while j < to
            invariant
                from <= j <= to <= chars@.len(),
                out@ == chars@.subrange(from as int, j as int),
            decreases to - j,
        {
            out.push(chars[j]);
            j = j + 1;
            proof {
                assert(out@ =~= chars@.subrange(from as int, j as int));
            }
        }
        out
    }

    /// The screen lines whose rows, counted with the cursor's line on the
    /// anchor row, fall in `rows` (cut to the screen).
    pub fn screen_lines(&self, rows: core::ops::Range<u16>) -> (r: Vec<ScreenLine>)
        requires
            self.wf(),
        ensures
            r@ == window_of(self@.lines, self@.top_line(), row_window(rows, self@.dimensions.screen_size.1 as int)),
            forall|k: int|
                0 <= k < r@.len() ==> (#[trigger] r@[k]).row == r@[k].line.line - self@.top_line() && r@[k].row
                    < self@.dimensions.screen_size.1,
            forall|k: int| 0 < k < r@.len() ==> (#[trigger] r@[k]).row > r@[k - 1].row || r@[k].line.line
                == r@[k - 1].line.line,
            forall|k: int| 0 <= k < r@.len() ==> line_in_text(#[trigger] r@[k].line, self@.tracker.text),
    {
        let h = self.dimensions.screen_size.1;
        let lo = if rows.start < h - 1 {
            rows.start
        } else {
            h - 1
        };
        let hi = if rows.end < h {
            rows.end
        } else {
            h
        };
        proof {
            self.backend.lemma_view_wf();
        }
        let y = self.char_index_to_virtual_line(self.backend.cursor().chars);
        let top: i128 = self.lines[y].line as i128 - self.dimensions.anchor.1 as i128;
        let start_line: i128 = top + lo as i128;
        let end_line: i128 = top + hi as i128;
        let ghost ls = self.lines@;
        let ghost t = self@.tracker.text;
        let ghost top_spec = self@.top_line();
        let mut j = first_line_at(&self.lines, start_line, Ghost(t));
        let ghost j0 = j as int;
        let mut out: Vec<ScreenLine> = Vec::new();
        while j < self.lines.len() && (self.lines[j].line as i128) < end_line
            invariant
                ls == self.lines@,
                lines_wf(ls, t),
                top == top_spec,
                start_line == top + lo,
                end_line == top + hi,
                hi <= h,
                j0 <= j <= ls.len(),
                out@.len() == j - j0,
                forall|k: int| j0 <= k < ls.len() ==> (#[trigger] ls[k]).line >= start_line,
                forall|k: int|
                    0 <= k < out@.len() ==> (#[trigger] out@[k]).line == ls[j0 + k] && out@[k].row == ls[j0
                        + k].line - top && out@[k].row < h,
                forall|k: int| 0 <= k < out@.len() ==> line_in_text(#[trigger] out@[k].line, t),
                forall|k: int| j0 <= k < j ==> (#[trigger] ls[k]).line < end_line,
                forall|k: int| 0 <= k < j0 ==> (#[trigger] ls[k]).line < start_line,
            decreases ls.len() - j,
        {
            let vl = self.lines[j];
            let row = (vl.line as i128 - top) as u16;
            let ghost old_out = out@;
            out.push(ScreenLine { line: vl, row });
            proof {
                assert forall|k: int| 0 <= k < out@.len() implies (#[trigger] out@[k]).line == ls[j0 + k]
                    && out@[k].row == ls[j0 + k].line - top && out@[k].row < h by {
                    if k < old_out.len() {
                        assert(out@[k] == old_out[k]);
                    }
                }
                assert forall|k: int| 0 <= k < out@.len() implies line_in_text(#[trigger] out@[k].line, t) by {
                    if k < old_out.len() {
                        assert(out@[k] == old_out[k]);
                    } else {
                        assert(line_in_text(ls[j as int], t));
                    }
                }
            }
            j = j + 1;
        }
        proof {
            reveal(window_of);
            lemma_first_at_unique(ls, start_line as int, j0);
            let b = first_at(ls, end_line as int);
            if start_line <= end_line {
                assert forall|k: int| j <= k < ls.len() implies (#[trigger] ls[k]).line >= end_line by {
                    if k > j {
                        assert(ls[j as int].line <= ls[k].line);
                    }
                }
                lemma_first_at_unique(ls, end_line as int, j as int);
            } else {
                lemma_first_at_exists(ls, t, end_line as int);
                if b > j0 {
                    assert(ls[j0].line < end_line);
                }
            }
            let w = window_of(ls, top_spec, (lo as int, hi as int));
            assert(out@ =~= w);
        }
        out
    }
}

/// The rows `rows` cut to a screen `h` rows high.
pub open spec fn row_window(rows: core::ops::Range<u16>, h: int) -> (int, int) {
    (
        if rows.start < h - 1 { rows.start as int } else { h - 1 },
        if rows.end < h { rows.end as int } else { h },
    )
}

/// The lines whose rows, counted from `top`, fall in the window `lo..hi`, in
/// order, each on its row.
#[verifier::opaque]
pub open spec fn window_of(ls: Seq<VirtualLine>, top: int, window: (int, int)) -> Seq<ScreenLine> {
    let a = first_at(ls, top + window.0);
    let b = first_at(ls, top + window.1);
    Seq::new(
        if b > a { (b - a) as nat } else { 0 },
        |k: int| ScreenLine { line: ls[a + k], row: (ls[a + k].line - top) as u16 },
    )
}

/// What drawing the screen lines `sls` prints: each line's text and, where it
/// has a separator, the separator's glyph.
pub open spec fn drawn(t: Seq<char>, sls: Seq<ScreenLine>) -> Seq<char>
    decreases sls.len(),
{
    if sls.len() == 0 {
        Seq::empty()
    } else {
        let l = sls.last().line;
        drawn(t, sls.drop_last()) + t.subrange(l.start.chars as int, l.end.chars as int) + (if l.separator_len.chars
            > 0 {
            glyph(l.linebreak)
        } else {
            Seq::empty()
        })
    }
}

/// The rows uncovered by scrolling a screen `h` rows high by `n` rows: at the
/// bottom when scrolling up, at the top when scrolling down.
pub open spec fn exposed_window(n: int, forward: bool, h: int) -> (int, int) {
    if forward {
        let lo = if h > n { h - n } else { 0 };
        (if lo < h - 1 { lo } else { h - 1 }, h)
    } else {
        (0, if n < h { n } else { h })
    }
}

/// What some operations print begins with what a prefix of them prints.
pub proof fn lemma_printed_prefix(mid: Seq<TermOp>, after: Seq<TermOp>)
    requires
        mid.len() <= after.len(),
        after.take(mid.len() as int) == mid,
    ensures
        printed(mid).is_prefix_of(printed(after)),
    decreases after.len(),
{
    if after.len() == mid.len() {
        assert(after =~= mid);
    } else {
        let d = after.drop_last();
        assert(d.take(mid.len() as int) =~= after.take(mid.len() as int));
        lemma_printed_prefix(mid, d);
        lemma_printed_push(d, after.last());
        assert(d.push(after.last()) =~= after);
    }
}

/// The errors that a frame redraws: after a keystroke that moved the cursor
/// on, the newest error if it lies at or after where the cursor was; else the
/// errors that the last deletion removed.
pub open spec fn overlay_errors(tv: TrackerView) -> Seq<Len> {
    if tv.cursor.chars > tv.prev.chars {
        if tv.errors.len() > 0 && tv.errors.last().bytes >= tv.prev.bytes {
            seq![tv.errors.last()]
        } else {
            Seq::empty()
        }
    } else {
        tv.deleted
    }
}

/// The redrawn errors are in error style unless the last keystroke moved the
/// cursor back.
pub open spec fn overlay_as_error(tv: TrackerView) -> bool {
    tv.cursor.chars >= tv.prev.chars
}

/// The rows, cut to a screen `h` rows high, where the overlay looks for
/// errors: the anchor row and the `n` rows above it after a forward scroll,
/// else the anchor row and the `n` rows below it.
pub open spec fn overlay_window(anchor: int, n: int, forward: bool, h: int) -> (int, int) {
    let (lo, hi) = if forward {
        (if anchor > n { anchor - n } else { 0 }, if anchor < 65535 { anchor + 1 } else { 65535 })
    } else {
        (anchor, if anchor + n + 1 > 65535 { 65535 } else { anchor + n + 1 })
    };
    (if lo < h - 1 { lo } else { h - 1 }, if hi < h { hi } else { h })
}

/// `ops`, from a frame's first operation on, hides the cursor, scrolls and
/// draws the uncovered rows as `lines_drawn` says, redraws the errors as
/// `overlay_drawn` says, then ends with two more operations.
#[verifier::opaque]
pub open spec fn frame_drawn(v: DisplayView, ops: Seq<OpView>) -> bool {
    let n = abs(v.line_diff());
    let fwd = v.cursor_line() > v.previous_line;
    let h = v.dimensions.screen_size.1 as int;
    let first = if n > 0 { 2int } else { 1int };
    exists|m: int|
        first <= m <= ops.len() - 2 && (n > 0 ==> lines_drawn(
            v,
            window_of(v.lines, v.top_line(), exposed_window(n, fwd, h)),
            ops.subrange(2, m),
        )) && overlay_drawn(
            v,
            window_of(v.lines, v.top_line(), overlay_window(v.dimensions.anchor.1 as int, n, fwd, h)),
            overlay_errors(v.tracker),
            overlay_as_error(v.tracker),
            0,
            0,
            #[trigger] ops.subrange(m, ops.len() - 2),
        )
}

/// The lines before `a` have row numbers below `x`, the others do not.
pub open spec fn rows_split(ls: Seq<VirtualLine>, x: int, a: int) -> bool {
    &&& 0 <= a <= ls.len()
    &&& forall|k: int| 0 <= k < a ==> (#[trigger] ls[k]).line < x
    &&& forall|k: int| a <= k < ls.len() ==> (#[trigger] ls[k]).line >= x
}

/// Index of the first line whose row number is at least `x`.
pub open spec fn first_at(ls: Seq<VirtualLine>, x: int) -> int {
    choose|a: int| #[trigger] rows_split(ls, x, a)
}

proof fn lemma_first_at_unique(ls: Seq<VirtualLine>, x: int, a: int)
    requires
        rows_split(ls, x, a),
    ensures
        first_at(ls, x) == a,
{
    let b = first_at(ls, x);
    assert(rows_split(ls, x, b));
    if b < a {
        assert(ls[b].line >= x);
    } else if b > a {
        assert(ls[a].line >= x);
    }
}

proof fn lemma_first_at_exists(ls: Seq<VirtualLine>, t: Seq<char>, x: int)
    requires
        lines_wf(ls, t),
    ensures
        rows_split(ls, x, first_at(ls, x)),
{
    lemma_split_below(ls, t, x, ls.len() as int);
}

proof fn lemma_split_below(ls: Seq<VirtualLine>, t: Seq<char>, x: int, k: int)
    requires
        lines_wf(ls, t),
        0 <= k <= ls.len(),
        forall|j: int| k <= j < ls.len() ==> (#[trigger] ls[j]).line >= x,
    ensures
        rows_split(ls, x, first_at(ls, x)),
    decreases k,
{
    if k == 0 {
        assert(rows_split(ls, x, 0));
    } else if ls[k - 1].line >= x {
        lemma_split_below(ls, t, x, k - 1);
    } else {
        assert forall|j: int| 0 <= j < k implies (#[trigger] ls[j]).line < x by {
            if j < k - 1 {
                assert(ls[j].line <= ls[k - 1].line);
            }
        }
        assert(rows_split(ls, x, k));
    }
}

impl DisplayView {
    /// The row number of the line shown on the top row of the screen.
    pub open spec fn top_line(self) -> int {
        self.lines[self.cursor_line()].line - self.dimensions.anchor.1
    }
}

/// Index of the first line whose row number is at least `at`.
fn first_line_at(lines: &Vec<VirtualLine>, at: i128, text: Ghost<Seq<char>>) -> (r: usize)
    requires
        lines_wf(lines@, text@),
    ensures
        r <= lines@.len(),
        forall|k: int| 0 <= k < r ==> (#[trigger] lines@[k]).line < at,
        forall|k: int| r <= k < lines@.len() ==> (#[trigger] lines@[k]).line >= at,
{
    let mut lo: usize = 0;
    let mut hi: usize = lines.len();
    while lo < hi
        invariant
            0 <= lo <= hi <= lines@.len(),
            lines_wf(lines@, text@),
            forall|k: int| 0 <= k < lo ==> (#[trigger] lines@[k]).line < at,
            forall|k: int| hi <= k < lines@.len() ==> (#[trigger] lines@[k]).line >= at,
        decreases hi - lo,
    {
        let mid = lo + (hi - lo) / 2;
        if (lines[mid].line as i128) < at {
            proof {
                assert forall|k: int| 0 <= k < mid + 1 implies (#[trigger] lines@[k]).line < at by {
                    if k < mid {
                        assert(lines@[k].line <= lines@[mid as int].line);
                    }
                }
            }
            lo = mid + 1;
        } else {
            proof {
                assert forall|k: int| mid <= k < lines@.len() implies (#[trigger] lines@[k]).line >= at by {
                    if k > mid {
                        assert(lines@[mid as int].line <= lines@[k].line);
                    }
                }
            }
            hi = mid;
        }
    }
    lo
}

/// The screen column `x` cells right of the text column's left edge.
pub open spec fn column_at(d: Dimensions, x: int) -> int {
    if d.anchor.0 + x > 65535 {
        65535
    } else {
        d.anchor.0 + x
    }
}

pub open spec fn abs(i: int) -> int {
    if i < 0 {
        -i
    } else {
        i
    }
}

/// What the chapter view does with a key: it types a character, a line break
/// for Enter, deletes a character or a word, or does nothing.
pub open spec fn key_effect(v: TrackerView, key: Key) -> TrackerView {
    match key {
        Key::Char(c) => v.push(c),
        Key::Enter => v.push('\n'),
        Key::Backspace => v.pop(),
        Key::DeleteWord => v.delete_word(),
        _ => v,
    }
}

impl ChapterDisplay {
    /// Draws the part `start..end` of a screen line, counted from the line's
    /// start: the text, with attributes switched where its style changes, then
    /// the separator's glyph if `end` reaches past the text, then a reset of
    /// the attributes.
    #[verifier::spinoff_prover]
    #[verifier::rlimit(60)]
    pub fn render_range_in_line(&self, out: &mut Vec<TermOp>, line: &ScreenLine, start: Len, end: Len)
        requires
            self.wf(),
            line_in_text(line.line, self@.tracker.text),
            rel_pos(self@.tracker.text, line.line.start, start),
            rel_pos(self@.tracker.text, line.line.start, end),
            start.chars <= end.chars,
        ensures
            ({
                let o = old(out)@.len();
                let t = self@.tracker.text;
                let len = line.line.end.chars - line.line.start.chars;
                let slice_end = if end.chars < len { end.chars as int } else { len };
                let s = if start.chars <= slice_end { start.chars as int } else { slice_end };
                &&& final(out)@.len() >= o + 2
                &&& final(out)@.take(o as int) == old(out)@
                &&& final(out)@[o as int] == TermOp::MoveTo(column_at(self@.dimensions, s) as u16, line.row)
                &&& final(out)@.last() == TermOp::SetAttr(Attr::Reset)
                &&& printed(final(out)@) == printed(old(out)@) + t.subrange(
                    line.line.start.chars + s,
                    line.line.start.chars + slice_end,
                ) + (if end.chars > len { glyph(line.line.linebreak) } else { Seq::empty() })
                &&& no_shift_from(final(out)@, o as int)
            }),
            range_drawn(self@, *line, start, end, ops_view(final(out)@.skip(old(out)@.len() as int))),
    {
        let ghost t = self@.tracker.text;
        let ghost o = out@.len();
        let ghost printed_before = printed(out@);
        proof {
            self.backend.lemma_view_wf();
            lemma_byte_offset_mono(t, 0, t.len() as int);
            assert(t.take(t.len() as int) =~= t);
            lemma_byte_offset_mono(t, line.line.start.chars as int, t.len() as int);
            lemma_byte_offset_mono(t, (line.line.start.chars + end.chars) as int, t.len() as int);
            lemma_byte_offset_mono(t, (line.line.start.chars + start.chars) as int, t.len() as int);
            let e_abs = Len::at(t, line.line.start.chars + end.chars);
            crate::backend::lemma_positions_coherent(t, e_abs, line.line.end);
            let s_abs = Len::at(t, line.line.start.chars + start.chars);
            crate::backend::lemma_positions_coherent(t, s_abs, line.line.end);
        }
        proof {
            lemma_positions_ordered(t, line.line.start, line.line.end);
        }
        let len = line.len();
        let slice_end = if end.bytes < len.bytes {
            end
        } else {
            len
        };
        let s = if start.bytes <= slice_end.bytes {
            start
        } else {
            slice_end
        };
        proof {
            crate::backend::lemma_positions_coherent(t, Len::at(t, line.line.start.chars + start.chars), Len::at(t, line.line.start.chars + slice_end.chars));
        }
        let first = TermOp::MoveTo(self.column(s.chars), line.row);
        let ghost first_op = first;
        out.push(first);
        let a = line.line.start.add(s);
        let b = line.line.start.add(slice_end);
        proof {
            lemma_printed_push(old(out)@, first_op);
            assert(printed_before + Seq::<char>::empty() =~= printed_before);
            assert(t.subrange(a.chars as int, a.chars as int) =~= Seq::<char>::empty());
            assert(out@.take(o as int) =~= old(out)@);
        }
        let ghost moved = out@;
        proof {
            assert(ops_view(moved.skip(o as int)) =~= seq![op_view(first_op)]);
        }
        let pieces = self.print_styled(out, a, b, Ghost(o as int));
        let ghost styled = out@;
        proof {
            lemma_view_skip_split(styled, moved, o as int);
        }
        if end.bytes > slice_end.bytes {
            push_glyph(out, line.line.linebreak, Ghost(o as int));
        } else {
            proof {
                assert(printed(out@) + Seq::<char>::empty() =~= printed(out@));
                assert(out@.take(styled.len() as int) =~= styled);
                assert(ops_view(out@.skip(styled.len() as int)) =~= Seq::<OpView>::empty());
            }
        }
        let ghost glyphed = out@;
        proof {
            lemma_view_skip_split(glyphed, styled, o as int);
        }
        push_op(out, TermOp::SetAttr(Attr::Reset), Ghost(o as int), Ghost(o as int));
        proof {
            lemma_view_skip_push(glyphed, o as int, TermOp::SetAttr(Attr::Reset));
            reveal(range_drawn);
            assert(a == Len::at(t, a.chars as int));
            assert(b == Len::at(t, b.chars as int));
            let len = line.line.end.chars - line.line.start.chars;
            let se = cut_end(*line, end);
            let sp = cut_start(*line, start, end);
            let ai = line.line.start.chars + sp;
            let bi = line.line.start.chars + se;
            assert(ai == a.chars && bi == b.chars && sp == s.chars);
            let expect = seq![OpView::MoveTo(column_at(self@.dimensions, sp) as u16, line.row)] + styled_ops(
                t,
                ai,
                pieces@,
            ) + (if end.chars > len { glyph_ops(line.line.linebreak) } else { Seq::empty() }) + seq![
                OpView::SetAttr(Attr::Reset),
            ];
            assert(ops_view(out@.skip(o as int)) =~= expect);
            assert(tiles(self@.tracker.styles, Len::at(t, ai), Len::at(t, bi), pieces@));
        }
    }

}

impl ChapterDisplay {
    /// Prints the text from `a` to `b`, switching the italic and bold
    /// attributes where the style changes.
    fn print_styled(&self, out: &mut Vec<TermOp>, a: Len, b: Len, from: Ghost<int>) -> (pieces: Ghost<
        Seq<(Style, Len)>,
    >)
        requires
            self.backend.wf(),
            a.is_pos_in(self@.tracker.text),
            b.is_pos_in(self@.tracker.text),
            a.chars <= b.chars,
            0 <= from@ < old(out)@.len(),
            no_shift_from(old(out)@, from@),
        ensures
            final(out)@.len() >= old(out)@.len(),
            final(out)@.take(old(out)@.len() as int) == old(out)@,
            printed(final(out)@) == printed(old(out)@) + self@.tracker.text.subrange(a.chars as int, b.chars as int),
            no_shift_from(final(out)@, from@),
            tiles(self@.tracker.styles, a, b, pieces@),
            ops_view(final(out)@.skip(old(out)@.len() as int)) == styled_ops(self@.tracker.text, a.chars as int, pieces@),
    {
        let ghost t = self@.tracker.text;
        let ghost o = from@;
        let ghost printed_before = printed(out@);
        let ghost out0 = out@;
        let ghost l0 = out0.len() as int;
        proof {
            self.backend.lemma_view_wf();
            assert(printed_before + t.subrange(a.chars as int, a.chars as int) =~= printed_before);
            assert(out@.take(out0.len() as int) =~= out0);
            assert(ops_view(out@.skip(l0)) =~= Seq::<OpView>::empty());
        }
        let pieces = self.backend.style_iter(a, b);
        let mut cur_style = Style::empty();
        let mut p = a.chars;
        let mut k: usize = 0;
        proof {
            assert(pieces@.take(0) =~= Seq::<(Style, Len)>::empty());
        }
        while k < pieces.len()
            invariant
                t == self@.tracker.text,
                a.chars <= p <= b.chars <= t.len(),
                k <= pieces@.len(),
                p == a.chars + sum_chars(pieces@.take(k as int)),
                sum_chars(pieces@) == b.chars - a.chars,
                0 <= o < out0.len() <= out@.len(),
                l0 == out0.len(),
                out@.take(out0.len() as int) == out0,
                printed(out@) == printed_before + t.subrange(a.chars as int, p as int),
                no_shift_from(out@, o),
                cur_style == (if k == 0 { no_style() } else { pieces@[k - 1].0 }),
                ops_view(out@.skip(l0)) == styled_ops(t, a.chars as int, pieces@.take(k as int)),
            decreases pieces@.len() - k,
        {
            let (style, plen) = pieces[k];
            proof {
                lemma_sum_chars_prefix(pieces@, k as int);
            }
            let ghost before_switch = out@;
            emit_switch(out, cur_style, style, Ghost(o));
            let to = p + plen.chars;
            let piece_text = self.text_range(p, to);
            let ghost before = out@;
            out.push(TermOp::Print(piece_text));
            proof {
                lemma_printed_push(before, TermOp::Print(piece_text));
                assert(t.subrange(a.chars as int, p as int) + t.subrange(p as int, to as int) =~= t.subrange(
                    a.chars as int,
                    to as int,
                ));
                lemma_take_take(before, before_switch.len() as int, l0);
                assert(before.take(l0) == out0);
                lemma_take_take(out@, before.len() as int, l0);
                assert(out@.take(before.len() as int) =~= before);
                assert forall|j: int| o <= j < out@.len() implies !is_shift(#[trigger] out@[j]) by {
                    if j < before.len() {
                        assert(out@[j] == before[j]);
                    }
                }
                lemma_view_skip_split(before, before_switch, l0);
                lemma_view_skip_push(before, l0, TermOp::Print(piece_text));
                let tk1 = pieces@.take(k + 1);
                assert(tk1.drop_last() =~= pieces@.take(k as int));
                assert(tk1[k as int] == pieces@[k as int]);
                if k > 0 {
                    assert(tk1[k - 1] == pieces@[k - 1]);
                }
                assert(ops_view(out@.skip(l0)) =~= styled_ops(t, a.chars as int, tk1));
            }
            p = to;
            cur_style = style;
            k = k + 1;
        }
        proof {
            assert(pieces@.take(pieces@.len() as int) =~= pieces@);
        }
        Ghost(pieces@)
    }
}

/// Appends the attribute changes from style `prev` to style `next`.
fn emit_switch(out: &mut Vec<TermOp>, prev: Style, next: Style, from: Ghost<int>)
    requires
        0 <= from@ < old(out)@.len(),
        no_shift_from(old(out)@, from@),
    ensures
        final(out)@.len() >= old(out)@.len(),
        final(out)@.take(old(out)@.len() as int) == old(out)@,
        ops_view(final(out)@.skip(old(out)@.len() as int)) == switch_ops(prev, next),
        printed(final(out)@) == printed(old(out)@),
        no_shift_from(final(out)@, from@),
{
    let ghost o = out@.len() as int;
    let ghost out0 = out@;
    let off = prev.difference(next);
    let on = next.difference(prev);
    proof {
        assert(out@.take(o) =~= out0);
        assert(ops_view(out@.skip(o)) =~= Seq::<OpView>::empty());
    }
    let ghost v1 = if off.bits & 1 == 1 { seq![OpView::SetAttr(Attr::NoItalic)] } else { Seq::<OpView>::empty() };
    if off.contains(Style::italic()) {
        let ghost before = out@;
        push_op(out, TermOp::SetAttr(Attr::NoItalic), from, Ghost(o));
        proof {
            lemma_view_skip_push(before, o, TermOp::SetAttr(Attr::NoItalic));
        }
    }
    proof {
        assert(ops_view(out@.skip(o)) =~= v1);
    }
    let ghost v2 = v1 + if off.bits & 2 == 2 { seq![OpView::SetAttr(Attr::NormalIntensity)] } else { Seq::<OpView>::empty() };
    if off.contains(Style::bold()) {
        let ghost before = out@;
        push_op(out, TermOp::SetAttr(Attr::NormalIntensity), from, Ghost(o));
        proof {
            lemma_view_skip_push(before, o, TermOp::SetAttr(Attr::NormalIntensity));
        }
    }
    proof {
        assert(ops_view(out@.skip(o)) =~= v2);
    }
    let ghost v3 = v2 + if on.bits & 1 == 1 { seq![OpView::SetAttr(Attr::Italic)] } else { Seq::<OpView>::empty() };
    if on.contains(Style::italic()) {
        let ghost before = out@;
        push_op(out, TermOp::SetAttr(Attr::Italic), from, Ghost(o));
        proof {
            lemma_view_skip_push(before, o, TermOp::SetAttr(Attr::Italic));
        }
    }
    proof {
        assert(ops_view(out@.skip(o)) =~= v3);
    }
    let ghost v4 = v3 + if on.bits & 2 == 2 { seq![OpView::SetAttr(Attr::Bold)] } else { Seq::<OpView>::empty() };
    if on.contains(Style::bold()) {
        let ghost before = out@;
        push_op(out, TermOp::SetAttr(Attr::Bold), from, Ghost(o));
        proof {
            lemma_view_skip_push(before, o, TermOp::SetAttr(Attr::Bold));
        }
    }
    proof {
        assert(ops_view(out@.skip(o)) =~= v4);
        assert(v4 =~= switch_ops(prev, next));
    }
}

/// Prints the glyph of a separator of kind `kind`.
fn push_glyph(out: &mut Vec<TermOp>, kind: Linebreak, from: Ghost<int>)
    requires
        0 <= from@ < old(out)@.len(),
        no_shift_from(old(out)@, from@),
    ensures
        final(out)@.len() >= old(out)@.len(),
        final(out)@.take(old(out)@.len() as int) == old(out)@,
        printed(final(out)@) == printed(old(out)@) + glyph(kind),
        no_shift_from(final(out)@, from@),
        ops_view(final(out)@.skip(old(out)@.len() as int)) == glyph_ops(kind),
{
    let ghost before = out@;
    proof {
        assert(ops_view(before.skip(before.len() as int)) =~= Seq::<OpView>::empty());
    }
    let g = match kind {
        Linebreak::Existing => vec!['\u{AC}'],
        Linebreak::Wrapped => vec![' '],
        Linebreak::Eof => Vec::new(),
    };
    proof {
        assert(g@ =~= glyph(kind));
    }
    if g.len() > 0 {
        out.push(TermOp::Print(g));
        proof {
            lemma_printed_push(before, TermOp::Print(g));
            lemma_view_skip_push(before, before.len() as int, TermOp::Print(g));
            assert(ops_view(out@.skip(before.len() as int)) =~= glyph_ops(kind));
            assert(out@.take(before.len() as int) =~= before);
            assert forall|j: int| from@ <= j < out@.len() implies !is_shift(#[trigger] out@[j]) by {
                if j < before.len() {
                    assert(out@[j] == before[j]);
                }
            }
        }
    } else {
        proof {
            assert(printed(out@) + glyph(kind) =~= printed(out@));
            assert(ops_view(out@.skip(before.len() as int)) =~= glyph_ops(kind));
            assert(out@.take(before.len() as int) =~= before);
        }
    }
}

/// Appends an operation that prints nothing and does not scroll.
fn push_op(out: &mut Vec<TermOp>, op: TermOp, from: Ghost<int>, keep: Ghost<int>)
    requires
        !(op is Print),
        !is_shift(op),
        0 <= from@ < old(out)@.len(),
        0 <= keep@ <= old(out)@.len(),
        no_shift_from(old(out)@, from@),
    ensures
        final(out)@ == old(out)@.push(op),
        printed(final(out)@) == printed(old(out)@),
        no_shift_from(final(out)@, from@),
        final(out)@.take(keep@) == old(out)@.take(keep@),
        final(out)@[from@] == old(out)@[from@],
{
    let ghost before = out@;
    out.push(op);
    proof {
        lemma_printed_push(before, op);
        assert(printed(before) + Seq::<char>::empty() =~= printed(before));
        assert(out@.take(keep@) =~= before.take(keep@));
        assert forall|j: int| from@ <= j < out@.len() implies !is_shift(#[trigger] out@[j]) by {
            if j < before.len() {
                assert(out@[j] == before[j]);
            }
        }
    }
}

/// One incremental frame from state `v` to `w`, the operations going from
/// `before` to `after`: the tracker's per-update data is cleared and the
/// cursor's line becomes the line drawn last; the operations hide the cursor,
/// scroll by the rows between the two lines (up when the cursor went to a
/// later line) and print first the lines of the rows that the scroll
/// uncovered, draw without scrolling further, then put the cursor on the
/// anchor row and show it.
pub open spec fn frame_step(v: DisplayView, w: DisplayView, before: Seq<TermOp>, after: Seq<TermOp>) -> bool {
    let n = abs(v.line_diff());
    let o = before.len() as int;
    let y = v.cursor_line();
    &&& w == DisplayView { tracker: v.tracker.clear_per_update(), previous_line: y as nat, ..v }
    &&& after.len() >= o + 3
    &&& after.take(o) == before
    &&& after[o] == TermOp::Hide
    &&& n > 0 ==> after[o + 1] == (if y > v.previous_line {
        TermOp::ScrollUp(n as u16)
    } else {
        TermOp::ScrollDown(n as u16)
    })
    &&& no_shift_from(after, if n > 0 { o + 2 } else { o + 1 })
    &&& forall|k: int| o <= k < after.len() ==> !(after[k] is ClearAll)
    &&& frame_drawn(v, ops_view(after.skip(o)))
    &&& (printed(before) + (if n > 0 {
        drawn(v.tracker.text, window_of(v.lines, v.top_line(), exposed_window(n, y > v.previous_line, v.dimensions.screen_size.1 as int)))
    } else {
        Seq::empty()
    })).is_prefix_of(printed(after))
    &&& after[after.len() - 2] == TermOp::MoveTo(
        column_at(v.dimensions, column_in(v.lines[y as int], v.tracker.cursor.chars as int)) as u16,
        v.dimensions.anchor.1,
    )
    &&& after.last() == TermOp::Show
}

/// A full frame from state `v` to `w`: the screen is cleared, every line that
/// falls on it is drawn, without scrolling or clearing again, the cursor is
/// put on the anchor row, and the next frame may be incremental.
pub open spec fn full_frame(v: DisplayView, w: DisplayView, before: Seq<TermOp>, after: Seq<TermOp>) -> bool {
    let o = before.len() as int;
    let y = v.cursor_line();
    &&& w == DisplayView { needs_full_render: false, ..v }
    &&& after.len() >= o + 4
    &&& after.take(o) == before
    &&& after[o] == TermOp::Hide
    &&& after[o + 1] == TermOp::ClearAll
    &&& no_shift_from(after, o + 2)
    &&& printed(after) == printed(before) + drawn(
        v.tracker.text,
        window_of(v.lines, v.top_line(), (0, v.dimensions.screen_size.1 as int)),
    )
    &&& lines_drawn(
        v,
        window_of(v.lines, v.top_line(), (0, v.dimensions.screen_size.1 as int)),
        ops_view(after.subrange(o + 2, after.len() - 2)),
    )
    &&& after[after.len() - 2] == TermOp::MoveTo(
        column_at(v.dimensions, column_in(v.lines[y as int], v.tracker.cursor.chars as int)) as u16,
        v.dimensions.anchor.1,
    )
    &&& after.last() == TermOp::Show
}

impl ChapterDisplay {
    /// Draws a whole screen line: its text and its separator's glyph.
    pub fn render_line(&self, out: &mut Vec<TermOp>, line: &ScreenLine)
        requires
            self.wf(),
            line_in_text(line.line, self@.tracker.text),
        ensures
            final(out)@.len() >= old(out)@.len() + 2,
            final(out)@.take(old(out)@.len() as int) == old(out)@,
            printed(final(out)@) == printed(old(out)@) + self@.tracker.text.subrange(
                line.line.start.chars as int,
                line.line.end.chars as int,
            ) + (if line.line.separator_len.chars > 0 { glyph(line.line.linebreak) } else { Seq::empty() }),
            no_shift_from(final(out)@, old(out)@.len() as int),
            line_drawn(self@, *line, ops_view(final(out)@.skip(old(out)@.len() as int))),
    {
        proof {
            let t = self@.tracker.text;
            self.backend.lemma_view_wf();
            lemma_byte_offset_mono(t, 0, t.len() as int);
            lemma_byte_offset_mono(t, (line.line.end.chars + line.line.separator_len.chars) as int, t.len() as int);
            assert(t.take(t.len() as int) =~= t);
            assert(t.take(0).len() == 0);
            lemma_positions_ordered(t, line.line.start, line.line.end);
        }
        self.render_range_in_line(out, line, Len::new(0, 0), line.len_with_break());
    }

    /// Draws `start..end` of a screen line as an error: reversed, in red.
    #[verifier::spinoff_prover]
    fn with_error(&self, out: &mut Vec<TermOp>, line: &ScreenLine, start: Len, end: Len)
        requires
            self.wf(),
            line_in_text(line.line, self@.tracker.text),
            rel_pos(self@.tracker.text, line.line.start, start),
            rel_pos(self@.tracker.text, line.line.start, end),
            start.chars <= end.chars,
        ensures
            ({
                let o = old(out)@.len() as int;
                let n = final(out)@.len() as int;
                &&& n >= o + 6
                &&& final(out)@.take(o) == old(out)@
                &&& final(out)@[o] == TermOp::SetAttr(Attr::Reverse)
                &&& final(out)@[o + 1] == TermOp::SetForeground(Color::Red)
                &&& range_drawn(self@, *line, start, end, ops_view(final(out)@.subrange(o + 2, n - 2)))
                &&& final(out)@[n - 2] == TermOp::SetForeground(Color::Reset)
                &&& final(out)@[n - 1] == TermOp::SetAttr(Attr::NoReverse)
                &&& printed(final(out)@) == printed(old(out)@) + self@.tracker.text.subrange(
                    line.line.start.chars + cut_start(*line, start, end),
                    line.line.start.chars + cut_end(*line, end),
                ) + (if end.chars > line.line.end.chars - line.line.start.chars {
                    glyph(line.line.linebreak)
                } else {
                    Seq::empty()
                })
                &&& no_shift_from(final(out)@, o)
            }),
    {
        let ghost o = out@.len() as int;
        let ghost before = out@;
        out.push(TermOp::SetAttr(Attr::Reverse));
        let ghost reversed = out@;
        proof {
            assert(out@.take(o) =~= before);
            lemma_printed_push(before, TermOp::SetAttr(Attr::Reverse));
            assert(printed(before) + Seq::<char>::empty() =~= printed(before));
        }
        push_op(out, TermOp::SetForeground(Color::Red), Ghost(o), Ghost(o));
        let ghost red = out@;
        self.render_range_in_line(out, line, start, end);
        let ghost drawn_range = out@;
        proof {
            assert(out@.take(o) =~= before);
            assert(out@[o] == red[o]);
            assert(out@[o + 1] == red[o + 1]);
        }
        push_op(out, TermOp::SetForeground(Color::Reset), Ghost(o), Ghost(o));
        push_op(out, TermOp::SetAttr(Attr::NoReverse), Ghost(o), Ghost(o));
        proof {
            let n = out@.len() as int;
            assert(out@.subrange(o + 2, n - 2) =~= drawn_range.skip(o + 2));
            assert(out@[o + 1] == drawn_range[o + 1]);
        }
    }

    /// Draws the given screen lines.
    fn render_lines(&self, out: &mut Vec<TermOp>, lines: &Vec<ScreenLine>, from: Ghost<int>)
        requires
            self.wf(),
            forall|k: int| 0 <= k < lines@.len() ==> line_in_text(#[trigger] lines@[k].line, self@.tracker.text),
            0 <= from@ <= old(out)@.len(),
            no_shift_from(old(out)@, from@),
        ensures
            final(out)@.len() >= old(out)@.len(),
            final(out)@.take(old(out)@.len() as int) == old(out)@,
            no_shift_from(final(out)@, from@),
            printed(final(out)@) == printed(old(out)@) + drawn(self@.tracker.text, lines@),
            lines_drawn(self@, lines@, ops_view(final(out)@.skip(old(out)@.len() as int))),
    {
        let ghost o = out@.len() as int;
        let ghost out0 = out@;
        let mut k: usize = 0;
        proof {
            assert(ops_view(out0.skip(o)) =~= Seq::<OpView>::empty());
            assert(lines_drawn(self@, lines@.take(0), ops_view(out0.skip(o))));
            assert(lines@.take(0).len() == 0);
            assert(printed(out0) + drawn(self@.tracker.text, lines@.take(0)) =~= printed(out0));
        }
        proof {
            assert(out@.take(o) =~= out0);
        }
        while k < lines.len()
            invariant
                self.wf(),
                forall|j: int| 0 <= j < lines@.len() ==> line_in_text(#[trigger] lines@[j].line, self@.tracker.text),
                out@.len() >= o,
                out@.take(o) == out0,
                o == out0.len(),
                0 <= from@ <= o,
                no_shift_from(out@, from@),
                k <= lines@.len(),
                printed(out@) == printed(out0) + drawn(self@.tracker.text, lines@.take(k as int)),
                lines_drawn(self@, lines@.take(k as int), ops_view(out@.skip(o))),
            decreases lines@.len() - k,
        {
            let ghost before = out@;
            self.render_line(out, &lines[k]);
            proof {
                let t = self@.tracker.text;
                assert(lines@.take(k + 1).drop_last() =~= lines@.take(k as int));
                assert(lines@.take(k + 1).last() == lines@[k as int]);
                assert(printed(out@) =~= printed(out0) + drawn(t, lines@.take(k + 1)));
                assert(out@.take(o) =~= before.take(o));
                assert forall|j: int| from@ <= j < out@.len() implies !is_shift(#[trigger] out@[j]) by {
                    if j < before.len() {
                        assert(out@[j] == before[j]);
                    }
                }
                lemma_view_skip_split(out@, before, o);
                let done = ops_view(before.skip(o));
                let all = ops_view(out@.skip(o));
                let m = done.len() as int;
                
                assert(all.take(m) =~= done);
                assert(all.skip(m) =~= ops_view(out@.skip(before.len() as int)));
                assert(lines_drawn(self@, lines@.take(k + 1).drop_last(), all.take(m)));
                assert(line_drawn(self@, lines@[k as int], ops_view(out@.skip(before.len() as int))));
                assert(line_drawn(self@, lines@.take(k + 1).last(), all.skip(m)));
                assert(0 <= m <= all.len());
                let sls = lines@.take(k + 1);
                assert(sls.len() > 0);
                assert(lines_drawn(self@, sls, all));
            }
            k = k + 1;
        }
        proof {
            assert(lines@.take(lines@.len() as int) =~= lines@);
        }
    }

    /// Redraws the characters at the error positions `errors` that fall on
    /// the rows `rows`: in error style for a new error, plainly for one that
    /// a deletion removed.
    #[verifier::rlimit(60)]
    fn render_error_overlay(
        &self,
        out: &mut Vec<TermOp>,
        errors: &[Len],
        rows: core::ops::Range<u16>,
        as_error: bool,
        from: Ghost<int>,
    )
        requires
            self.wf(),
            forall|i: int| 0 <= i < errors@.len() ==> (#[trigger] errors@[i]).is_pos_in(self@.tracker.text),
            0 <= from@ <= old(out)@.len(),
            no_shift_from(old(out)@, from@),
        ensures
            final(out)@.len() >= old(out)@.len(),
            final(out)@.take(old(out)@.len() as int) == old(out)@,
            no_shift_from(final(out)@, from@),
            overlay_drawn(
                self@,
                window_of(self@.lines, self@.top_line(), row_window(rows, self@.dimensions.screen_size.1 as int)),
                errors@,
                as_error,
                0,
                0,
                ops_view(final(out)@.skip(old(out)@.len() as int)),
            ),
    {
        let ghost o = out@.len() as int;
        let ghost out0 = out@;
        let ghost t = self@.tracker.text;
        let ghost v = self@;
        proof {
            assert(out@.take(o) =~= out0);
            self.backend.lemma_view_wf();
        }
        let screen = self.screen_lines(rows);
        let mut cur: usize = 0;
        let mut k: usize = 0;
        proof {
            assert forall|rest: Seq<OpView>| #[trigger] overlay_drawn(v, screen@, errors@, as_error, 0, 0, rest) implies overlay_drawn(
                v,
                screen@,
                errors@,
                as_error,
                0,
                0,
                ops_view(out@.skip(o)) + rest,
            ) by {
                assert(ops_view(out@.skip(o)) + rest =~= rest);
            }
        }
        while k < screen.len() && cur < errors.len()
            invariant
                self.wf(),
                t == self@.tracker.text,
                forall|i: int| 0 <= i < errors@.len() ==> (#[trigger] errors@[i]).is_pos_in(t),
                forall|q: int| 0 <= q < screen@.len() ==> line_in_text(#[trigger] screen@[q].line, t),
                out@.len() >= o,
                out@.take(o) == out0,
                o == out0.len(),
                0 <= from@ <= o,
                no_shift_from(out@, from@),
                v == self@,
                forall|rest: Seq<OpView>| #[trigger] overlay_drawn(v, screen@, errors@, as_error, k as int, cur as int, rest)
                    ==> overlay_drawn(v, screen@, errors@, as_error, 0, 0, ops_view(out@.skip(o)) + rest),
            decreases screen@.len() - k, errors@.len() - cur,
        {
            let line = screen[k];
            let err = errors[cur];
            if err.chars >= line.line.end.chars + line.line.separator_len.chars {
                proof {
                    assert forall|rest: Seq<OpView>| #[trigger] overlay_drawn(v, screen@, errors@, as_error, k + 1, cur as int, rest)
                        implies overlay_drawn(v, screen@, errors@, as_error, 0, 0, ops_view(out@.skip(o)) + rest) by {
                        assert(overlay_drawn(v, screen@, errors@, as_error, k as int, cur as int, rest));
                    }
                }
                k = k + 1;
            } else {
                let ghost before = out@;
                self.draw_error_at(out, &line, err, as_error, from);
                proof {
                    assert(out@.take(o) =~= before.take(o));
                    lemma_view_skip_split(out@, before, o);
                    let done = ops_view(before.skip(o));
                    let seg = ops_view(out@.skip(before.len() as int));
                    assert forall|rest: Seq<OpView>| #[trigger] overlay_drawn(v, screen@, errors@, as_error, k as int, cur + 1, rest)
                        implies overlay_drawn(v, screen@, errors@, as_error, 0, 0, ops_view(out@.skip(o)) + rest) by {
                        let both = seg + rest;
                        assert(both.take(seg.len() as int) =~= seg);
                        assert(both.skip(seg.len() as int) =~= rest);
                        assert(overlay_drawn(v, screen@, errors@, as_error, k as int, cur as int, both));
                        assert(done + both =~= ops_view(out@.skip(o)) + rest);
                    }
                }
                cur = cur + 1;
            }
        }
        proof {
            assert(overlay_drawn(v, screen@, errors@, as_error, k as int, cur as int, Seq::<OpView>::empty()));
            assert(ops_view(out@.skip(o)) + Seq::<OpView>::empty() =~= ops_view(out@.skip(o)));
        }
    }

    /// Redraws the character at `err` on `line`, if it lies on that line.
    #[verifier::spinoff_prover]
    #[verifier::rlimit(60)]
    fn draw_error_at(&self, out: &mut Vec<TermOp>, line: &ScreenLine, err: Len, as_error: bool, from: Ghost<int>)
        requires
            self.wf(),
            line_in_text(line.line, self@.tracker.text),
            err.is_pos_in(self@.tracker.text),
            0 <= from@ <= old(out)@.len(),
            no_shift_from(old(out)@, from@),
        ensures
            final(out)@.len() >= old(out)@.len(),
            final(out)@.take(old(out)@.len() as int) == old(out)@,
            no_shift_from(final(out)@, from@),
            error_drawn_at(self@, *line, err, as_error, ops_view(final(out)@.skip(old(out)@.len() as int))),
    {
        let ghost t = self@.tracker.text;
        let ghost before = out@;
        let ghost o = before.len() as int;
        proof {
            self.backend.lemma_view_wf();
        }
        let chars = self.backend.chars();
        if err.chars >= line.line.start.chars && err.chars < chars.len() {
            proof {
                lemma_positions_ordered(t, line.line.start, err);
                crate::position::lemma_byte_offset_step(t, err.chars as int);
                lemma_byte_offset_mono(t, err.chars + 1, t.len() as int);
                lemma_byte_offset_mono(t, 0, t.len() as int);
                assert(t.take(t.len() as int) =~= t);
            }
            let x = err.sub(line.line.start);
            let w = utf8_width(chars[err.chars]);
            let x_end = Len::new(x.bytes + w, x.chars + 1);
            if as_error {
                self.with_error(out, line, x, x_end);
                proof {
                    let n = out@.len() as int;
                    let vv = ops_view(out@.skip(o));
                    assert(vv.subrange(2, vv.len() - 2) =~= ops_view(out@.subrange(o + 2, n - 2)));
                    assert(vv[0] == op_view(out@[o]));
                    assert(vv[1] == op_view(out@[o + 1]));
                    assert(vv[vv.len() - 2] == op_view(out@[n - 2]));
                    assert(vv[vv.len() - 1] == op_view(out@[n - 1]));
                }
            } else {
                self.render_range_in_line(out, line, x, x_end);
            }
            proof {
                assert forall|j: int| from@ <= j < out@.len() implies !is_shift(#[trigger] out@[j]) by {
                    if j < before.len() {
                        assert(out@.take(before.len() as int)[j] == before[j]);
                    }
                }
            }
        } else {
            proof {
                assert(out@.take(before.len() as int) =~= before);
                assert(ops_view(out@.skip(o)) =~= Seq::<OpView>::empty());
            }
        }
    }
}

impl ChapterDisplay {
    /// Draws the frame after a keystroke. Answers `true`, drawing nothing,
    /// when the frame must be drawn in full instead: when that was asked for,
    /// or when more rows would scroll than one scroll can take.
    #[verifier::spinoff_prover]
    #[verifier::rlimit(100)]
    pub fn render_chapter(&mut self, out: &mut Vec<TermOp>) -> (full: bool)
        requires
            old(self).wf(),
        ensures
            final(self).wf(),
            full == (old(self)@.needs_full_render || abs(old(self)@.line_diff()) > 65535),
            full ==> final(self)@ == old(self)@ && final(out)@ == old(out)@,
            !full ==> frame_step(old(self)@, final(self)@, old(out)@, final(out)@),
    {
        if self.needs_full_render {
            return true;
        }
        proof {
            self.backend.lemma_view_wf();
        }
        let ghost v = self@;
        let ghost o = out@.len() as int;
        let ghost out0 = out@;
        let (x, y) = self.to_virtual(self.backend.cursor().chars);
        let diff = self.line_difference(y);
        let mag: i128 = if diff < 0 {
            -diff
        } else {
            diff
        };
        if mag > 65535 {
            return true;
        }
        let n = mag as u16;
        let h = self.dimensions.screen_size.1;
        out.push(TermOp::Hide);
        proof {
            assert(out@.take(o) =~= out0);
        }
        let forward = y > self.previous_line;
        let ghost hidden = out@;
        proof {
            lemma_printed_push(out0, TermOp::Hide);
            assert(out0.push(TermOp::Hide) =~= hidden);
            assert(printed(out0) + Seq::<char>::empty() =~= printed(out0));
        }
        if n > 0 {
            self.scroll_and_draw(out, n, forward);
            proof {
                assert(out@.take(o + 1) == hidden);
                assert(out@[o] == hidden[o]);
                assert(out@.take(o) =~= out0);
            }
        }
        let ghost scrolled = out@;
        proof {
            if n == 0 {
                assert(printed(out0) + Seq::<char>::empty() =~= printed(scrolled));
            }
        }
        let ghost from = if n > 0 { o + 2 } else { o + 1 };
        let anchor_row = self.dimensions.anchor.1;
        let ghost before = out@;
        self.draw_overlay(out, n, forward, Ghost(from));
        proof {
            assert(out@.take(o) =~= before.take(o));
            assert(out@[o] == before[o]);
            if n > 0 {
                assert(out@[o + 1] == before[o + 1]);
            }
        }
        let col = self.column(x as usize);
        let ghost before = out@;
        out.push(TermOp::MoveTo(col, anchor_row));
        out.push(TermOp::Show);
        proof {
            assert(out@.take(o) =~= before.take(o));
            assert(out@[o] == before[o]);
            if n > 0 {
                assert(out@[o + 1] == before[o + 1]);
            }
            assert forall|j: int| from <= j < out@.len() implies !is_shift(#[trigger] out@[j]) by {
                if j < before.len() {
                    assert(out@[j] == before[j]);
                }
            }
            assert(out@.take(scrolled.len() as int) =~= scrolled) by {
                assert(before.take(scrolled.len() as int) == scrolled);
                assert(out@.take(before.len() as int) =~= before);
            }
            lemma_printed_prefix(scrolled, out@);
            let vv = ops_view(out@.skip(o));
            let m = scrolled.len() - o;
            assert(out@.take(before.len() as int) =~= before);
            assert(vv.subrange(m, vv.len() - 2) =~= ops_view(before.skip(scrolled.len() as int)));
            if n > 0 {
                assert(vv.subrange(2, m) =~= ops_view(scrolled.skip(o + 2)));
            }
            reveal(frame_drawn);
            assert(vv.len() == out@.len() - o);
            assert(frame_drawn(v, vv));
        }
        self.previous_line = y;
        self.backend.clear_per_update_data();
        proof {
            assert(self@ == DisplayView { tracker: v.tracker.clear_per_update(), previous_line: y as nat, ..v });
        }
        false
    }

    /// The error overlay of a frame after a scroll of `n` rows, up when
    /// `forward`: after a keystroke that moved the cursor on, the newest error
    /// if that keystroke recorded it, in error style; otherwise the errors that
    /// the last deletion removed, plainly.
    #[verifier::spinoff_prover]
    fn draw_overlay(&self, out: &mut Vec<TermOp>, n: u16, forward: bool, from: Ghost<int>)
        requires
            self.wf(),
            0 <= from@ <= old(out)@.len(),
            no_shift_from(old(out)@, from@),
        ensures
            final(out)@.len() >= old(out)@.len(),
            final(out)@.take(old(out)@.len() as int) == old(out)@,
            no_shift_from(final(out)@, from@),
            overlay_drawn(
                self@,
                window_of(
                    self@.lines,
                    self@.top_line(),
                    overlay_window(self@.dimensions.anchor.1 as int, n as int, forward, self@.dimensions.screen_size.1 as int),
                ),
                overlay_errors(self@.tracker),
                overlay_as_error(self@.tracker),
                0,
                0,
                ops_view(final(out)@.skip(old(out)@.len() as int)),
            ),
    {
        proof {
            self.backend.lemma_view_wf();
        }
        let ghost o = out@.len() as int;
        let anchor_row = self.dimensions.anchor.1;
        let rows = if forward {
            (if anchor_row > n { anchor_row - n } else { 0 })..(if anchor_row < 65535 { anchor_row + 1 } else { 65535 })
        } else {
            let below = anchor_row as u32 + n as u32 + 1;
            anchor_row..(if below > 65535 { 65535 } else { below as u16 })
        };
        proof {
            assert(row_window(rows, self@.dimensions.screen_size.1 as int) == overlay_window(
                anchor_row as int,
                n as int,
                forward,
                self@.dimensions.screen_size.1 as int,
            ));
        }
        let cursor_pos = self.backend.cursor();
        let last_pos = self.backend.last_cursor_position();
        if cursor_pos.chars > last_pos.chars {
            let errors = self.backend.errors();
            let ne = errors.len();
            if ne > 0 && errors[ne - 1].bytes >= last_pos.bytes {
                let newest = vec![errors[ne - 1]];
                proof {
                    assert(newest@ =~= overlay_errors(self@.tracker));
                }
                self.render_error_overlay(out, newest.as_slice(), rows, true, from);
            } else {
                proof {
                    assert(out@.take(o) =~= out@);
                    assert(ops_view(out@.skip(o)) =~= Seq::<OpView>::empty());
                    assert(overlay_errors(self@.tracker).len() == 0);
                }
            }
        } else {
            let deleted = self.backend.backspaced_errors();
            self.render_error_overlay(out, deleted, rows, cursor_pos.chars >= last_pos.chars, from);
        }
    }

    /// Scrolls the screen by `n` rows, up when `forward`, and draws the rows
    /// that the scroll uncovered.
    #[verifier::spinoff_prover]
    #[verifier::rlimit(60)]
    fn scroll_and_draw(&self, out: &mut Vec<TermOp>, n: u16, forward: bool)
        requires
            self.wf(),
            old(out)@.len() > 0,
        ensures
            final(out)@.len() >= old(out)@.len() + 1,
            final(out)@.take(old(out)@.len() as int) == old(out)@,
            final(out)@[old(out)@.len() as int] == (if forward { TermOp::ScrollUp(n) } else { TermOp::ScrollDown(n) }),
            no_shift_from(final(out)@, old(out)@.len() + 1int),
            printed(final(out)@) == printed(old(out)@) + drawn(
                self@.tracker.text,
                window_of(self@.lines, self@.top_line(), exposed_window(n as int, forward, self@.dimensions.screen_size.1 as int)),
            ),
            lines_drawn(
                self@,
                window_of(self@.lines, self@.top_line(), exposed_window(n as int, forward, self@.dimensions.screen_size.1 as int)),
                ops_view(final(out)@.skip(old(out)@.len() + 1int)),
            ),
    {
        let ghost o = out@.len() as int;
        let ghost out0 = out@;
        let h = self.dimensions.screen_size.1;
        let rows = if forward {
            out.push(TermOp::ScrollUp(n));
            (if h > n { h - n } else { 0 })..h
        } else {
            out.push(TermOp::ScrollDown(n));
            0..n
        };
        proof {
            assert(out@.take(o) =~= out0);
            lemma_printed_push(out0, out@.last());
            assert(out0.push(out@.last()) =~= out@);
            assert(printed(out0) + Seq::<char>::empty() =~= printed(out0));
            assert(row_window(rows, h as int) == exposed_window(n as int, forward, h as int));
        }
        let screen = self.screen_lines(rows);
        let ghost before = out@;
        self.render_lines(out, &screen, Ghost(o + 1));
        proof {
            assert(out@.take(o) =~= before.take(o));
            assert(out@[o] == before[o]);
        }
    }

    /// Clears the screen and draws every line that falls on it.
    #[verifier::spinoff_prover]
    #[verifier::rlimit(60)]
    pub fn full_render_chapter(&mut self, out: &mut Vec<TermOp>)
        requires
            old(self).wf(),
        ensures
            final(self).wf(),
            full_frame(old(self)@, final(self)@, old(out)@, final(out)@),
    {
        proof {
            self.backend.lemma_view_wf();
        }
        let ghost o = out@.len() as int;
        let ghost out0 = out@;
        let (x, _y) = self.to_virtual(self.backend.cursor().chars);
        out.push(TermOp::Hide);
        let ghost hidden = out@;
        out.push(TermOp::ClearAll);
        proof {
            assert(out@.take(o) =~= out0);
            lemma_printed_push(out0, TermOp::Hide);
            lemma_printed_push(hidden, TermOp::ClearAll);
            assert(out0.push(TermOp::Hide) =~= hidden);
            assert(hidden.push(TermOp::ClearAll) =~= out@);
            assert(printed(out0) + Seq::<char>::empty() =~= printed(out0));
            assert(printed(hidden) + Seq::<char>::empty() =~= printed(hidden));
        }
        let screen = self.screen_lines(0..self.dimensions.screen_size.1);
        let ghost before = out@;
        self.render_lines(out, &screen, Ghost(o + 2));
        let col = self.column(x as usize);
        let ghost mid = out@;
        out.push(TermOp::MoveTo(col, self.dimensions.anchor.1));
        out.push(TermOp::Show);
        proof {
            assert(mid.take(before.len() as int) == before);
            assert(out@.take(o) =~= out0) by {
                assert(mid.take(o) =~= before.take(o));
            }
            assert(out@[o] == before[o]);
            assert(out@[o + 1] == before[o + 1]);
            assert forall|j: int| o + 2 <= j < out@.len() implies !is_shift(#[trigger] out@[j]) by {
                if j < mid.len() {
                    assert(out@[j] == mid[j]);
                }
            }
            let m1 = mid.push(TermOp::MoveTo(col, self.dimensions.anchor.1));
            lemma_printed_push(mid, TermOp::MoveTo(col, self.dimensions.anchor.1));
            lemma_printed_push(m1, TermOp::Show);
            assert(m1.push(TermOp::Show) =~= out@);
            assert(printed(mid) + Seq::<char>::empty() =~= printed(mid));
            assert(printed(m1) + Seq::<char>::empty() =~= printed(m1));
            assert(row_window(0..self.dimensions.screen_size.1, self.dimensions.screen_size.1 as int) == (
            0int, self.dimensions.screen_size.1 as int));
            assert(out@.subrange(o + 2, out@.len() - 2) =~= mid.skip(o + 2));
        }
        self.needs_full_render = false;
    }

    /// Acts on a key: a character is typed, Enter types a line break,
    /// Backspace deletes a character, word deletion deletes a word.
    pub fn handle_input(&mut self, key: Key)
        requires
            old(self).wf(),
        ensures
            final(self).wf(),
            final(self)@ == (DisplayView { tracker: key_effect(old(self)@.tracker, key), ..old(self)@ }),
    {
        match key {
            Key::DeleteWord => self.backend.delete_word_backwards(),
            Key::Backspace => self.backend.pop(),
            Key::Enter => self.backend.push('\n'),
            Key::Char(c) => self.backend.push(c),
            _ => {},
        }
        proof {
            self.backend.lemma_view_wf();
        }
    }
}

/// When the cursor's line is the line after the one drawn last, the frame
/// scrolls the screen up: by one row when a wrap separates the two lines, by
/// two when a paragraph break does (short of the largest row number). With no
/// full frame asked for, the frame is incremental.
pub proof fn lemma_next_line_scroll(v: DisplayView)
    requires
        v.wf(),
        v.previous_line + 1 < v.lines.len(),
        v.cursor_line() == v.previous_line + 1,
        v.lines[v.previous_line as int].line + 2 <= usize::MAX,
    ensures
        v.cursor_line() > v.previous_line,
        v.line_diff() == (if v.lines[v.previous_line as int].linebreak == Linebreak::Existing { 2int } else { 1int }),
        abs(v.line_diff()) <= 65535,
{
    reveal(laid_out);
    let t = v.tracker.text;
    let frags = wrap_of(t, v.dimensions.width as nat);
    let ms = layout_of(t, frags);
    let k = v.previous_line as int;
    lemma_layout_row_step(t, frags, k);
    assert(line_matches(v.lines[k], ms[k], t));
    assert(line_matches(v.lines[k + 1], ms[k + 1], t));
}

} // verus!
