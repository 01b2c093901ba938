//! The typing tracker: the chapter text, what the reader has typed so far,
//! the cursor, and the positions where a typed character did not match.
use vstd::prelude::*;

use crate::position::{
    byte_offset, char_width, lemma_byte_offset_mono, lemma_byte_offset_step,
    utf8_len, utf8_width, Len,
};
use crate::style::{coherent, ordered, runs_wf, tiles, Style, StyleRun, Styling};

verus! {

/// `got` typed where `expected` stands counts as a match: the same character,
/// a straight apostrophe for a curly one, a straight double quote for either
/// curly double quote, or a plain space for a no-break space.
pub open spec fn chars_match(expected: char, got: char) -> bool {
    ||| expected == got
    ||| got == '\'' && (expected == '\u{2018}' || expected == '\u{2019}')
    ||| got == '"' && (expected == '\u{201C}' || expected == '\u{201D}')
    ||| got == ' ' && expected == '\u{A0}'
}

/// The characters with the Unicode White_Space property.
pub open spec fn white_space(c: char) -> bool {
    let v = c as u32;
    ||| 0x09 <= v <= 0x0D
    ||| v == 0x20
    ||| v == 0x85
    ||| v == 0xA0
    ||| v == 0x1680
    ||| 0x2000 <= v <= 0x200A
    ||| v == 0x2028
    ||| v == 0x2029
    ||| v == 0x202F
    ||| v == 0x205F
    ||| v == 0x3000
}

/// Number of characters at the end of `t` whose whiteness is `white`.
pub open spec fn trailing_run(t: Seq<char>, white: bool) -> nat
    decreases t.len(),
{
    if t.len() == 0 || white_space(t.last()) != white {
        0
    } else {
        1 + trailing_run(t.drop_last(), white)
    }
}

/// Number of characters that a word deletion removes from the end of `t`: the
/// trailing run of white space, then the run of other characters before it.
pub open spec fn word_tail_len(t: Seq<char>) -> nat {
    let w = trailing_run(t, true);
    w + trailing_run(t.take(t.len() - w), false)
}

/// `s` is strictly ascending by byte offset.
pub open spec fn ascending(s: Seq<Len>) -> bool {
    forall|i: int, j: int| #![trigger s[i], s[j]] 0 <= i < j < s.len() ==> s[i].bytes < s[j].bytes
}

/// Number of entries of `s` that lie before byte offset `b`.
pub open spec fn num_below(s: Seq<Len>, b: int) -> nat
    decreases s.len(),
{
    if s.len() == 0 {
        0
    } else {
        num_below(s.drop_last(), b) + (if s.last().bytes < b { 1nat } else { 0nat })
    }
}

/// The state of a typing session, as plain values.
pub struct TrackerView {
    pub text: Seq<char>,
    pub typed: Seq<char>,
    pub cursor: Len,
    pub prev: Len,
    pub errors: Seq<Len>,
    pub deleted: Seq<Len>,
    pub styles: Seq<StyleRun>,
}

impl TrackerView {
    /// What holds of every state that the tracker can reach: the text's byte
    /// length fits a `usize`; the cursors are positions of the text; as many
    /// characters were typed as the cursor has passed; the errors are
    /// positions in strictly ascending order, all before the cursor; the
    /// deleted errors are ascending positions; the style runs lie on the text.
    pub open spec fn wf(self) -> bool {
        &&& utf8_len(self.text) <= usize::MAX
        &&& self.cursor.is_pos_in(self.text)
        &&& self.prev.is_pos_in(self.text)
        &&& self.typed.len() == self.cursor.chars
        &&& ascending(self.errors)
        &&& forall|i: int|
            0 <= i < self.errors.len() ==> (#[trigger] self.errors[i]).is_pos_in(self.text)
                && self.errors[i].bytes < self.cursor.bytes
        &&& ascending(self.deleted)
        &&& forall|i: int| 0 <= i < self.deleted.len() ==> (#[trigger] self.deleted[i]).is_pos_in(self.text)
        &&& runs_in(self.styles, self.text)
    }

    /// A keystroke `c`: at the end of the text nothing changes; otherwise `c`
    /// is appended to what was typed, a mismatch records the cursor as an
    /// error, and the cursor moves over one character of the text.
    pub open spec fn push(self, c: char) -> TrackerView {
        if self.cursor.chars >= self.text.len() {
            self
        } else {
            let goal = self.text[self.cursor.chars as int];
            TrackerView {
                text: self.text,
                typed: self.typed.push(c),
                cursor: Len {
                    bytes: (self.cursor.bytes + char_width(goal)) as usize,
                    chars: (self.cursor.chars + 1) as usize,
                },
                prev: self.cursor,
                errors: if chars_match(goal, c) {
                    self.errors
                } else {
                    self.errors.push(self.cursor)
                },
                deleted: self.deleted,
                styles: self.styles,
            }
        }
    }

    /// Moves the cursor back over `k` characters: the last `k` typed
    /// characters go, and the errors at or after the new cursor move to
    /// `deleted`, replacing what it held.
    pub open spec fn rewind(self, k: nat) -> TrackerView {
        let cursor = Len::at(self.text, self.cursor.chars - k);
        let n = num_below(self.errors, cursor.bytes as int);
        TrackerView {
            text: self.text,
            typed: self.typed.take(self.typed.len() - k),
            cursor,
            prev: self.cursor,
            errors: self.errors.take(n as int),
            deleted: self.errors.skip(n as int),
            styles: self.styles,
        }
    }

    /// A backspace: nothing when nothing was typed, else back one character.
    pub open spec fn pop(self) -> TrackerView {
        if self.typed.len() == 0 {
            self
        } else {
            self.rewind(1)
        }
    }

    /// A word deletion: nothing when nothing was typed, else back over the
    /// word at the end of what was typed.
    pub open spec fn delete_word(self) -> TrackerView {
        if self.typed.len() == 0 {
            self
        } else {
            self.rewind(word_tail_len(self.typed))
        }
    }

    /// The end of a render pass: the deleted errors are dropped.
    pub open spec fn clear_per_update(self) -> TrackerView {
        TrackerView { deleted: Seq::empty(), ..self }
    }
}

/// The style runs are well formed and each starts and ends at a position of `text`.
pub open spec fn runs_in(runs: Seq<StyleRun>, text: Seq<char>) -> bool {
    &&& runs_wf(runs)
    &&& forall|i: int|
        0 <= i < runs.len() ==> (#[trigger] runs[i]).start.is_pos_in(text) && runs[i].end.is_pos_in(text)
}

/// Two positions of one text in character order are in byte order too.
pub proof fn lemma_positions_ordered(text: Seq<char>, a: Len, b: Len)
    requires
        a.is_pos_in(text),
        b.is_pos_in(text),
        a.chars <= b.chars,
    ensures
        ordered(a, b),
{
    lemma_byte_offset_mono(text, a.chars as int, b.chars as int);
}

/// Two positions of one text are in the same order in bytes and characters.
pub proof fn lemma_positions_coherent(text: Seq<char>, a: Len, b: Len)
    requires
        a.is_pos_in(text),
        b.is_pos_in(text),
    ensures
        coherent(a, b),
{
    if a.chars <= b.chars {
        lemma_positions_ordered(text, a, b);
    } else {
        lemma_positions_ordered(text, b, a);
    }
}

/// Whether `got`, typed where `expected` stands, counts as a match.
pub fn chars_are_equal_including_unicode_alternatives(expected: char, got: char) -> (r: bool)
    ensures
        r == chars_match(expected, got),
{
    if expected == got {
        true
    } else if got == '\'' {
        expected == '\u{2018}' || expected == '\u{2019}'
    } else if got == '"' {
        expected == '\u{201C}' || expected == '\u{201D}'
    } else if got == ' ' {
        expected == '\u{A0}'
    } else {
        false
    }
}

/// Whether `c` has the Unicode White_Space property.
pub fn is_white_space(c: char) -> (r: bool)
    ensures
        r == white_space(c),
{
    let v = c as u32;
    (0x09 <= v && v <= 0x0D) || v == 0x20 || v == 0x85 || v == 0xA0 || v == 0x1680 || (0x2000
        <= v && v <= 0x200A) || v == 0x2028 || v == 0x2029 || v == 0x202F || v == 0x205F || v
        == 0x3000
}

/// The typing state of one chapter.
pub struct Backend {
    text: String,
    chars: Vec<char>,
    typed: Vec<char>,
    cursor: Len,
    cursor_prev: Len,
    errors: Vec<Len>,
    deleted_errors: Vec<Len>,
    styling: Styling,
}

impl View for Backend {
    type V = TrackerView;

    closed spec fn view(&self) -> TrackerView {
        TrackerView {
            text: self.chars@,
            typed: self.typed@,
            cursor: self.cursor,
            prev: self.cursor_prev,
            errors: self.errors@,
            deleted: self.deleted_errors@,
            styles: self.styling@,
        }
    }
}

impl Backend {
    /// The tracker's own invariant; its state as plain values is `wf` too.
    pub closed spec fn wf(&self) -> bool {
        &&& self@.wf()
        &&& self.text@ == self.chars@
    }

    /// The state of a well-formed tracker is one that the tracker can reach.
    pub proof fn lemma_view_wf(&self)
        requires
            self.wf(),
        ensures
            self@.wf(),
    {
    }

    /// A fresh session on `text`: nothing typed, the cursor at the start.
    pub fn new(text: String, chars: Vec<char>, styling: Styling) -> (r: Backend)
        requires
            text@ == chars@,
            utf8_len(text@) <= usize::MAX,
            runs_in(styling@, text@),
        ensures
            r.wf(),
            r@.wf(),
            r@.text == text@,
            r@.styles == styling@,
            r@.typed.len() == 0,
            r@.cursor == Len::at(text@, 0),
            r@.prev == Len::at(text@, 0),
            r@.errors.len() == 0,
            r@.deleted.len() == 0,
    {
        proof {
            assert(text@.take(0).len() == 0);
        }
        Backend {
            text,
            chars,
            typed: Vec::new(),
            cursor: Len { bytes: 0, chars: 0 },
            cursor_prev: Len { bytes: 0, chars: 0 },
            errors: Vec::new(),
            deleted_errors: Vec::new(),
            styling,
        }
    }

    /// The pieces of one style that tile `[start, end)` of the text.
    pub fn style_iter(&self, start: Len, end: Len) -> (r: Vec<(Style, Len)>)
        requires
            self.wf(),
            start.is_pos_in(self@.text),
            end.is_pos_in(self@.text),
            start.chars <= end.chars,
        ensures
            tiles(self@.styles, start, end, r@),
            forall|k: int| 0 <= k < r@.len() ==> (#[trigger] r@[k]).0.bits & 7 == r@[k].0.bits,
    {
        proof {
            let text = self@.text;
            let runs = self@.styles;
            lemma_positions_ordered(text, start, end);
            assert forall|i: int| 0 <= i < runs.len() implies coherent(start, (#[trigger] runs[i]).start)
                && coherent(start, runs[i].end) && coherent(end, runs[i].start) && coherent(end, runs[i].end) by {
                lemma_positions_coherent(text, start, runs[i].start);
                lemma_positions_coherent(text, start, runs[i].end);
                lemma_positions_coherent(text, end, runs[i].start);
                lemma_positions_coherent(text, end, runs[i].end);
            }
        }
        self.styling.iter(start, end)
    }

    pub fn text(&self) -> (r: &str)
        requires
            self.wf(),
        ensures
            r@ == self@.text,
    {
        self.text.as_str()
    }

    /// The text as characters.
    pub fn chars(&self) -> (r: &Vec<char>)
        ensures
            r@ == self@.text,
    {
        &self.chars
    }

    /// What was typed so far.
    pub fn typed(&self) -> (r: &[char])
        ensures
            r@ == self@.typed,
    {
        self.typed.as_slice()
    }

    pub fn cursor(&self) -> (r: Len)
        ensures
            r == self@.cursor,
    {
        self.cursor
    }

    pub fn last_cursor_position(&self) -> (r: Len)
        ensures
            r == self@.prev,
    {
        self.cursor_prev
    }

    pub fn errors(&self) -> (r: &[Len])
        ensures
            r@ == self@.errors,
    {
        self.errors.as_slice()
    }

    pub fn backspaced_errors(&self) -> (r: &[Len])
        ensures
            r@ == self@.deleted,
    {
        self.deleted_errors.as_slice()
    }

    pub fn clear_per_update_data(&mut self)
        requires
            old(self).wf(),
        ensures
            final(self).wf(),
            final(self)@.wf(),
            final(self)@ == old(self)@.clear_per_update(),
    {
        self.deleted_errors.truncate(0);
        proof {
            assert(self.deleted_errors@ =~= Seq::<Len>::empty());
        }
    }

    pub fn push(&mut self, c: char)
        requires
            old(self).wf(),
        ensures
            final(self).wf(),
            final(self)@.wf(),
            final(self)@ == old(self)@.push(c),
    {
        if self.cursor.chars >= self.chars.len() {
            return ;
        }
        let goal = self.chars[self.cursor.chars];
        let ghost text = self.chars@;
        let ghost k = self.cursor.chars as int;
        let ghost old_errors = self.errors@;
        let ghost old_cursor = self.cursor;

        proof {
            lemma_byte_offset_step(text, k);
            lemma_byte_offset_mono(text, k + 1, text.len() as int);
            assert(text.take(text.len() as int) =~= text);
        }
        self.typed.push(c);
        if !chars_are_equal_including_unicode_alternatives(goal, c) {
            self.errors.push(self.cursor);
        }
        self.cursor_prev = self.cursor;
        self.cursor.bytes = self.cursor.bytes + utf8_width(goal);
        self.cursor.chars = self.cursor.chars + 1;
        proof {
            let e = self.errors@;
            assert forall|i: int| 0 <= i < e.len() implies (#[trigger] e[i]).is_pos_in(text)
                && e[i].bytes < self.cursor.bytes by {
                if i < old_errors.len() {
                    assert(e[i] == old_errors[i]);
                    assert(old_errors[i].is_pos_in(text) && old_errors[i].bytes < old_cursor.bytes);
                } else {
                    assert(e[i] == old_cursor);
                }
            }
            assert forall|i: int, j: int| #![trigger e[i], e[j]] 0 <= i < j < e.len() implies e[i].bytes
                < e[j].bytes by {
                if j < old_errors.len() {
                    assert(e[i] == old_errors[i]);
                    assert(e[j] == old_errors[j]);
                    assert(old_errors[i].bytes < old_errors[j].bytes);
                } else {
                    assert(e[i] == old_errors[i]);
                    assert(old_errors[i].is_pos_in(text) && old_errors[i].bytes < old_cursor.bytes);
                }
            }
        }
    }

    pub fn pop(&mut self)
        requires
            old(self).wf(),
        ensures
            final(self).wf(),
            final(self)@.wf(),
            final(self)@ == old(self)@.pop(),
    {
        if self.typed.len() == 0 {
            return ;
        }
        let len = self.canonical_tail(1);
        self.delete_backwards_impl(len);
    }

    pub fn delete_word_backwards(&mut self)
        requires
            old(self).wf(),
        ensures
            final(self).wf(),
            final(self)@.wf(),
            final(self)@ == old(self)@.delete_word(),
    {
        if self.typed.len() == 0 {
            return ;
        }
        let ghost t = self.typed@;
        let n = self.typed.len();
        let mut i: usize = n;
        while i > 0 && is_white_space(self.typed[i - 1])
            invariant
                i <= n == t.len(),
                self.typed@ == t,
                forall|j: int| i <= j < n ==> white_space(#[trigger] t[j]),
            decreases i,
        {
            i = i - 1;
        }
        proof {
            lemma_trailing_run(t, true, i as int);
        }
        let w = i;
        while i > 0 && !is_white_space(self.typed[i - 1])
            invariant
                i <= w <= n == t.len(),
                self.typed@ == t,
                forall|j: int| i <= j < w ==> !white_space(#[trigger] t[j]),
            decreases i,
        {
            i = i - 1;
        }
        proof {
            let u = t.take(w as int);
            assert forall|j: int| i <= j < u.len() implies !white_space(#[trigger] u[j]) by {
                assert(u[j] == t[j]);
            }
            if i > 0 {
                assert(u[i - 1] == t[i - 1]);
            }
            lemma_trailing_run(u, false, i as int);
        }
        let len = self.canonical_tail(n - i);
        self.delete_backwards_impl(len);
    }

    /// Position span of the last `k` characters of the text before the cursor.
    fn canonical_tail(&self, k: usize) -> (r: Len)
        requires
            self.wf(),
            1 <= k <= self.cursor.chars,
        ensures
            r.chars == k,
            r.bytes == byte_offset(self@.text, self.cursor.chars as int) - byte_offset(
                self@.text,
                self.cursor.chars - k,
            ),
    {
        let ghost text = self.chars@;
        let start = self.cursor.chars - k;
        let mut j = start;
        let mut bytes: usize = 0;
        proof {
            lemma_byte_offset_mono(text, start as int, self.cursor.chars as int);
        }
        while j < self.cursor.chars
            invariant
                start <= j <= self.cursor.chars <= text.len(),
                self.chars@ == text,
                self.wf(),
                start == self.cursor.chars - k,
                bytes == byte_offset(text, j as int) - byte_offset(text, start as int),
                byte_offset(text, self.cursor.chars as int) - byte_offset(text, start as int) <= usize::MAX,
            decreases self.cursor.chars - j,
        {
            proof {
                lemma_byte_offset_step(text, j as int);
                lemma_byte_offset_mono(text, j + 1, self.cursor.chars as int);
            }
            bytes = bytes + utf8_width(self.chars[j]);
            j = j + 1;
        }
        Len { bytes, chars: k }
    }

    /// Moves the cursor back by `len`, drops as many typed characters, and
    /// moves the errors at or after the new cursor to the deleted errors.
    fn delete_backwards_impl(&mut self, len: Len)
        requires
            old(self).wf(),
            1 <= len.chars <= old(self).cursor.chars,
            len.bytes == byte_offset(old(self)@.text, old(self).cursor.chars as int) - byte_offset(
                old(self)@.text,
                old(self).cursor.chars - len.chars,
            ),
        ensures
            final(self).wf(),
            final(self)@.wf(),
            final(self)@ == old(self)@.rewind(len.chars as nat),
    {
        let ghost v = self@;
        let keep = self.typed.len() - len.chars;
        self.typed.truncate(keep);
        self.cursor_prev = self.cursor;
        self.cursor = self.cursor.sub(len);
        let first = partition_below(&self.errors, self.cursor.bytes);
        self.deleted_errors = self.errors.split_off(first);
        proof {
            let n = num_below(v.errors, self.cursor.bytes as int);
            lemma_num_below(v.errors, self.cursor.bytes as int);
            assert(self.cursor == Len::at(v.text, v.cursor.chars - len.chars));
            assert(self@ == v.rewind(len.chars as nat));
            let e = self.errors@;
            assert forall|i: int| 0 <= i < e.len() implies (#[trigger] e[i]).is_pos_in(v.text)
                && e[i].bytes < self.cursor.bytes by {
                assert(e[i] == v.errors[i]);
            }
            let d = self.deleted_errors@;
            assert forall|i: int| 0 <= i < d.len() implies (#[trigger] d[i]).is_pos_in(v.text) by {
                assert(d[i] == v.errors[i + first]);
            }
        }
    }
}

/// Index of the first entry of the ascending `s` at or after byte offset `b`.
fn partition_below(s: &Vec<Len>, b: usize) -> (r: usize)
    requires
        ascending(s@),
    ensures
        r == num_below(s@, b as int),
        r <= s@.len(),
{
    let mut lo: usize = 0;
    let mut hi: usize = s.len();
    while lo < hi
        invariant
            0 <= lo <= hi <= s@.len(),
            ascending(s@),
            forall|i: int| 0 <= i < lo ==> (#[trigger] s@[i]).bytes < b,
            forall|i: int| hi <= i < s@.len() ==> (#[trigger] s@[i]).bytes >= b,
        decreases hi - lo,
    {
        let mid = lo + (hi - lo) / 2;
        if s[mid].bytes < b {
            proof {
                assert forall|i: int| 0 <= i < mid + 1 implies (#[trigger] s@[i]).bytes < b by {
                    if i < mid {
                        assert(s@[i].bytes < s@[mid as int].bytes);
                    }
                }
            }
            lo = mid + 1;
        } else {
            proof {
                assert forall|i: int| mid <= i < s@.len() implies (#[trigger] s@[i]).bytes >= b by {
                    if i > mid {
                        assert(s@[i].bytes > s@[mid as int].bytes);
                    }
                }
            }
            hi = mid;
        }
    }
    proof {
        lemma_num_below_at(s@, b as int, lo as int);
    }
    lo
}

/// In an ascending sequence, the entries before byte offset `b` are exactly the
/// first `num_below` ones.
pub proof fn lemma_num_below(s: Seq<Len>, b: int)
    requires
        ascending(s),
    ensures
        num_below(s, b) <= s.len(),
        forall|i: int| 0 <= i < num_below(s, b) ==> (#[trigger] s[i]).bytes < b,
        forall|i: int| num_below(s, b) <= i < s.len() ==> (#[trigger] s[i]).bytes >= b,
    decreases s.len(),
{
    if s.len() > 0 {
        let t = s.drop_last();
        lemma_num_below(t, b);
        assert forall|i: int| 0 <= i < num_below(s, b) implies (#[trigger] s[i]).bytes < b by {
            if i < t.len() {
                assert(s[i] == t[i]);
            }
        }
        assert forall|i: int| num_below(s, b) <= i < s.len() implies (#[trigger] s[i]).bytes >= b by {
            if i < t.len() {
                assert(s[i] == t[i]);
                if s.last().bytes < b {
                    assert(s[i].bytes < s.last().bytes);
                }
            }
        }
    }
}

proof fn lemma_num_below_at(s: Seq<Len>, b: int, r: int)
    requires
        ascending(s),
        0 <= r <= s.len(),
        forall|i: int| 0 <= i < r ==> (#[trigger] s[i]).bytes < b,
        forall|i: int| r <= i < s.len() ==> (#[trigger] s[i]).bytes >= b,
    ensures
        num_below(s, b) == r,
{
    lemma_num_below(s, b);
    let n = num_below(s, b) as int;
    if n < r {
        assert(s[n].bytes < b);
    } else if n > r {
        assert(s[r].bytes >= b);
    }
}

/// The loop that scans back over a run of characters of one whiteness counts
/// `trailing_run`.
proof fn lemma_trailing_run(t: Seq<char>, white: bool, i: int)
    requires
        0 <= i <= t.len(),
        forall|j: int| i <= j < t.len() ==> white_space(#[trigger] t[j]) == white,
        i == 0 || white_space(t[i - 1]) != white,
    ensures
        trailing_run(t, white) == t.len() - i,
    decreases t.len() - i,
{
    if i < t.len() {
        let u = t.drop_last();
        assert forall|j: int| i <= j < u.len() implies white_space(#[trigger] u[j]) == white by {
            assert(u[j] == t[j]);
        }
        if i > 0 {
            assert(u[i - 1] == t[i - 1]);
        }
        lemma_trailing_run(u, white, i);
    }
}

/// Clearing the per-update data empties the deleted errors, and clearing a
/// second time changes nothing.
pub proof fn lemma_clear_per_update_idempotent(v: TrackerView)
    ensures
        v.clear_per_update().deleted.len() == 0,
        v.clear_per_update().clear_per_update().deleted.len() == 0,
        v.clear_per_update().clear_per_update() == v.clear_per_update(),
{
}

/// A keystroke followed by a backspace restores the cursor, what was typed and
/// the errors, whatever the key, wherever a character is left at the cursor.
pub proof fn lemma_push_pop_round_trip(v: TrackerView, c: char)
    requires
        v.wf(),
        v.cursor.chars < v.text.len(),
    ensures
        v.push(c).pop().cursor == v.cursor,
        v.push(c).pop().typed == v.typed,
        v.push(c).pop().errors == v.errors,
{
    let p = v.push(c);
    let q = p.pop();
    crate::position::lemma_byte_offset_mono(v.text, 0, v.text.len() as int);
    assert(v.text.take(v.text.len() as int) =~= v.text);
    assert(p.typed.len() > 0);
    assert(q == p.rewind(1));
    assert(q.cursor == Len::at(v.text, v.cursor.chars as int));
    assert(q.typed =~= v.typed);
    let b = v.cursor.bytes as int;
    assert(q.cursor.bytes == b);
    assert forall|i: int| #![trigger p.errors[i]] 0 <= i < v.errors.len() implies p.errors[i].bytes < b by {
        assert(p.errors[i] == v.errors[i]);
    }
    if p.errors.len() > v.errors.len() {
        assert(p.errors[v.errors.len() as int] == v.cursor);
        assert(ascending(p.errors)) by {
            assert forall|i: int, j: int| #![trigger p.errors[i], p.errors[j]] 0 <= i < j < p.errors.len()
                implies p.errors[i].bytes < p.errors[j].bytes by {
                assert(p.errors[i] == v.errors[i]);
                if j < v.errors.len() {
                    assert(p.errors[j] == v.errors[j]);
                }
            }
        }
        lemma_num_below_at(p.errors, b, v.errors.len() as int);
    } else {
        lemma_num_below_at(p.errors, b, v.errors.len() as int);
    }
    assert(q.errors =~= v.errors);
}

/// A straight apostrophe typed where the text holds a right single quotation
/// mark records no error.
pub proof fn lemma_push_apostrophe_matches(v: TrackerView)
    requires
        v.wf(),
        v.cursor.chars < v.text.len(),
        v.text[v.cursor.chars as int] == '\u{2019}',
    ensures
        v.push('\'').errors == v.errors,
{
}

/// A keystroke that does not match the character at the cursor (an `a` typed
/// where the text holds `b`) records exactly one error, at the cursor as it
/// was before the keystroke.
pub proof fn lemma_push_mismatch_records_error(v: TrackerView, c: char)
    requires
        v.wf(),
        v.cursor.chars < v.text.len(),
        !chars_match(v.text[v.cursor.chars as int], c),
    ensures
        v.push(c).errors == v.errors.push(v.cursor),
        v.push(c).errors.len() == v.errors.len() + 1,
        v.push(c).errors.last() == v.cursor,
{
}

} // verus!
