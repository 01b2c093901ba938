//! Character styles and the index that maps ranges of a text to them.
use vstd::prelude::*;

use crate::position::Len;

verus! {

/// A set of the styles ITALIC (bit 0), BOLD (bit 1) and CENTER (bit 2).
#[derive(Debug, Copy, Clone, PartialEq, Eq, Structural, Hash)]
pub struct Style {
    pub bits: u8,
}

pub open spec fn no_style() -> Style {
    Style { bits: 0 }
}

impl Style {
    pub fn empty() -> (r: Style)
        ensures
            r == no_style(),
    {
        Style { bits: 0 }
    }

    pub fn italic() -> (r: Style)
        ensures
            r.bits == 1,
    {
        Style { bits: 1 }
    }

    pub fn bold() -> (r: Style)
        ensures
            r.bits == 2,
    {
        Style { bits: 2 }
    }

    pub fn center() -> (r: Style)
        ensures
            r.bits == 4,
    {
        Style { bits: 4 }
    }

    pub fn bits(self) -> (r: u8)
        ensures
            r == self.bits,
    {
        self.bits
    }

    /// The style with these bits, if they name only known styles.
    pub fn from_bits(bits: u8) -> (r: Option<Style>)
        ensures
            r == (if bits & 7 == bits { Some(Style { bits }) } else { None::<Style> }),
    {
        if bits & 7 == bits {
            Some(Style { bits })
        } else {
            None
        }
    }

    pub fn is_empty(self) -> (r: bool)
        ensures
            r == (self.bits == 0),
    {
        self.bits == 0
    }

    /// Both sets together.
    pub fn union(self, other: Style) -> (r: Style)
        ensures
            r.bits == self.bits | other.bits,
    {
        Style { bits: self.bits | other.bits }
    }

    /// The styles of `self` that `other` lacks.
    pub fn difference(self, other: Style) -> (r: Style)
        ensures
            r.bits == self.bits & !other.bits,
    {
        Style { bits: self.bits & !other.bits }
    }

    /// Whether every style of `other` is in `self`.
    pub fn contains(self, other: Style) -> (r: bool)
        ensures
            r == (self.bits & other.bits == other.bits),
    {
        self.bits & other.bits == other.bits
    }
}

/// One styled range of the text.
#[derive(Debug, Copy, Clone)]
pub struct StyleRun {
    pub style: Style,
    pub start: Len,
    pub end: Len,
}

/// `a` lies at or before `b`, in bytes and in characters alike.
pub open spec fn ordered(a: Len, b: Len) -> bool {
    ||| a.bytes < b.bytes && a.chars < b.chars
    ||| a == b
}

/// `a` and `b` are in the same order in bytes and in characters.
pub open spec fn coherent(a: Len, b: Len) -> bool {
    ordered(a, b) || ordered(b, a)
}

/// The runs are non-empty, styled with known styles only, in text order without overlap, and two
/// runs that touch have different styles.
pub open spec fn runs_wf(runs: Seq<StyleRun>) -> bool {
    &&& forall|i: int|
        0 <= i < runs.len() ==> (#[trigger] runs[i]).start.bytes < runs[i].end.bytes && ordered(
            runs[i].start,
            runs[i].end,
        ) && runs[i].style.bits != 0 && runs[i].style.bits & 7 == runs[i].style.bits
    &&& forall|i: int, j: int|
        #![trigger runs[i], runs[j]]
        0 <= i < j < runs.len() ==> ordered(runs[i].end, runs[j].start)
    &&& forall|i: int|
        #![trigger runs[i]]
        0 <= i && i + 1 < runs.len() && runs[i].end == runs[i + 1].start ==> runs[i].style
            != runs[i + 1].style
}

/// Run `i` covers byte offset `b`.
pub open spec fn covers(runs: Seq<StyleRun>, i: int, b: int) -> bool {
    0 <= i < runs.len() && runs[i].start.bytes <= b < runs[i].end.bytes
}

/// The style at byte offset `b`: that of the run that covers it, else none.
pub open spec fn style_at(runs: Seq<StyleRun>, b: int) -> Style {
    if exists|i: int| covers(runs, i, b) {
        runs[choose|i: int| covers(runs, i, b)].style
    } else {
        no_style()
    }
}

/// `p` is the start or the end of some run.
pub open spec fn is_endpoint(runs: Seq<StyleRun>, p: Len) -> bool {
    exists|i: int| 0 <= i < runs.len() && (runs[i].start == p || runs[i].end == p)
}

/// `p` is coherent with every start and end of a run.
pub open spec fn coherent_with_runs(runs: Seq<StyleRun>, p: Len) -> bool {
    forall|i: int|
        0 <= i < runs.len() ==> coherent(p, (#[trigger] runs[i]).start) && coherent(p, runs[i].end)
}

/// Total byte length of the pieces.
pub open spec fn sum_bytes(pieces: Seq<(Style, Len)>) -> int
    decreases pieces.len(),
{
    if pieces.len() == 0 {
        0
    } else {
        sum_bytes(pieces.drop_last()) + pieces.last().1.bytes
    }
}

/// Total character length of the pieces.
pub open spec fn sum_chars(pieces: Seq<(Style, Len)>) -> int
    decreases pieces.len(),
{
    if pieces.len() == 0 {
        0
    } else {
        sum_chars(pieces.drop_last()) + pieces.last().1.chars
    }
}

/// Where piece `k` starts, when the pieces are laid out from `start`.
pub open spec fn piece_start(start: Len, pieces: Seq<(Style, Len)>, k: int) -> Len {
    Len {
        bytes: (start.bytes + sum_bytes(pieces.take(k))) as usize,
        chars: (start.chars + sum_chars(pieces.take(k))) as usize,
    }
}

/// `pieces` tiles `[start, end)` with the maximal runs of one style: they add
/// up to the range, none is empty, each has one style throughout, neighbours
/// differ, and each inner boundary is a start or an end of a run.
pub open spec fn tiles(runs: Seq<StyleRun>, start: Len, end: Len, pieces: Seq<(Style, Len)>) -> bool {
    &&& sum_bytes(pieces) == end.bytes - start.bytes
    &&& sum_chars(pieces) == end.chars - start.chars
    &&& forall|k: int| 0 <= k < pieces.len() ==> (#[trigger] pieces[k]).1.bytes > 0
    &&& forall|k: int, b: int|
        #![trigger pieces[k], style_at(runs, b)]
        0 <= k < pieces.len() && piece_start(start, pieces, k).bytes <= b < piece_start(
            start,
            pieces,
            k + 1,
        ).bytes ==> style_at(runs, b) == pieces[k].0
    &&& forall|k: int| 0 < k < pieces.len() ==> (#[trigger] pieces[k]).0 != pieces[k - 1].0
    &&& forall|k: int| 0 < k < pieces.len() ==> #[trigger] is_endpoint(runs, piece_start(start, pieces, k))
}

/// The runs after adding `start..end` with `style`: nothing is added for an
/// empty range or no style; a range that continues the last run with its style
/// extends it; any other is a new run.
pub open spec fn with_run(runs: Seq<StyleRun>, style: Style, start: Len, end: Len) -> Seq<StyleRun> {
    if style.bits == 0 || start == end {
        runs
    } else if runs.len() > 0 && runs.last().end == start && runs.last().style == style {
        runs.update(runs.len() - 1, StyleRun { style, start: runs.last().start, end })
    } else {
        runs.push(StyleRun { style, start, end })
    }
}

/// The compiled style index of a text.
pub struct Styling {
    runs: Vec<StyleRun>,
}

/// Collects styled ranges in text order.
pub struct StylingBuilder {
    runs: Vec<StyleRun>,
}

impl View for Styling {
    type V = Seq<StyleRun>;

    closed spec fn view(&self) -> Seq<StyleRun> {
        self.runs@
    }
}

impl View for StylingBuilder {
    type V = Seq<StyleRun>;

    closed spec fn view(&self) -> Seq<StyleRun> {
        self.runs@
    }
}

impl Styling {
    pub fn builder() -> (r: StylingBuilder)
        ensures
            r@.len() == 0,
    {
        StylingBuilder { runs: Vec::new() }
    }
}

impl StylingBuilder {
    /// Records that `range` has style `style`. A range that is empty or has no
    /// style adds nothing; one that continues the last run with its style
    /// extends it.
    pub fn add(&mut self, style: Style, range: core::ops::Range<Len>)
        requires
            runs_wf(old(self)@),
            style.bits & 7 == style.bits,
            ordered(range.start, range.end),
            old(self)@.len() > 0 ==> ordered(old(self)@.last().end, range.start),
        ensures
            runs_wf(final(self)@),
            final(self)@ == with_run(old(self)@, style, range.start, range.end),
    {
        if style.bits == 0 || range.start == range.end {
            return ;
        }
        let n = self.runs.len();
        if n > 0 {
            let last = self.runs[n - 1];
            if last.end == range.start && last.style == style {
                let run = StyleRun { style, start: last.start, end: range.end };
                self.runs.set(n - 1, run);
                proof {
                    let r = self.runs@;
                    assert forall|i: int| 0 <= i && i + 1 < r.len() && r[i].end == r[i + 1].start
                        implies #[trigger] r[i].style != r[i + 1].style by {
                        assert(r[i] == old(self)@[i]);
                        if i + 1 < n - 1 {
                            assert(r[i + 1] == old(self)@[i + 1]);
                        } else {
                            assert(r[i + 1].start == old(self)@[i + 1].start);
                            assert(r[i + 1].style == old(self)@[i + 1].style);
                        }
                    }
                }
                return ;
            }
        }
        self.runs.push(StyleRun { style, start: range.start, end: range.end });
    }

    /// The finished index.
    pub fn build(self) -> (r: Styling)
        ensures
            r@ == self@,
    {
        Styling { runs: self.runs }
    }
}

impl Styling {
    /// The pieces of one style that tile `[start, end)`, split where the style
    /// changes.
    pub fn iter(&self, start: Len, end: Len) -> (r: Vec<(Style, Len)>)
        requires
            runs_wf(self@),
            ordered(start, end),
            coherent_with_runs(self@, start),
            coherent_with_runs(self@, end),
        ensures
            tiles(self@, start, end, r@),
            forall|k: int| 0 <= k < r@.len() ==> (#[trigger] r@[k]).0.bits & 7 == r@[k].0.bits,
    {
        let runs = &self.runs;
        let n = runs.len();
        let ghost rs = runs@;
        let mut i = first_ending_after(runs, start.bytes);
        let mut out: Vec<(Style, Len)> = Vec::new();
        let mut cur = start;
        proof {
            assert(out@.take(0) =~= out@);
        }
        while cur.bytes < end.bytes
            invariant
                runs_wf(rs),
                rs == runs@,
                rs == self@,
                n == rs.len(),
                ordered(start, cur),
                ordered(cur, end),
                coherent_with_runs(rs, cur),
                coherent_with_runs(rs, end),
                i <= n,
                forall|j: int| 0 <= j < i ==> (#[trigger] rs[j]).end.bytes <= cur.bytes,
                i < n ==> cur.bytes < rs[i as int].end.bytes,
                sum_bytes(out@) == cur.bytes - start.bytes,
                sum_chars(out@) == cur.chars - start.chars,
                piece_start(start, out@, out@.len() as int) == cur,
                forall|k: int| 0 <= k < out@.len() ==> (#[trigger] out@[k]).1.bytes > 0,
                forall|k: int, b: int|
                    #![trigger out@[k], style_at(rs, b)]
                    0 <= k < out@.len() && piece_start(start, out@, k).bytes <= b < piece_start(
                        start,
                        out@,
                        k + 1,
                    ).bytes ==> style_at(rs, b) == out@[k].0,
                forall|k: int| 0 < k < out@.len() ==> (#[trigger] out@[k]).0 != out@[k - 1].0,
                forall|k: int| 0 < k < out@.len() ==> #[trigger] is_endpoint(rs, piece_start(start, out@, k)),
                out@.len() > 0 && cur.bytes < end.bytes ==> is_endpoint(rs, cur),
                out@.len() > 0 && cur.bytes < end.bytes ==> (out@.last().0 == no_style() || (i > 0
                    && out@.last().0 == rs[i - 1].style && cur == rs[i - 1].end)),
                out@.len() > 0 && out@.last().0 == no_style() && cur.bytes < end.bytes ==> i < n && cur
                    == rs[i as int].start,
                out@.len() > 0 ==> out@.last().0.bits != 0 || out@.last().0 == no_style(),
                forall|k: int| 0 <= k < out@.len() ==> (#[trigger] out@[k]).0.bits & 7 == out@[k].0.bits,
            decreases end.bytes - cur.bytes,
        {
            let ghost old_out = out@;
            let ghost old_cur = cur;
            let ghost old_i = i;
            let piece_style: Style;
            let next: Len;
            if i < n && runs[i].start.bytes <= cur.bytes {
                let run = runs[i];
                next = run.end.min(end);
                piece_style = run.style;
                proof {
                    assert forall|b: int| old_cur.bytes <= b < next.bytes implies style_at(rs, b) == piece_style by {
                        lemma_style_at_covered(rs, i as int, b);
                    }
                    if old_out.len() > 0 && old_out.last().0 != no_style() {
                        assert(ordered(rs[i - 1].end, rs[i as int].start));
                        assert(rs[i - 1].end == rs[i as int].start);
                    }
                    assert(coherent(old_cur, rs[i as int].end));
                }
                if run.end.bytes <= end.bytes {
                    i = i + 1;
                }
            } else {
                next = if i < n {
                    runs[i].start.min(end)
                } else {
                    end
                };
                piece_style = Style::empty();
                proof {
                    assert forall|b: int| old_cur.bytes <= b < next.bytes implies style_at(rs, b) == piece_style by {
                        assert forall|j: int| !covers(rs, j, b) by {
                            if 0 <= j < rs.len() && j > i {
                                assert(ordered(rs[i as int].end, rs[j].start));
                            }
                        }
                    }
                    if i < n {
                        assert(coherent(old_cur, rs[i as int].start));
                    }
                }
            }
            let piece = next.sub(cur);
            out.push((piece_style, piece));
            cur = next;
            proof {
                let o = out@;
                assert(o.drop_last() =~= old_out);
                assert(o.take(o.len() as int) =~= o);
                assert forall|k: int| 0 <= k <= old_out.len() implies #[trigger] o.take(k) == old_out.take(k) by {
                    assert(o.take(k) =~= old_out.take(k));
                }
                assert(old_out.take(old_out.len() as int) =~= old_out);
                assert(piece_start(start, o, old_out.len() as int) == old_cur);
                assert forall|k: int, b: int|
                    #![trigger o[k], style_at(rs, b)]
                    0 <= k < o.len() && piece_start(start, o, k).bytes <= b < piece_start(start, o, k + 1).bytes
                    implies style_at(rs, b) == o[k].0 by {
                    if k < old_out.len() {
                        assert(o.take(k) == old_out.take(k));
                        assert(o.take(k + 1) == old_out.take(k + 1));
                        assert(o[k] == old_out[k]);
                    }
                }
                assert forall|k: int| 0 < k < o.len() implies #[trigger] is_endpoint(rs, piece_start(start, o, k)) by {
                    if k < old_out.len() {
                        assert(o.take(k) == old_out.take(k));
                        assert(is_endpoint(rs, piece_start(start, old_out, k)));
                    }
                }
                assert forall|k: int| 0 < k < o.len() implies (#[trigger] o[k]).0 != o[k - 1].0 by {
                    if k < old_out.len() {
                        assert(o[k] == old_out[k]);
                        assert(o[k - 1] == old_out[k - 1]);
                    } else {
                        assert(o[k - 1] == old_out.last());
                    }
                }
                assert forall|k: int| 0 <= k < o.len() implies (#[trigger] o[k]).1.bytes > 0 by {
                    if k < old_out.len() {
                        assert(o[k] == old_out[k]);
                    }
                }
                assert(0u8 & 7 == 0u8) by (bit_vector);
                assert forall|k: int| 0 <= k < o.len() implies (#[trigger] o[k]).0.bits & 7 == o[k].0.bits by {
                    if k < old_out.len() {
                        assert(o[k] == old_out[k]);
                    }
                }
                if cur.bytes < end.bytes {
                    if piece_style == no_style() {
                        assert(cur == rs[i as int].start);
                    } else {
                        assert(cur == rs[i - 1].end);
                    }
                }
            }
        }
        proof {
            assert(cur == end);
        }
        out
    }
}

/// Index of the first run that ends after byte offset `b`.
fn first_ending_after(runs: &Vec<StyleRun>, b: usize) -> (r: usize)
    requires
        runs_wf(runs@),
    ensures
        r <= runs@.len(),
        forall|j: int| 0 <= j < r ==> (#[trigger] runs@[j]).end.bytes <= b,
        r < runs@.len() ==> b < runs@[r as int].end.bytes,
{
    let mut lo: usize = 0;
    let mut hi: usize = runs.len();
    while lo < hi
        invariant
            0 <= lo <= hi <= runs@.len(),
            runs_wf(runs@),
            forall|j: int| 0 <= j < lo ==> (#[trigger] runs@[j]).end.bytes <= b,
            forall|j: int| hi <= j < runs@.len() ==> b < (#[trigger] runs@[j]).end.bytes,
        decreases hi - lo,
    {
        let mid = lo + (hi - lo) / 2;
        if runs[mid].end.bytes <= b {
            proof {
                assert forall|j: int| 0 <= j < mid + 1 implies (#[trigger] runs@[j]).end.bytes <= b by {
                    if j < mid {
                        assert(ordered(runs@[j].end, runs@[mid as int].start));
                    }
                }
            }
            lo = mid + 1;
        } else {
            proof {
                assert forall|j: int| mid <= j < runs@.len() implies b < (#[trigger] runs@[j]).end.bytes by {
                    if j > mid {
                        assert(ordered(runs@[mid as int].end, runs@[j].start));
                    }
                }
            }
            hi = mid;
        }
    }
    lo
}

/// The run that covers a byte offset gives the style there.
pub proof fn lemma_style_at_covered(runs: Seq<StyleRun>, i: int, b: int)
    requires
        runs_wf(runs),
        covers(runs, i, b),
    ensures
        style_at(runs, b) == runs[i].style,
{
    let j = choose|j: int| covers(runs, j, b);
    if j < i {
        assert(ordered(runs[j].end, runs[i].start));
    } else if j > i {
        assert(ordered(runs[i].end, runs[j].start));
    }
}

} // verus!
