//! The chapter text wrapped into virtual lines at a fixed width.
use vstd::prelude::*;
use vstd::std_specs::iter::IteratorSpec;

use crate::position::{byte_offset, lemma_byte_offset_mono, lemma_byte_offset_step, utf8_len, utf8_width, Len};

verus! {

broadcast use vstd::string::group_string_axioms;

/// What ends a virtual line: a wrap inside a paragraph, a paragraph break of
/// the text, or the end of the text.
#[derive(Debug, Copy, Clone, PartialEq, Eq, Structural)]
pub enum Linebreak {
    Wrapped,
    Existing,
    Eof,
}

/// One row of wrapped text. `line` counts rows, with a blank row after each
/// paragraph break; `start..end` is the text of the row and `separator_len`
/// what follows it up to the next row.
#[derive(Debug, Copy, Clone, PartialEq, Eq, Structural)]
pub struct VirtualLine {
    pub line: usize,
    pub start: Len,
    pub end: Len,
    pub separator_len: Len,
    pub linebreak: Linebreak,
}

/// A virtual line in characters: its row number, the character indices where
/// its text starts and ends, the length of its separator, and its kind.
pub struct LineModel {
    pub line: nat,
    pub start: nat,
    pub end: nat,
    pub sep: nat,
    pub kind: Linebreak,
}

/// The lines that textwrap's `wrap` makes of `text` at `width` columns,
/// wrapping greedily at ASCII spaces only.
pub uninterp spec fn wrap_of(text: Seq<char>, width: nat) -> Seq<Seq<char>>;

/// Index of the first character at or after `a` that is not a plain space.
pub open spec fn spaces_end(t: Seq<char>, a: int) -> int
    decreases t.len() - a,
{
    if 0 <= a < t.len() && t[a] == ' ' {
        spaces_end(t, a + 1)
    } else {
        a
    }
}

/// A paragraph break follows the spaces after `a`.
pub open spec fn breaks_at(t: Seq<char>, a: int) -> bool {
    let e = spaces_end(t, a);
    0 <= e < t.len() && t[e] == '\n'
}

/// The separator after a line that ends at `a`: the spaces there and, if a
/// paragraph break follows them, that break.
pub open spec fn sep_end(t: Seq<char>, a: int) -> int {
    if breaks_at(t, a) {
        spaces_end(t, a) + 1
    } else {
        spaces_end(t, a)
    }
}

/// Row number after `line` and a line whose separator is a paragraph break or not.
pub open spec fn next_row(line: nat, existing: bool) -> nat {
    let n = if existing { line + 2 } else { line + 1 };
    if n > usize::MAX { usize::MAX as nat } else { n }
}

/// The lines laid out from fragment `i` on, the text from character `pos`
/// on, the first of them on row `line`. Each fragment but the last takes as
/// many characters as it has, up to the end of the text, then its separator;
/// the last line takes the rest of the text.
pub open spec fn layout_from(t: Seq<char>, frags: Seq<Seq<char>>, i: nat, pos: nat, line: nat) -> Seq<LineModel>
    decreases frags.len() - i,
{
    if i + 1 >= frags.len() {
        seq![LineModel { line, start: pos, end: t.len(), sep: 0, kind: Linebreak::Eof }]
    } else {
        let end = if pos + frags[i as int].len() <= t.len() { pos + frags[i as int].len() } else { t.len() };
        let se = sep_end(t, end as int);
        let existing = breaks_at(t, end as int);
        let kind = if existing { Linebreak::Existing } else { Linebreak::Wrapped };
        seq![LineModel { line, start: pos, end, sep: (se - end) as nat, kind }] + layout_from(
            t,
            frags,
            i + 1,
            se as nat,
            next_row(line, existing),
        )
    }
}

/// The layout of text `t` along the wrapped fragments `frags`.
pub open spec fn layout_of(t: Seq<char>, frags: Seq<Seq<char>>) -> Seq<LineModel> {
    layout_from(t, frags, 0, 0, 0)
}

/// `vl` is the line `m` of text `t`, with byte offsets filled in.
pub open spec fn line_matches(vl: VirtualLine, m: LineModel, t: Seq<char>) -> bool {
    &&& vl.line == m.line
    &&& vl.start == Len::at(t, m.start as int)
    &&& vl.end == Len::at(t, m.end as int)
    &&& vl.separator_len.chars == m.sep
    &&& vl.separator_len.bytes == byte_offset(t, (m.end + m.sep) as int) - byte_offset(t, m.end as int)
    &&& vl.linebreak == m.kind
}

/// `lines` is the layout `ms` of text `t`.
pub open spec fn lines_match(lines: Seq<VirtualLine>, ms: Seq<LineModel>, t: Seq<char>) -> bool {
    &&& lines.len() == ms.len()
    &&& forall|k: int| 0 <= k < lines.len() ==> line_matches(#[trigger] lines[k], ms[k], t)
}

/// Relies on `textwrap::wrap` with a greedy (first-fit) wrap that breaks only
/// at ASCII spaces, never inside a word nor after a hyphen: the lines depend on
/// the text and the width alone.
#[verifier::external_body]
pub(crate) fn wrap_lines(text: &str, width: usize) -> (r: Vec<Vec<char>>)
    requires
        width > 0,
    ensures
        r@.map_values(|l: Vec<char>| l@) == wrap_of(text@, width as nat),
{
    let options = textwrap::Options::new(width)
        .wrap_algorithm(textwrap::WrapAlgorithm::FirstFit)
        .word_separator(textwrap::WordSeparator::AsciiSpace)
        .word_splitter(textwrap::WordSplitter::NoHyphenation)
        .break_words(false);
    textwrap::wrap(text, options).iter().map(|l| l.chars().collect()).collect()
}

/// The characters of `s`.
pub fn chars_of(s: &str) -> (r: Vec<char>)
    ensures
        r@ == s@,
{
    let mut out: Vec<char> = Vec::new();
    let mut it = s.chars();
    let ghost mut rest = s@;
    loop
        invariant
            it.remaining() == rest,
            out@ + rest == s@,
        ensures
            out@ == s@,
        decreases rest.len(),
    {
        match it.next() {
            Some(c) => {
                proof {
                    assert(out@.push(c) + rest.drop_first() =~= out@ + rest);
                    rest = rest.drop_first();
                }
                out.push(c);
            },
            None => {
                proof {
                    assert(out@ + rest =~= out@);
                }
                break ;
            },
        }
    }
    out
}

/// Wraps `text` at `width` columns into virtual lines.
pub fn wrap_text(text: &str, width: u16) -> (r: Vec<VirtualLine>)
    requires
        width > 0,
    ensures
        lines_match(r@, layout_of(text@, wrap_of(text@, width as nat)), text@),
{
    let byte_len = text.as_bytes().len();
    proof {
        crate::position::lemma_str_len(text);
        assert(byte_len == utf8_len(text@));
    }
    let frags = wrap_lines(text, width as usize);
    let chars = chars_of(text);
    lay_out(&chars, &frags)
}

/// Lays `text` out along the fragments `frags`, recovering each line's place
/// by counting characters from the start of the text.
pub fn lay_out(text: &Vec<char>, frags: &Vec<Vec<char>>) -> (r: Vec<VirtualLine>)
    requires
        utf8_len(text@) <= usize::MAX,
    ensures
        lines_match(r@, layout_of(text@, frags@.map_values(|l: Vec<char>| l@)), text@),
{
    let ghost t = text@;
    let ghost fs = frags@.map_values(|l: Vec<char>| l@);
    let n = text.len();
    proof {
        assert(t.take(n as int) =~= t);
        lemma_byte_offset_mono(t, 0, n as int);
        assert(t.take(0).len() == 0);
    }
    let mut lines: Vec<VirtualLine> = Vec::new();
    let ghost mut ms: Seq<LineModel> = Seq::empty();
    let mut i: usize = 0;
    let mut pos = Len { bytes: 0, chars: 0 };
    let mut line_number: usize = 0;
    while i < frags.len() && frags.len() - i > 1
        invariant
            t == text@,
            fs == frags@.map_values(|l: Vec<char>| l@),
            n == t.len(),
            byte_offset(t, n as int) <= usize::MAX,
            i <= frags.len(),
            pos == Len::at(t, pos.chars as int),
            pos.chars <= n,
            lines_match(lines@, ms, t),
            ms + layout_from(t, fs, i as nat, pos.chars as nat, line_number as nat) == layout_of(t, fs),
        decreases frags.len() - i,
    {
        let flen = frags[i].len();
        let end_chars = if flen <= n - pos.chars {
            pos.chars + flen
        } else {
            n
        };
        let end = advance(text, pos, end_chars);
        let mut j = end.chars;
        while j < n && text[j] == ' '
            invariant
                end.chars <= j <= n == t.len(),
                t == text@,
                spaces_end(t, end.chars as int) == spaces_end(t, j as int),
            decreases n - j,
        {
            j = j + 1;
        }
        let existing = j < n && text[j] == '\n';
        if existing {
            j = j + 1;
        }
        proof {
            lemma_byte_offset_mono(t, end.chars as int, j as int);
            lemma_byte_offset_mono(t, j as int, n as int);
            lemma_byte_offset_mono(t, end.chars as int, n as int);
        }
        let next = advance(text, end, j);
        let kind = if existing {
            Linebreak::Existing
        } else {
            Linebreak::Wrapped
        };
        let ghost old_lines = lines@;
        let vl = VirtualLine {
            line: line_number,
            start: pos,
            end,
            separator_len: next.sub(end),
            linebreak: kind,
        };
        let ghost m = LineModel {
            line: line_number as nat,
            start: pos.chars as nat,
            end: end.chars as nat,
            sep: (j - end.chars) as nat,
            kind,
        };
        proof {
            assert(fs[i as int] == frags@[i as int]@);
            assert(layout_from(t, fs, i as nat, pos.chars as nat, line_number as nat) == seq![m]
                + layout_from(t, fs, (i + 1) as nat, j as nat, next_row(line_number as nat, existing)));
            assert(ms.push(m) + layout_from(t, fs, (i + 1) as nat, j as nat, next_row(line_number as nat, existing))
                =~= ms + (seq![m] + layout_from(t, fs, (i + 1) as nat, j as nat, next_row(line_number as nat, existing))));
            ms = ms.push(m);
        }
        lines.push(vl);
        line_number = if existing {
            if line_number <= usize::MAX - 2 {
                line_number + 2
            } else {
                usize::MAX
            }
        } else {
            if line_number < usize::MAX {
                line_number + 1
            } else {
                usize::MAX
            }
        };
        pos = next;
        i = i + 1;
        proof {
            assert(line_matches(vl, m, t));
            assert forall|k: int| 0 <= k < lines@.len() implies line_matches(#[trigger] lines@[k], ms[k], t) by {
                if k < old_lines.len() {
                    assert(lines@[k] == old_lines[k]);
                }
            }
        }
    }
    let ghost old_lines = lines@;
    let last_end = advance(text, pos, n);
    let vl = VirtualLine {
        line: line_number,
        start: pos,
        end: last_end,
        separator_len: Len { bytes: 0, chars: 0 },
        linebreak: Linebreak::Eof,
    };
    let ghost m = LineModel { line: line_number as nat, start: pos.chars as nat, end: n as nat, sep: 0, kind: Linebreak::Eof };
    proof {
        assert(layout_from(t, fs, i as nat, pos.chars as nat, line_number as nat) == seq![m]);
        assert(ms.push(m) =~= ms + seq![m]);
        ms = ms.push(m);
    }
    lines.push(vl);
    proof {
        assert(line_matches(vl, m, t));
        assert forall|k: int| 0 <= k < lines@.len() implies line_matches(#[trigger] lines@[k], ms[k], t) by {
            if k < old_lines.len() {
                assert(lines@[k] == old_lines[k]);
            }
        }
    }
    lines
}

/// The position of character index `to`, counted on from `from`.
fn advance(text: &Vec<char>, from: Len, to: usize) -> (r: Len)
    requires
        from == Len::at(text@, from.chars as int),
        from.chars <= to <= text@.len(),
        byte_offset(text@, text@.len() as int) <= usize::MAX,
    ensures
        r == Len::at(text@, to as int),
{
    let ghost t = text@;
    let mut p = from;
    while p.chars < to
        invariant
            t == text@,
            p == Len::at(t, p.chars as int),
            p.chars <= to <= t.len(),
            byte_offset(t, t.len() as int) <= usize::MAX,
        decreases to - p.chars,
    {
        proof {
            lemma_byte_offset_step(t, p.chars as int);
            lemma_byte_offset_mono(t, p.chars + 1, t.len() as int);
        }
        p = Len { bytes: p.bytes + utf8_width(text[p.chars]), chars: p.chars + 1 };
    }
    p
}

/// The text of line `m` followed by its separator.
pub open spec fn line_piece(t: Seq<char>, m: LineModel) -> Seq<char> {
    t.subrange(m.start as int, (m.end + m.sep) as int)
}

/// Line `k + 1` starts where line `k` and its separator end.
pub open spec fn joins(ls: Seq<LineModel>, k: int) -> bool {
    ls[k].end + ls[k].sep == ls[k + 1].start
}

/// The lines follow each other from the start of `t` to its end, without gap
/// or overlap, and the last one ends the text.
pub open spec fn contiguous_from(t: Seq<char>, ls: Seq<LineModel>, pos: nat) -> bool {
    &&& ls.len() > 0
    &&& ls[0].start == pos
    &&& forall|k: int| 0 <= k < ls.len() ==> (#[trigger] ls[k]).start <= ls[k].end && ls[k].end + ls[k].sep <= t.len()
    &&& forall|k: int| 0 <= k < ls.len() - 1 ==> #[trigger] joins(ls, k)
    &&& ls.last().end + ls.last().sep == t.len()
    &&& ls.last().sep == 0
    &&& ls.last().kind == Linebreak::Eof
}

/// The pieces of the lines, in order.
pub open spec fn pieces(t: Seq<char>, ls: Seq<LineModel>) -> Seq<Seq<char>> {
    ls.map_values(|m: LineModel| line_piece(t, m))
}

proof fn lemma_spaces_end(t: Seq<char>, a: int)
    requires
        0 <= a <= t.len(),
    ensures
        a <= spaces_end(t, a) <= t.len(),
        a <= sep_end(t, a) <= t.len(),
    decreases t.len() - a,
{
    if a < t.len() && t[a] == ' ' {
        lemma_spaces_end(t, a + 1);
    }
}

proof fn lemma_layout_from_contiguous(t: Seq<char>, frags: Seq<Seq<char>>, i: nat, pos: nat, line: nat)
    requires
        pos <= t.len(),
    ensures
        contiguous_from(t, layout_from(t, frags, i, pos, line), pos),
    decreases frags.len() - i,
{
    let ls = layout_from(t, frags, i, pos, line);
    if i + 1 < frags.len() {
        let end = if pos + frags[i as int].len() <= t.len() { pos + frags[i as int].len() } else { t.len() };
        lemma_spaces_end(t, end as int);
        let se = sep_end(t, end as int);
        let existing = breaks_at(t, end as int);
        let rest = layout_from(t, frags, i + 1, se as nat, next_row(line, existing));
        lemma_layout_from_contiguous(t, frags, i + 1, se as nat, next_row(line, existing));
        assert(ls == seq![ls[0]] + rest);
        assert forall|k: int| 0 <= k < ls.len() implies (#[trigger] ls[k]).start <= ls[k].end && ls[k].end
            + ls[k].sep <= t.len() by {
            if k > 0 {
                assert(ls[k] == rest[k - 1]);
            }
        }
        assert forall|k: int| 0 <= k < ls.len() - 1 implies #[trigger] joins(ls, k) by {
            if k > 0 {
                assert(ls[k] == rest[k - 1]);
                assert(ls[k + 1] == rest[k]);
                assert(joins(rest, k - 1));
            } else {
                assert(ls[1] == rest[0]);
            }
        }
        assert(ls.last() == rest.last());
    }
}

proof fn lemma_layout_from_pieces(t: Seq<char>, frags: Seq<Seq<char>>, i: nat, pos: nat, line: nat)
    requires
        pos <= t.len(),
    ensures
        pieces(t, layout_from(t, frags, i, pos, line)).flatten() == t.subrange(pos as int, t.len() as int),
    decreases frags.len() - i,
{
    let ls = layout_from(t, frags, i, pos, line);
    let p = pieces(t, ls);
    if i + 1 >= frags.len() {
        assert(p.drop_first() =~= Seq::<Seq<char>>::empty());
        assert(p.drop_first().flatten() =~= Seq::<char>::empty());
        assert(p.flatten() =~= p[0]);
    } else {
        let end = if pos + frags[i as int].len() <= t.len() { pos + frags[i as int].len() } else { t.len() };
        lemma_spaces_end(t, end as int);
        let se = sep_end(t, end as int);
        let existing = breaks_at(t, end as int);
        let rest = layout_from(t, frags, i + 1, se as nat, next_row(line, existing));
        lemma_layout_from_pieces(t, frags, i + 1, se as nat, next_row(line, existing));
        assert(ls == seq![ls[0]] + rest);
        assert(p.drop_first() =~= pieces(t, rest));
        assert(p[0] == t.subrange(pos as int, se));
        assert(t.subrange(pos as int, t.len() as int) =~= t.subrange(pos as int, se) + t.subrange(se, t.len() as int));
    }
}

/// A layout covers its text: for any fragments, the lines follow each other
/// from the start of the text to its end without gap or overlap, and the text
/// of each line followed by its separator, taken in order, is the whole text
/// again.
pub proof fn lemma_layout_covers(t: Seq<char>, frags: Seq<Seq<char>>)
    ensures
        contiguous_from(t, layout_of(t, frags), 0),
        pieces(t, layout_of(t, frags)).flatten() == t,
{
    lemma_layout_from_contiguous(t, frags, 0, 0, 0);
    lemma_layout_from_pieces(t, frags, 0, 0, 0);
    assert(t.subrange(0, t.len() as int) =~= t);
}

/// The layout of a text wrapped at any width covers the text exactly.
pub proof fn lemma_wrapped_layout_covers(t: Seq<char>, width: nat)
    requires
        width > 0,
    ensures
        contiguous_from(t, layout_of(t, wrap_of(t, width)), 0),
        pieces(t, layout_of(t, wrap_of(t, width))).flatten() == t,
{
    lemma_layout_covers(t, wrap_of(t, width));
}

/// Each line of a layout starts at or after where the one before it ends, its
/// row number is at least the one before, and it is a position of the text.
pub open spec fn layout_sorted(ls: Seq<LineModel>) -> bool {
    forall|j: int, k: int|
        #![trigger ls[j], ls[k]]
        0 <= j < k < ls.len() ==> ls[j].end <= ls[k].start && ls[j].line <= ls[k].line && ls[j].end <= ls[k].end
}

proof fn lemma_layout_from_sorted(t: Seq<char>, frags: Seq<Seq<char>>, i: nat, pos: nat, line: nat)
    requires
        pos <= t.len(),
        line <= usize::MAX,
    ensures
        layout_sorted(layout_from(t, frags, i, pos, line)),
        forall|k: int|
            0 <= k < layout_from(t, frags, i, pos, line).len() ==> (#[trigger] layout_from(t, frags, i, pos, line)[k]).line
                >= line && layout_from(t, frags, i, pos, line)[k].start >= pos && layout_from(t, frags, i, pos, line)[k].line
                <= usize::MAX,
    decreases frags.len() - i,
{
    let ls = layout_from(t, frags, i, pos, line);
    lemma_layout_from_contiguous(t, frags, i, pos, line);
    if i + 1 < frags.len() {
        let end = if pos + frags[i as int].len() <= t.len() { pos + frags[i as int].len() } else { t.len() };
        lemma_spaces_end(t, end as int);
        let se = sep_end(t, end as int);
        let existing = breaks_at(t, end as int);
        let rest = layout_from(t, frags, i + 1, se as nat, next_row(line, existing));
        lemma_layout_from_sorted(t, frags, i + 1, se as nat, next_row(line, existing));
        lemma_layout_from_contiguous(t, frags, i + 1, se as nat, next_row(line, existing));
        assert(ls == seq![ls[0]] + rest);
        assert forall|k: int| 0 <= k < ls.len() implies (#[trigger] ls[k]).line >= line && ls[k].start >= pos
            && ls[k].line <= usize::MAX by {
            if k > 0 {
                assert(ls[k] == rest[k - 1]);
            }
        }
        assert forall|j: int, k: int| #![trigger ls[j], ls[k]] 0 <= j < k < ls.len() implies ls[j].end <= ls[k].start
            && ls[j].line <= ls[k].line && ls[j].end <= ls[k].end by {
            assert(ls[k] == rest[k - 1]);
            assert(rest[k - 1].start <= rest[k - 1].end);
            if j > 0 {
                assert(ls[j] == rest[j - 1]);
            }
        }
    }
}

/// Every layout is sorted: by position and by row number.
pub proof fn lemma_layout_sorted(t: Seq<char>, frags: Seq<Seq<char>>)
    ensures
        layout_sorted(layout_of(t, frags)),
        contiguous_from(t, layout_of(t, frags), 0),
{
    lemma_layout_from_sorted(t, frags, 0, 0, 0);
    lemma_layout_from_contiguous(t, frags, 0, 0, 0);
}

/// The row of the line after line `k` is one more than that of line `k` after
/// a wrap and two more after a paragraph break (short of the largest row).
pub proof fn lemma_layout_row_step(t: Seq<char>, frags: Seq<Seq<char>>, k: int)
    requires
        0 <= k < layout_of(t, frags).len() - 1,
    ensures
        layout_of(t, frags)[k + 1].line == next_row(
            layout_of(t, frags)[k].line,
            layout_of(t, frags)[k].kind == Linebreak::Existing,
        ),
        layout_of(t, frags)[k].kind != Linebreak::Eof,
{
    lemma_layout_from_row_step(t, frags, 0, 0, 0, k);
}

proof fn lemma_layout_from_row_step(t: Seq<char>, frags: Seq<Seq<char>>, i: nat, pos: nat, line: nat, k: int)
    requires
        0 <= k < layout_from(t, frags, i, pos, line).len() - 1,
    ensures
        layout_from(t, frags, i, pos, line)[k + 1].line == next_row(
            layout_from(t, frags, i, pos, line)[k].line,
            layout_from(t, frags, i, pos, line)[k].kind == Linebreak::Existing,
        ),
        layout_from(t, frags, i, pos, line)[k].kind != Linebreak::Eof,
    decreases frags.len() - i,
{
    let ls = layout_from(t, frags, i, pos, line);
    if i + 1 < frags.len() {
        let end = if pos + frags[i as int].len() <= t.len() { pos + frags[i as int].len() } else { t.len() };
        let se = sep_end(t, end as int);
        let existing = breaks_at(t, end as int);
        let rest = layout_from(t, frags, i + 1, se as nat, next_row(line, existing));
        assert(ls == seq![ls[0]] + rest);
        if k > 0 {
            lemma_layout_from_row_step(t, frags, i + 1, se as nat, next_row(line, existing), k - 1);
            assert(ls[k] == rest[k - 1]);
            assert(ls[k + 1] == rest[k]);
        } else {
            assert(ls[1] == rest[0]);
        }
    }
}

} // verus!
