//! Builds the canonical text of a chapter and its style index from what the
//! book reader hands over, one piece of content at a time. Line breaks end
//! paragraphs, which the text separates with one line feed; the white space
//! that markup leaves inside text is collapsed, so that line feeds in the
//! canonical text are paragraph breaks only.
use vstd::prelude::*;
use vstd::std_specs::iter::IteratorSpec;
use vstd::string::StringSliceAdditionalSpecFns;

use crate::backend::{lemma_positions_ordered, runs_in, Backend};
use crate::position::{
    char_width, lemma_byte_offset_prefix, lemma_str_len, lemma_utf8_len_first, utf8_len,
    utf8_width, Len,
};
use crate::style::{with_run, Style, StyleRun, Styling, StylingBuilder};

verus! {

broadcast use vstd::string::group_string_axioms;

/// One event of a walk over a chapter, in document order.
pub enum Content<'a> {
    Title,
    Text(Style, &'a str),
    Linebreak,
    Image,
}

/// Alignment forced on a block.
#[derive(Debug, Copy, Clone, PartialEq, Eq, Structural)]
pub enum Align {
    Left,
    Right,
    Center,
}

/// What a block of the chapter is.
#[derive(Debug, Copy, Clone, PartialEq, Eq, Structural)]
pub enum Kind {
    Header,
    Paragraph,
    Quote,
}

/// A block of the chapter: a range of its text, its kind and its alignment.
pub struct Block {
    pub range: core::ops::Range<Len>,
    pub kind: Kind,
    pub align: Option<Align>,
}

impl Block {
    pub fn new(range: core::ops::Range<Len>, kind: Kind, align: Option<Align>) -> (r: Block)
        ensures
            r.range == range,
            r.kind == kind,
            r.align == align,
    {
        Block { range, kind, align }
    }
}

/// ASCII white space: space, tab, line feed, vertical tab, form feed and
/// carriage return.
pub open spec fn ascii_space(c: char) -> bool {
    c == ' ' || c == '\t' || c == '\n' || c == '\u{0B}' || c == '\u{0C}' || c == '\r'
}

/// What one character of the source adds to the canonical text `t`: ASCII
/// white space becomes one plain space, none at the start of the text or of a
/// paragraph or after another space; an em dash becomes two hyphens; an
/// ellipsis becomes three full stops; anything else, a no-break space too,
/// stays.
pub open spec fn canonical_step(t: Seq<char>, c: char) -> Seq<char> {
    if ascii_space(c) {
        if t.len() == 0 || t.last() == ' ' || t.last() == '\n' {
            t
        } else {
            t.push(' ')
        }
    } else if c == '\u{2014}' {
        t + seq!['-', '-']
    } else if c == '\u{2026}' {
        t + seq!['.', '.', '.']
    } else {
        t.push(c)
    }
}

/// The canonical text `t` with the source characters `s` appended.
pub open spec fn canonical_append(t: Seq<char>, s: Seq<char>) -> Seq<char>
    decreases s.len(),
{
    if s.len() == 0 {
        t
    } else {
        canonical_append(canonical_step(t, s[0]), s.drop_first())
    }
}

/// The chapter so far.
pub struct ChapterView {
    pub text: Seq<char>,
    pub styles: Seq<StyleRun>,
    pub pending_break: bool,
}

/// The canonical text of `view` with one more piece of content: text is
/// appended after a paragraph break if one is pending and the text is not
/// empty; a line break marks a paragraph break as pending; titles and images
/// add nothing.
pub open spec fn text_after(view: ChapterView, s: Seq<char>) -> Seq<char> {
    canonical_append(text_base(view), s)
}

/// The text that new text is appended to: the text so far, with a paragraph
/// break if one is pending and the text is not empty.
pub open spec fn text_base(view: ChapterView) -> Seq<char> {
    if view.pending_break && view.text.len() > 0 {
        view.text.push('\n')
    } else {
        view.text
    }
}

/// Collects a chapter's text and styles.
pub struct ChapterBuilder {
    chars: Vec<char>,
    bytes: usize,
    styling: StylingBuilder,
    pending_break: bool,
}

impl View for ChapterBuilder {
    type V = ChapterView;

    closed spec fn view(&self) -> ChapterView {
        ChapterView { text: self.chars@, styles: self.styling@, pending_break: self.pending_break }
    }
}

impl ChapterBuilder {
    pub closed spec fn wf(&self) -> bool {
        &&& self.bytes == utf8_len(self.chars@)
        &&& runs_in(self.styling@, self.chars@)
    }

    pub fn new() -> (r: ChapterBuilder)
        ensures
            r.wf(),
            r@.text.len() == 0,
            r@.styles.len() == 0,
            !r@.pending_break,
    {
        ChapterBuilder { chars: Vec::new(), bytes: 0, styling: Styling::builder(), pending_break: false }
    }

    /// Byte length of the text so far.
    pub fn byte_len(&self) -> (r: usize)
        requires
            self.wf(),
        ensures
            r == utf8_len(self@.text),
    {
        self.bytes
    }

    /// Adds one piece of content. The canonical text is not the plain
    /// concatenation of the text events: text starts a new paragraph, after
    /// one line feed, when a line break came before it and the text is not
    /// empty; within text every run of ASCII white space (space, tab, line
    /// feed, vertical tab, form feed, carriage return) becomes one plain space,
    /// and none is kept at the start of the text or of a paragraph or after
    /// another space; an em dash becomes `--` and an ellipsis `...`. Other
    /// characters, no-break spaces among them, are kept. The text added gets
    /// the piece's style over its whole range.
    pub fn add(&mut self, content: Content)
        requires
            old(self).wf(),
            content matches Content::Text(_, s) ==> utf8_len(old(self)@.text) + s.spec_bytes().len() + 1 < usize::MAX,
            content matches Content::Text(st, _) ==> st.bits & 7 == st.bits,
        ensures
            final(self).wf(),
            match content {
                Content::Text(style, s) => {
                    let base = text_base(old(self)@);
                    let text = text_after(old(self)@, s@);
                    &&& final(self)@.text == text
                    &&& final(self)@.styles == with_run(
                        old(self)@.styles,
                        style,
                        Len::at(text, base.len() as int),
                        Len::at(text, text.len() as int),
                    )
                    &&& !final(self)@.pending_break
                }
                Content::Linebreak => final(self)@ == ChapterView { pending_break: true, ..old(self)@ },
                _ => final(self)@ == old(self)@,
            },
    {
        match content {
            Content::Text(style, s) => {
                proof {
                    lemma_str_len(s);
                }
                if self.pending_break && self.chars.len() > 0 {
                    proof {
                        assert(self.chars@.push('\n').take(self.chars@.len() as int) =~= self.chars@);
                        lemma_prefix_positions(self.styling@, self.chars@, self.chars@.push('\n'));
                        assert(self.chars@.push('\n').drop_last() =~= self.chars@);
                    }
                    self.chars.push('\n');
                    self.bytes = self.bytes + 1;
                }
                self.pending_break = false;
                let start = Len { bytes: self.bytes, chars: self.chars.len() };
                proof {
                    assert(self.chars@.take(self.chars@.len() as int) =~= self.chars@);
                }
                self.append_canonical(s);
                let end = Len { bytes: self.bytes, chars: self.chars.len() };
                proof {
                    assert(self.chars@.take(self.chars@.len() as int) =~= self.chars@);
                    lemma_positions_ordered(self.chars@, start, end);
                    let runs = self.styling@;
                    if runs.len() > 0 {
                        lemma_positions_ordered(self.chars@, runs.last().end, start);
                    }
                }
                self.styling.add(style, start..end);
                proof {
                    let runs = self.styling@;
                    assert forall|i: int| 0 <= i < runs.len() implies (#[trigger] runs[i]).start.is_pos_in(
                        self.chars@,
                    ) && runs[i].end.is_pos_in(self.chars@) by {}
                }
            },
            Content::Linebreak => {
                self.pending_break = true;
            },
            _ => {},
        }
    }

    /// Appends the canonical form of `s`.
    fn append_canonical(&mut self, s: &str)
        requires
            old(self).wf(),
            utf8_len(old(self)@.text) + utf8_len(s@) < usize::MAX,
        ensures
            final(self).wf(),
            final(self)@.text == canonical_append(old(self)@.text, s@),
            final(self)@.styles == old(self)@.styles,
            final(self)@.pending_break == old(self)@.pending_break,
            old(self)@.text.len() <= final(self)@.text.len(),
            final(self)@.text.take(old(self)@.text.len() as int) == old(self)@.text,
    {
        let ghost t0 = self.chars@;
        let mut it = s.chars();
        let ghost mut rest = s@;
        loop
            invariant
                self.wf(),
                it.remaining() == rest,
                canonical_append(self.chars@, rest) == canonical_append(t0, s@),
                utf8_len(self.chars@) + utf8_len(rest) < usize::MAX,
                self.styling@ == old(self).styling@,
                self.pending_break == old(self).pending_break,
                t0.len() <= self.chars@.len(),
                self.chars@.take(t0.len() as int) == t0,
            ensures
                self.wf(),
                self.chars@ == canonical_append(t0, s@),
                self.styling@ == old(self).styling@,
                self.pending_break == old(self).pending_break,
                t0.len() <= self.chars@.len(),
                self.chars@.take(t0.len() as int) == t0,
            decreases rest.len(),
        {
            let next = it.next();
            let c = match next {
                Some(c) => c,
                None => {
                    proof {
                        assert(rest.len() == 0);
                        assert(canonical_append(self.chars@, rest) == self.chars@);
                    }
                    break;
                },
            };
            proof {
                lemma_utf8_len_first(rest);
                assert(rest[0] == c);
                assert(canonical_append(self.chars@, rest) == canonical_append(
                    canonical_step(self.chars@, c),
                    rest.drop_first(),
                ));
            }
            let ghost before = self.chars@;
            self.append_char(c);
            proof {
                rest = rest.drop_first();
                assert(self.chars@.take(t0.len() as int) =~= t0) by {
                    assert(before.take(t0.len() as int) == t0);
                    assert(self.chars@.take(before.len() as int) == before);
                }
            }
        }
    }

    /// Appends the canonical form of one character.
    fn append_char(&mut self, c: char)
        requires
            old(self).wf(),
            utf8_len(old(self)@.text) + char_width(c) < usize::MAX,
        ensures
            final(self).wf(),
            final(self)@.text == canonical_step(old(self)@.text, c),
            utf8_len(final(self)@.text) <= utf8_len(old(self)@.text) + char_width(c),
            final(self)@.styles == old(self)@.styles,
            final(self)@.pending_break == old(self)@.pending_break,
            final(self)@.text.take(old(self)@.text.len() as int) == old(self)@.text,
    {
        let ghost t = self.chars@;
        if c == ' ' || c == '\t' || c == '\n' || c == '\u{0B}' || c == '\u{0C}' || c == '\r' {
            let n = self.chars.len();
            if n == 0 || self.chars[n - 1] == ' ' || self.chars[n - 1] == '\n' {
                proof {
                    assert(t.take(t.len() as int) =~= t);
                }
                return ;
            }
            self.push_plain(' ');
        } else if c == '\u{2014}' {
            self.push_plain('-');
            self.push_plain('-');
            proof {
                assert(self.chars@ =~= t + seq!['-', '-']);
            }
        } else if c == '\u{2026}' {
            self.push_plain('.');
            self.push_plain('.');
            self.push_plain('.');
            proof {
                assert(self.chars@ =~= t + seq!['.', '.', '.']);
            }
        } else {
            self.push_plain(c);
        }
        proof {
            assert(self.chars@.take(t.len() as int) =~= t);
        }
    }

    /// Appends `c` as it is.
    fn push_plain(&mut self, c: char)
        requires
            old(self).wf(),
            utf8_len(old(self)@.text) + char_width(c) <= usize::MAX,
        ensures
            final(self).wf(),
            final(self)@.text == old(self)@.text.push(c),
            utf8_len(final(self)@.text) == utf8_len(old(self)@.text) + char_width(c),
            final(self)@.styles == old(self)@.styles,
            final(self)@.pending_break == old(self)@.pending_break,
    {
        proof {
            assert(self.chars@.push(c).take(self.chars@.len() as int) =~= self.chars@);
            lemma_prefix_positions(self.styling@, self.chars@, self.chars@.push(c));
            assert(self.chars@.push(c).drop_last() =~= self.chars@);
        }
        self.chars.push(c);
        self.bytes = self.bytes + utf8_width(c);
    }

    /// The finished chapter, ready for typing.
    pub fn build(self) -> (r: Backend)
        requires
            self.wf(),
        ensures
            r.wf(),
            r@.wf(),
            r@.text == self@.text,
            r@.styles == self@.styles,
            r@.typed.len() == 0,
            r@.cursor == Len::at(self@.text, 0),
            r@.errors.len() == 0,
            r@.deleted.len() == 0,
    {
        let text = string_from_chars(&self.chars);
        Backend::new(text, self.chars, self.styling.build())
    }
}

/// Relies on `String`'s `FromIterator<char>`: the string holds the characters
/// in order.
#[verifier::external_body]
fn string_from_chars(chars: &Vec<char>) -> (r: String)
    ensures
        r@ == chars@,
{
    chars.iter().collect()
}

/// Positions of a text stay positions when the text grows at its end.
proof fn lemma_prefix_positions(runs: Seq<StyleRun>, t: Seq<char>, u: Seq<char>)
    requires
        runs_in(runs, t),
        t.len() <= u.len(),
        u.take(t.len() as int) == t,
    ensures
        runs_in(runs, u),
{
    assert forall|i: int| 0 <= i < runs.len() implies (#[trigger] runs[i]).start.is_pos_in(u)
        && runs[i].end.is_pos_in(u) by {
        lemma_byte_offset_prefix(t, u, runs[i].start.chars as int);
        lemma_byte_offset_prefix(t, u, runs[i].end.chars as int);
    }
}

} // verus!
