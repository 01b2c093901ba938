//! Positions into a text, counted both in UTF-8 bytes and in characters.
use vstd::prelude::*;
use vstd::string::StringSliceAdditionalSpecFns;

verus! {

/// Number of bytes that the UTF-8 encoding of `c` takes.
pub open spec fn char_width(c: char) -> nat {
    if (c as u32) < 0x80 {
        1
    } else if (c as u32) < 0x800 {
        2
    } else if (c as u32) < 0x10000 {
        3
    } else {
        4
    }
}

/// Number of bytes that the UTF-8 encoding of `s` takes.
pub open spec fn utf8_len(s: Seq<char>) -> nat
    decreases s.len(),
{
    if s.len() == 0 {
        0
    } else {
        utf8_len(s.drop_last()) + char_width(s.last())
    }
}

/// Byte offset of the character index `k` in `s`.
pub open spec fn byte_offset(s: Seq<char>, k: int) -> nat {
    utf8_len(s.take(k))
}

/// A position into a text: a byte offset and a character offset that name the
/// same place. Positions are compared by their byte offset.
#[derive(Debug, Copy, Clone, Default, PartialEq, Eq, Structural)]
pub struct Len {
    pub bytes: usize,
    pub chars: usize,
}

impl Len {
    /// `p` names the place in `s` just before the character with index `p.chars`.
    pub open spec fn is_pos_in(self, s: Seq<char>) -> bool {
        &&& self.chars <= s.len()
        &&& self.bytes == byte_offset(s, self.chars as int)
    }

    /// The position of character index `k` in `s`, as a spec value.
    pub open spec fn at(s: Seq<char>, k: int) -> Len {
        Len { bytes: byte_offset(s, k) as usize, chars: k as usize }
    }

    pub fn new(bytes: usize, chars: usize) -> (r: Len)
        ensures
            r.bytes == bytes,
            r.chars == chars,
    {
        Len { bytes, chars }
    }

    /// Component-wise sum.
    pub fn add(self, other: Len) -> (r: Len)
        requires
            self.bytes + other.bytes <= usize::MAX,
            self.chars + other.chars <= usize::MAX,
        ensures
            r.bytes == self.bytes + other.bytes,
            r.chars == self.chars + other.chars,
    {
        Len { bytes: self.bytes + other.bytes, chars: self.chars + other.chars }
    }

    /// Component-wise difference.
    pub fn sub(self, other: Len) -> (r: Len)
        requires
            other.bytes <= self.bytes,
            other.chars <= self.chars,
        ensures
            r.bytes == self.bytes - other.bytes,
            r.chars == self.chars - other.chars,
    {
        Len { bytes: self.bytes - other.bytes, chars: self.chars - other.chars }
    }

    /// Component-wise minimum, taken by the byte offset.
    pub fn min(self, other: Len) -> (r: Len)
        ensures
            r == (if other.bytes < self.bytes { other } else { self }),
    {
        if other.bytes < self.bytes {
            other
        } else {
            self
        }
    }
}

impl PartialOrd for Len {
    fn partial_cmp(&self, other: &Len) -> (r: Option<core::cmp::Ordering>) {
        if self.bytes < other.bytes {
            Some(core::cmp::Ordering::Less)
        } else if self.bytes == other.bytes {
            Some(core::cmp::Ordering::Equal)
        } else {
            Some(core::cmp::Ordering::Greater)
        }
    }
}

impl vstd::std_specs::cmp::PartialOrdSpecImpl for Len {
    open spec fn obeys_partial_cmp_spec() -> bool {
        true
    }

    open spec fn partial_cmp_spec(&self, other: &Len) -> Option<core::cmp::Ordering> {
        if self.bytes < other.bytes {
            Some(core::cmp::Ordering::Less)
        } else if self.bytes == other.bytes {
            Some(core::cmp::Ordering::Equal)
        } else {
            Some(core::cmp::Ordering::Greater)
        }
    }
}

/// Number of bytes that the UTF-8 encoding of `c` takes.
pub fn utf8_width(c: char) -> (r: usize)
    ensures
        r == char_width(c),
        1 <= r <= 4,
{
    let v = c as u32;
    if v < 0x80 {
        1
    } else if v < 0x800 {
        2
    } else if v < 0x10000 {
        3
    } else {
        4
    }
}

/// The byte offset of one more character is that of the prefix plus the
/// character's width.
pub proof fn lemma_byte_offset_step(s: Seq<char>, k: int)
    requires
        0 <= k < s.len(),
    ensures
        byte_offset(s, k + 1) == byte_offset(s, k) + char_width(s[k]),
{
    assert(s.take(k + 1).drop_last() =~= s.take(k));
}

/// Byte offsets grow with the character index.
pub proof fn lemma_byte_offset_mono(s: Seq<char>, i: int, j: int)
    requires
        0 <= i <= j <= s.len(),
    ensures
        byte_offset(s, i) + (j - i) <= byte_offset(s, j) <= byte_offset(s, i) + 4 * (j - i),
    decreases j - i,
{
    if i < j {
        lemma_byte_offset_mono(s, i, j - 1);
        lemma_byte_offset_step(s, j - 1);
    }
}

/// The byte offsets of a text agree with those of any longer text that starts
/// with it.
pub proof fn lemma_byte_offset_prefix(s: Seq<char>, t: Seq<char>, k: int)
    requires
        0 <= k <= s.len(),
        s.len() <= t.len(),
        s =~= t.take(s.len() as int),
    ensures
        byte_offset(s, k) == byte_offset(t, k),
{
    assert(s.take(k) =~= t.take(k));
}

/// The UTF-8 length of a text is the byte length that vstd gives its encoding.
pub proof fn lemma_utf8_len_encoding(s: Seq<char>)
    ensures
        utf8_len(s) == vstd::utf8::encode_utf8(s).len(),
    decreases s.len(),
{
    if s.len() > 0 {
        let t = s.drop_first();
        lemma_utf8_len_encoding(t);
        lemma_utf8_len_first(s);
        let c = s[0];
        vstd::utf8::char_is_scalar(c);
    }
}

/// The UTF-8 length of a non-empty text is the width of its first character
/// plus the length of the rest.
pub proof fn lemma_utf8_len_first(s: Seq<char>)
    requires
        s.len() > 0,
    ensures
        utf8_len(s) == char_width(s[0]) + utf8_len(s.drop_first()),
    decreases s.len(),
{
    if s.len() > 1 {
        lemma_utf8_len_first(s.drop_last());
        assert(s.drop_last().drop_first() =~= s.drop_first().drop_last());
        assert(s.drop_first().last() == s.last());
        assert(s.drop_last()[0] == s[0]);
        assert(utf8_len(s) == utf8_len(s.drop_last()) + char_width(s.last()));
        assert(utf8_len(s.drop_first()) == utf8_len(s.drop_first().drop_last()) + char_width(
            s.drop_first().last(),
        ));
    } else {
        assert(s.drop_first().len() == 0);
        assert(s.drop_last().len() == 0);
        assert(utf8_len(s.drop_last()) == 0);
        assert(utf8_len(s.drop_first()) == 0);
        assert(s.last() == s[0]);
    }
}

/// Byte offset and character count of the whole text of a `str`.
pub proof fn lemma_str_len(s: &str)
    ensures
        utf8_len(s@) == s.spec_bytes().len(),
        byte_offset(s@, s@.len() as int) == s.spec_bytes().len(),
{
    lemma_utf8_len_encoding(s@);
    assert(s@.take(s@.len() as int) =~= s@);
}

} // verus!
