//! Byte-offset source spans. Only `diag` turns a `Span` into line/column; every other
//! stage treats it as an opaque range to carry along.
//!
//! Offsets count UTF-8 bytes: `byte_len` is the UTF-8 length of a run of characters,
//! and a byte offset into a text is a character boundary when some prefix of the
//! text's characters has exactly that length.

use vstd::prelude::*;
use crate::text::chars_of;

verus! {

/// A half-open byte range `[lo, hi)` into a single `SourceFile`.
#[derive(Debug, Clone, Copy, PartialEq, Eq, Structural, PartialOrd, Ord, Hash)]
pub struct Span {
    pub lo: u32,
    pub hi: u32,
}

/// The number of bytes `c` takes in UTF-8.
pub open spec fn utf8_len(c: char) -> nat {
    if (c as u32) < 0x80 {
        1
    } else if (c as u32) < 0x800 {
        2
    } else if (c as u32) < 0x10000 {
        3
    } else {
        4
    }
}

/// The number of bytes `s` takes in UTF-8.
pub open spec fn byte_len(s: Seq<char>) -> nat
    decreases s.len(),
{
    if s.len() == 0 {
        0
    } else {
        byte_len(s.drop_last()) + utf8_len(s.last())
    }
}

/// The byte offset at which character `i` of `s` starts.
pub open spec fn byte_offset(s: Seq<char>, i: int) -> nat {
    byte_len(s.take(i))
}

/// `b` falls between two characters of `s` (or at either end).
pub open spec fn is_char_boundary(s: Seq<char>, b: int) -> bool {
    exists|i: int| 0 <= i <= s.len() && #[trigger] byte_offset(s, i) == b
}

/// `utf8_len` as `char::len_utf8` computes it.
pub fn char_utf8_len(c: char) -> (n: usize)
    ensures
        n == utf8_len(c),
{
    let v = c as u32;
    if v < 0x80 {
        1
    } else if v < 0x800 {
        2
    } else if v < 0x10000 {
        3
    } else {
        4
    }
}

pub proof fn lemma_byte_offset_step(s: Seq<char>, i: int)
    requires
        0 <= i < s.len(),
    ensures
        byte_offset(s, i + 1) == byte_offset(s, i) + utf8_len(s[i]),
{
    assert(s.take(i + 1).drop_last() =~= s.take(i));
}

/// Byte offsets grow strictly with the character index.
pub proof fn lemma_byte_offset_strict(s: Seq<char>, i: int, j: int)
    requires
        0 <= i < j <= s.len(),
    ensures
        byte_offset(s, i) < byte_offset(s, j),
    decreases j - i,
{
    lemma_byte_offset_step(s, j - 1);
    if i < j - 1 {
        lemma_byte_offset_strict(s, i, j - 1);
    }
}

pub proof fn lemma_byte_offset_all(s: Seq<char>)
    ensures
        byte_offset(s, s.len() as int) == byte_len(s),
{
    assert(s.take(s.len() as int) =~= s);
}

/// A character takes one to four bytes.
pub proof fn lemma_byte_len_le(s: Seq<char>)
    ensures
        s.len() <= byte_len(s) <= 4 * s.len(),
    decreases s.len(),
{
    if s.len() > 0 {
        lemma_byte_len_le(s.drop_last());
    }
}

/// The 1-based (line, column) reached after reading all of `s`.
pub open spec fn spec_line_col(s: Seq<char>) -> (int, int)
    decreases s.len(),
{
    if s.len() == 0 {
        (1, 1)
    } else {
        let (line, col) = spec_line_col(s.drop_last());
        if s.last() == '\n' {
            (line + 1, 1)
        } else {
            (line, col + 1)
        }
    }
}

pub proof fn lemma_line_col_positive(s: Seq<char>)
    ensures
        spec_line_col(s).0 >= 1,
        spec_line_col(s).1 >= 1,
        spec_line_col(s).0 <= s.len() + 1,
        spec_line_col(s).1 <= s.len() + 1,
    decreases s.len(),
{
    if s.len() > 0 {
        lemma_line_col_positive(s.drop_last());
    }
}

/// Counting lines and columns along the first `end` characters of `s` never leaves
/// the `u32` range.
pub open spec fn line_col_fits(s: Seq<char>, end: int) -> bool {
    forall|i: int|
        0 <= i <= end ==> #[trigger] spec_line_col(s.take(i)).0 <= u32::MAX && spec_line_col(
            s.take(i),
        ).1 <= u32::MAX
}

/// The index of the character at which byte offset `b` falls, or the character count
/// when `b` is at or past the end.
pub open spec fn char_index_at(s: Seq<char>, b: int) -> int {
    if b >= byte_len(s) {
        s.len() as int
    } else {
        choose|i: int| 0 <= i <= s.len() && byte_offset(s, i) == b
    }
}

impl Span {
    pub fn new(lo: u32, hi: u32) -> (r: Span)
        requires
            lo <= hi,
        ensures
            r.lo == lo,
            r.hi == hi,
    {
        Span { lo, hi }
    }

    /// The smallest span covering both `self` and `other`.
    pub fn to(self, other: Span) -> (r: Span)
        ensures
            r.lo == (if self.lo <= other.lo {
                self.lo
            } else {
                other.lo
            }),
            r.hi == (if self.hi >= other.hi {
                self.hi
            } else {
                other.hi
            }),
    {
        let lo = if self.lo <= other.lo {
            self.lo
        } else {
            other.lo
        };
        let hi = if self.hi >= other.hi {
            self.hi
        } else {
            other.hi
        };
        Span { lo, hi }
    }
}

/// A single loaded source file, kept alive for the lifetime of a compilation so spans
/// can be resolved back to text.
pub struct SourceFile {
    pub name: String,
    pub text: String,
}

/// Walks the characters of `s` until their UTF-8 length reaches `target`, returning
/// the number of characters walked.
pub fn char_index_of_byte(s: &[char], target: u64) -> (i: usize)
    requires
        target >= byte_len(s@) || is_char_boundary(s@, target as int),
    ensures
        i <= s@.len(),
        i == char_index_at(s@, target as int),
        target >= byte_len(s@) ==> i == s@.len(),
        target < byte_len(s@) ==> byte_offset(s@, i as int) == target,
{
    let mut i: usize = 0;
    let mut bytes: u64 = 0;
    proof {
        lemma_byte_offset_all(s@);
        assert(s@.take(0) =~= Seq::<char>::empty());
    }
    while i < s.len() && bytes < target
        invariant
            i <= s@.len(),
            bytes == byte_offset(s@, i as int),
            bytes <= target,
            target >= byte_len(s@) || is_char_boundary(s@, target as int),
        decreases s@.len() - i,
    {
        proof {
            lemma_byte_offset_step(s@, i as int);
            if target < byte_len(s@) {
                let k = choose|k: int| 0 <= k <= s@.len() && #[trigger] byte_offset(s@, k) == target;
                if k <= i {
                    if k < i {
                        lemma_byte_offset_strict(s@, k, i as int);
                    }
                }
                if i + 1 < k {
                    lemma_byte_offset_strict(s@, i + 1, k);
                }
            } else {
                lemma_byte_offset_all(s@);
                if i + 1 < s@.len() {
                    lemma_byte_offset_strict(s@, i + 1, s@.len() as int);
                }
            }
        }
        bytes = bytes + char_utf8_len(s[i]) as u64;
        i = i + 1;
    }
    proof {
        lemma_byte_offset_all(s@);
        if target >= byte_len(s@) {
            if i < s@.len() {
                lemma_byte_offset_strict(s@, i as int, s@.len() as int);
            }
        } else {
            if i == s@.len() {
                assert(bytes == byte_len(s@));
            }
            let k = choose|k: int| 0 <= k <= s@.len() && byte_offset(s@, k) == target;
            if k < i {
                lemma_byte_offset_strict(s@, k, i as int);
            }
            if i < k {
                lemma_byte_offset_strict(s@, i as int, k);
            }
        }
    }
    i
}

impl SourceFile {
    pub fn new(name: String, text: String) -> (r: SourceFile)
        ensures
            r.name@ == name@,
            r.text@ == text@,
    {
        SourceFile { name, text }
    }

    /// The text `span` covers. Both ends must fall on character boundaries, with
    /// `lo <= hi`, inside the text.
    pub fn slice(&self, span: Span) -> (r: &str)
        requires
            span.lo <= span.hi,
            span.hi <= byte_len(self.text@),
            is_char_boundary(self.text@, span.lo as int),
            is_char_boundary(self.text@, span.hi as int),
        ensures
            r@ == self.text@.subrange(
                char_index_at(self.text@, span.lo as int),
                char_index_at(self.text@, span.hi as int),
            ),
    {
        let chars = chars_of(self.text.as_str());
        let lo = char_index_of_byte(chars.as_slice(), span.lo as u64);
        let hi = char_index_of_byte(chars.as_slice(), span.hi as u64);
        proof {
            if span.hi < byte_len(self.text@) {
                if hi < lo {
                    lemma_byte_offset_strict(self.text@, hi as int, lo as int);
                }
            } else {
                lemma_byte_offset_all(self.text@);
            }
        }
        self.text.as_str().substring_char(lo, hi)
    }

    /// 1-based (line, column) of a byte offset, for diagnostic rendering: lines are
    /// counted by `\n` and columns by characters. An offset past the end counts the
    /// whole text. The offset must fall on a character boundary, and the column must
    /// fit a `u32`.
    pub fn line_col(&self, offset: u32) -> (r: (u32, u32))
        requires
            offset >= byte_len(self.text@) || is_char_boundary(self.text@, offset as int),
            line_col_fits(self.text@, char_index_at(self.text@, offset as int)),
        ensures
            r.0 == spec_line_col(self.text@.take(char_index_at(self.text@, offset as int))).0,
            r.1 == spec_line_col(self.text@.take(char_index_at(self.text@, offset as int))).1,
    {
        let chars = chars_of(self.text.as_str());
        let end = char_index_of_byte(chars.as_slice(), offset as u64);
        line_col_of_prefix(chars.as_slice(), end)
    }
}

/// The (line, column) reached after the first `end` characters of `s`.
pub fn line_col_of_prefix(s: &[char], end: usize) -> (r: (u32, u32))
    requires
        end <= s@.len(),
        line_col_fits(s@, end as int),
    ensures
        r.0 == spec_line_col(s@.take(end as int)).0,
        r.1 == spec_line_col(s@.take(end as int)).1,
{
    let mut line: u32 = 1;
    let mut col: u32 = 1;
    let mut i: usize = 0;
    proof {
        assert(s@.take(0) =~= Seq::<char>::empty());
    }
    while i < end
        invariant
            i <= end <= s@.len(),
            line == spec_line_col(s@.take(i as int)).0,
            col == spec_line_col(s@.take(i as int)).1,
            line_col_fits(s@, end as int),
        decreases end - i,
    {
        proof {
            assert(s@.take(i + 1).drop_last() =~= s@.take(i as int));
            assert(spec_line_col(s@.take(i + 1)).0 <= u32::MAX);
        }
        if s[i] == '\n' {
            line = line + 1;
            col = 1;
        } else {
            col = col + 1;
        }
        i = i + 1;
    }
    (line, col)
}

} // verus!
