//! Position tracking for YAML parsing.

use crate::chars::{len_utf8, spec_len_utf8};
use crate::text::{push_str, usize_to_decimal, spec_decimal};
use vstd::prelude::*;

verus! {

/// A position in the YAML input stream.
#[derive(Debug, Clone, Copy, PartialEq, Eq, PartialOrd, Ord, Hash)]
pub struct Position {
    /// Line number (1-based).
    pub line: usize,
    /// Column number (1-based).
    pub column: usize,
    /// Byte index in the input (0-based).
    pub index: usize,
}

/// Whether advancing `p` over `c` stays within machine integers.
pub open spec fn can_advance(p: Position, c: char) -> bool {
    &&& c == '\n' ==> p.line + 1 <= usize::MAX
    &&& c != '\n' ==> p.column + 1 <= usize::MAX
    &&& p.index + spec_len_utf8(c) <= usize::MAX
}

/// The position after reading `c` at `p`: a line feed starts a new line,
/// any other character moves one column right; the byte index always
/// moves by the character's UTF-8 width.
pub open spec fn spec_advance(p: Position, c: char) -> Position {
    if c == '\n' {
        Position { line: (p.line + 1) as usize, column: 1, index: (p.index + spec_len_utf8(c)) as usize }
    } else {
        Position { line: p.line, column: (p.column + 1) as usize, index: (p.index + spec_len_utf8(c)) as usize }
    }
}

/// The position after reading every character of `cs` in order, from `p`.
pub open spec fn spec_advance_seq(p: Position, cs: Seq<char>) -> Position
    decreases cs.len(),
{
    if cs.len() == 0 {
        p
    } else {
        spec_advance(spec_advance_seq(p, cs.drop_last()), cs.last())
    }
}

/// Whether every step of reading `cs` from `p` stays within machine integers.
pub open spec fn can_advance_seq(p: Position, cs: Seq<char>) -> bool
    decreases cs.len(),
{
    if cs.len() == 0 {
        true
    } else {
        can_advance_seq(p, cs.drop_last()) && can_advance(spec_advance_seq(p, cs.drop_last()), cs.last())
    }
}

/// The position after `count` characters: `count` new lines when they are
/// line breaks, otherwise `count` columns; the index moves by `count`.
pub open spec fn spec_advance_by(p: Position, count: usize, is_newline: bool) -> Position {
    if is_newline {
        Position { line: (p.line + count) as usize, column: 1, index: (p.index + count) as usize }
    } else {
        Position { line: p.line, column: (p.column + count) as usize, index: (p.index + count) as usize }
    }
}

impl Position {
    /// The start of input: line 1, column 1, byte 0.
    pub open spec fn spec_start() -> Position {
        Position { line: 1, column: 1, index: 0 }
    }

    /// Create a new position at the start of input.
    pub fn new() -> (p: Position)
        ensures
            p == Position::spec_start(),
    {
        Position { line: 1, column: 1, index: 0 }
    }

    /// Create a position with specific values.
    pub fn at(line: usize, column: usize, index: usize) -> (p: Position)
        ensures
            p == (Position { line, column, index }),
    {
        Position { line, column, index }
    }

    /// Create a position at the start of input.
    pub fn start() -> (p: Position)
        ensures
            p == Position::spec_start(),
    {
        Self::new()
    }

    /// Advance position by one character.
    pub fn advance(self, ch: char) -> (p: Position)
        requires
            can_advance(self, ch),
        ensures
            p == spec_advance(self, ch),
    {
        if ch == '\n' {
            Self::at(self.line + 1, 1, self.index + len_utf8(ch))
        } else {
            Self::at(self.line, self.column + 1, self.index + len_utf8(ch))
        }
    }

    /// Advance position over every character of a string.
    pub fn advance_str(self, s: &str) -> (p: Position)
        requires
            can_advance_seq(self, s@),
        ensures
            p == spec_advance_seq(self, s@),
    {
        let mut cur = self;
        let n = s.unicode_len();
        let mut i: usize = 0;
        while i < n
            invariant
                n == s@.len(),
                i <= n,
                can_advance_seq(self, s@),
                cur == spec_advance_seq(self, s@.subrange(0, i as int)),
            decreases n - i,
        {
            let ch = s.get_char(i);
            proof {
                lemma_can_advance_prefix(self, s@, (i + 1) as int);
                assert(s@.subrange(0, i + 1).drop_last() =~= s@.subrange(0, i as int));
            }
            cur = cur.advance(ch);
            i = i + 1;
        }
        proof {
            assert(s@.subrange(0, n as int) =~= s@);
        }
        cur
    }

    /// Advance position by `count` characters that are all line breaks
    /// (`is_newline`) or all not.
    pub fn advance_by(self, count: usize, is_newline: bool) -> (p: Position)
        requires
            is_newline ==> self.line + count <= usize::MAX,
            !is_newline ==> self.column + count <= usize::MAX,
            self.index + count <= usize::MAX,
        ensures
            p == spec_advance_by(self, count, is_newline),
    {
        let mut p = self;
        if is_newline {
            p.line = p.line + count;
            p.column = 1;
        } else {
            p.column = p.column + count;
        }
        p.index = p.index + count;
        p
    }
}

impl Position {
    /// The position in prose: `line L, column C`.
    pub open spec fn spec_display(self) -> Seq<char> {
        "line "@ + spec_decimal(self.line as nat) + ", column "@ + spec_decimal(self.column as nat)
    }

    /// The position in prose: `line L, column C`.
    pub fn to_string(&self) -> (s: String)
        ensures
            s@ == self.spec_display(),
    {
        let mut out = String::new();
        push_str(&mut out, "line ");
        let l = usize_to_decimal(self.line);
        push_str(&mut out, l.as_str());
        push_str(&mut out, ", column ");
        let c = usize_to_decimal(self.column);
        push_str(&mut out, c.as_str());
        out
    }
}

impl Default for Position {
    /// The start of input.
    fn default() -> (p: Self)
        ensures
            p == Position::spec_start(),
    {
        Self::new()
    }
}

/// Every prefix of a readable sequence is readable.
pub proof fn lemma_can_advance_prefix(p: Position, cs: Seq<char>, k: int)
    requires
        can_advance_seq(p, cs),
        0 <= k <= cs.len(),
    ensures
        can_advance_seq(p, cs.subrange(0, k)),
    decreases cs.len(),
{
    if k == cs.len() {
        assert(cs.subrange(0, k) =~= cs);
    } else {
        assert(cs.drop_last().subrange(0, k) =~= cs.subrange(0, k));
        lemma_can_advance_prefix(p, cs.drop_last(), k);
    }
}

/// Reading `a` and then `b` ends where reading `a + b` ends.
pub proof fn lemma_advance_seq_concat(p: Position, a: Seq<char>, b: Seq<char>)
    ensures
        spec_advance_seq(p, a + b) == spec_advance_seq(spec_advance_seq(p, a), b),
    decreases b.len(),
{
    if b.len() == 0 {
        assert(a + b =~= a);
    } else {
        assert((a + b).drop_last() =~= a + b.drop_last());
        assert((a + b).last() == b.last());
        lemma_advance_seq_concat(p, a, b.drop_last());
    }
}

/// The number of line feeds in a character sequence.
pub open spec fn count_line_feeds(cs: Seq<char>) -> nat
    decreases cs.len(),
{
    if cs.len() == 0 {
        0
    } else {
        count_line_feeds(cs.drop_last()) + if cs.last() == '\n' {
            1nat
        } else {
            0nat
        }
    }
}

/// Reading a string moves the byte index by the string's UTF-8 length
/// and the line by its number of line feeds.
pub proof fn lemma_advance_seq_counts(p: Position, cs: Seq<char>)
    requires
        can_advance_seq(p, cs),
    ensures
        spec_advance_seq(p, cs).index == p.index + crate::slicing::utf8_len(cs),
        spec_advance_seq(p, cs).line == p.line + count_line_feeds(cs),
    decreases cs.len(),
{
    if cs.len() == 0 {
        assert(vstd::utf8::encode_utf8(cs) =~= Seq::<u8>::empty());
    } else {
        lemma_advance_seq_counts(p, cs.drop_last());
        crate::slicing::lemma_utf8_len_push(cs.drop_last(), cs.last());
        assert(cs.drop_last().push(cs.last()) =~= cs);
    }
}

} // verus!
