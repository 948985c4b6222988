//! Block scalars: literal (`|`) and folded (`>`), with chomping (`+`,
//! `-`) and explicit indentation indicators.

use crate::error::{Error, Result};
use crate::scanner::scan::{Scanner, is_break, is_digit, blank_end, char_at};
use crate::scanner::TokenType;
use crate::text::{push_char, push_str, chars_range_to_string};
use vstd::prelude::*;

verus! {

/// How trailing line breaks of a block scalar are kept.
#[derive(Debug, Clone, Copy)]
pub enum Chomping {
    /// Keep one final line break (no indicator).
    Clip,
    /// Drop every final line break (`-`).
    Strip,
    /// Keep every final line break (`+`).
    Keep,
}

/// A chomping indicator.
pub open spec fn is_chomp(c: char) -> bool {
    c == '+' || c == '-'
}

/// An ASCII decimal digit.
pub open spec fn is_digit_c(c: char) -> bool {
    '0' <= c && c <= '9'
}

/// A block scalar header at `k` has an indentation indicator of zero.
pub open spec fn header_err(cs: Seq<char>, k: int) -> bool {
    let c0 = char_at(cs, k);
    let c1 = char_at(cs, k + 1);
    (is_chomp(c0) && c1 == '0') || c0 == '0'
}

/// Where a block scalar header starting at `k` ends.
pub open spec fn header_end(cs: Seq<char>, k: int) -> int {
    let c0 = char_at(cs, k);
    let c1 = char_at(cs, k + 1);
    if is_chomp(c0) {
        if is_digit_c(c1) {
            k + 2
        } else {
            k + 1
        }
    } else if is_digit_c(c0) {
        if is_chomp(c1) {
            k + 2
        } else {
            k + 1
        }
    } else {
        k
    }
}

/// After the header at `k`, blanks are followed by something other than a
/// comment, a line break or the end.
pub open spec fn header_tail_err(cs: Seq<char>, k: int) -> bool {
    let be = blank_end(cs, k);
    be < cs.len() && cs[be] != '#' && cs[be] != '\r' && cs[be] != '\n'
}

impl<'a> Scanner<'a> {
    /// Skip indentation spaces while the column is left of `indent`.
    pub fn skip_block_indent(&mut self, indent: usize)
        requires
            old(self).wf(),
        ensures
            Self::keeps_frame(*old(self), *final(self)),
            final(self).tokens == old(self).tokens,
            forall|k: int| old(self).i <= k < final(self).i ==> #[trigger] final(self).chars@[k] == ' ',
            final(self).i == final(self).chars@.len() || final(self).spec_column() >= indent
                || final(self).chars@[final(self).i as int] != ' ',
    {
        while self.column() < indent && !self.at_end() && self.peek(0) == ' '
            invariant
                Self::keeps_frame(*old(self), *self),
                self.tokens == old(self).tokens,
                forall|k: int| old(self).i <= k < self.i ==> #[trigger] self.chars@[k] == ' ',
            decreases self.chars@.len() - self.i,
        {
            self.forward();
        }
    }

    /// Empty lines after a block scalar line: a line feed for each, each
    /// line's indentation up to `indent` skipped.
    pub fn scan_block_breaks(&mut self, indent: usize, breaks: &mut String)
        requires
            old(self).wf(),
        ensures
            Self::keeps_frame(*old(self), *final(self)),
            final(self).tokens == old(self).tokens,
            final(self).i == final(self).chars@.len() || (final(self).chars@[final(self).i as int] != '\r'
                && final(self).chars@[final(self).i as int] != '\n'),
            final(breaks)@.len() >= old(breaks)@.len(),
            final(breaks)@.subrange(0, old(breaks)@.len() as int) == old(breaks)@,
            forall|k: int| old(breaks)@.len() <= k < final(breaks)@.len() ==> #[trigger] final(breaks)@[k] == '\n',
    {
        self.skip_block_indent(indent);
        while !self.at_end() && is_break(self.peek(0))
            invariant
                Self::keeps_frame(*old(self), *self),
                self.tokens == old(self).tokens,
                breaks@.len() >= old(breaks)@.len(),
                breaks@.subrange(0, old(breaks)@.len() as int) == old(breaks)@,
                forall|k: int| old(breaks)@.len() <= k < breaks@.len() ==> #[trigger] breaks@[k] == '\n',
            decreases self.chars@.len() - self.i,
        {
            self.consume_break();
            let ghost before = breaks@;
            push_char(breaks, '\n');
            proof {
                assert(breaks@.subrange(0, old(breaks)@.len() as int) =~= before.subrange(0, old(breaks)@.len() as int));
            }
            self.skip_block_indent(indent);
        }
    }

    /// Leading empty and space-only lines of a block scalar without an
    /// indentation indicator; returns the deepest column reached.
    pub fn scan_block_indentation(&mut self, breaks: &mut String) -> (max_indent: usize)
        requires
            old(self).wf(),
        ensures
            Self::keeps_frame(*old(self), *final(self)),
            final(self).tokens == old(self).tokens,
            final(self).i == final(self).chars@.len() || ({
                let c = final(self).chars@[final(self).i as int];
                c != ' ' && c != '\r' && c != '\n'
            }),
            forall|k: int|
                old(self).i <= k < final(self).i ==> (#[trigger] final(self).chars@[k] == ' ' || final(self).chars@[k]
                    == '\r' || final(self).chars@[k] == '\n'),
            final(breaks)@.len() >= old(breaks)@.len(),
            final(breaks)@.subrange(0, old(breaks)@.len() as int) == old(breaks)@,
            forall|k: int| old(breaks)@.len() <= k < final(breaks)@.len() ==> #[trigger] final(breaks)@[k] == '\n',
    {
        let mut max_indent: usize = 0;
        while !self.at_end() && (self.peek(0) == ' ' || is_break(self.peek(0)))
            invariant
                Self::keeps_frame(*old(self), *self),
                self.tokens == old(self).tokens,
                forall|k: int|
                    old(self).i <= k < self.i ==> (#[trigger] self.chars@[k] == ' ' || self.chars@[k] == '\r'
                        || self.chars@[k] == '\n'),
                breaks@.len() >= old(breaks)@.len(),
                breaks@.subrange(0, old(breaks)@.len() as int) == old(breaks)@,
                forall|k: int| old(breaks)@.len() <= k < breaks@.len() ==> #[trigger] breaks@[k] == '\n',
            decreases self.chars@.len() - self.i,
        {
            if self.peek(0) != ' ' {
                self.consume_break();
                let ghost before = breaks@;
                push_char(breaks, '\n');
                proof {
                    assert(breaks@.subrange(0, old(breaks)@.len() as int) =~= before.subrange(0, old(breaks)@.len() as int));
                }
            } else {
                self.forward();
                let col = self.column();
                if col > max_indent {
                    max_indent = col;
                }
            }
        }
        max_indent
    }

    /// The header of a block scalar after its indicator: chomping and
    /// indentation indicators in either order; the increment is 0 when
    /// absent.
    pub fn scan_block_header(&mut self) -> (r: Result<(Chomping, usize)>)
        requires
            old(self).wf(),
        ensures
            Self::keeps_frame(*old(self), *final(self)),
            final(self).tokens == old(self).tokens,
            r matches Ok((_, inc)) ==> inc <= 9,
            ({
                let cs = old(self).chars@;
                let k = old(self).i as int;
                let c0 = char_at(cs, k);
                let c1 = char_at(cs, k + 1);
                &&& r is Err <==> header_err(cs, k)
                &&& r matches Ok((ch, inc)) ==> {
                    &&& final(self).i == header_end(cs, k)
                    &&& inc == (if is_chomp(c0) {
                        if is_digit_c(c1) {
                            (c1 as u32 - '0' as u32) as usize
                        } else {
                            0usize
                        }
                    } else if is_digit_c(c0) {
                        (c0 as u32 - '0' as u32) as usize
                    } else {
                        0usize
                    })
                    &&& ch == (if c0 == '+' || (is_digit_c(c0) && c1 == '+') {
                        Chomping::Keep
                    } else if c0 == '-' || (is_digit_c(c0) && c1 == '-') {
                        Chomping::Strip
                    } else {
                        Chomping::Clip
                    })
                }
            }),
    {
        let mut chomping = Chomping::Clip;
        let mut increment: usize = 0;
        if !self.at_end() && (self.peek(0) == '+' || self.peek(0) == '-') {
            chomping = if self.peek(0) == '+' {
                Chomping::Keep
            } else {
                Chomping::Strip
            };
            self.forward();
            if !self.at_end() && is_digit(self.peek(0)) {
                let c = self.peek(0);
                if c == '0' {
                    return Err(Error::parse(self.pos, "indentation indicator must be 1 to 9"));
                }
                increment = ((c as u32) - ('0' as u32)) as usize;
                self.forward();
            }
        } else if !self.at_end() && is_digit(self.peek(0)) {
            let c = self.peek(0);
            if c == '0' {
                return Err(Error::parse(self.pos, "indentation indicator must be 1 to 9"));
            }
            increment = ((c as u32) - ('0' as u32)) as usize;
            self.forward();
            if !self.at_end() && (self.peek(0) == '+' || self.peek(0) == '-') {
                chomping = if self.peek(0) == '+' {
                    Chomping::Keep
                } else {
                    Chomping::Strip
                };
                self.forward();
            }
        }
        Ok((chomping, increment))
    }

    /// The rest of a block scalar's header line: blanks, then a comment
    /// or nothing, then a line break or the end.
    pub fn scan_block_header_tail(&mut self) -> (r: Result<()>)
        requires
            old(self).wf(),
        ensures
            Self::keeps_frame(*old(self), *final(self)),
            final(self).tokens == old(self).tokens,
            r is Err <==> header_tail_err(old(self).chars@, old(self).i as int),
    {
        self.skip_blanks();
        if !self.at_end() && self.peek(0) == '#' {
            while !self.at_end() && !is_break(self.peek(0))
                invariant
                    Self::keeps_frame(*old(self), *self),
                    self.tokens == old(self).tokens,
                decreases self.chars@.len() - self.i,
            {
                self.forward();
            }
        }
        if self.at_end() {
            return Ok(());
        }
        if !is_break(self.peek(0)) {
            return Err(Error::parse(self.pos, "expected a comment or a line break after a block scalar header"));
        }
        self.consume_break();
        Ok(())
    }

    /// Scan a literal (`|`) or folded (`>`) block scalar. Its span runs
    /// from the indicator to the end of its last content line.
    pub fn fetch_block_scalar(&mut self, literal: bool) -> (r: Result<()>)
        requires
            old(self).wf(),
            old(self).i < old(self).chars@.len(),
        ensures
            Self::advanced(*old(self), *final(self)),
            final(self).done == old(self).done,
            r is Ok ==> final(self).i > old(self).i,
            ({
                let cs = old(self).chars@;
                r is Err <==> old(self).key_required() || header_err(cs, old(self).i + 1) || header_tail_err(
                    cs,
                    header_end(cs, old(self).i + 1),
                )
            }),
            r is Ok ==> (if literal {
                final(self).tokens@.last().token_type is BlockScalarLiteral
            } else {
                final(self).tokens@.last().token_type is BlockScalarFolded
            }),
    {
        self.allow_simple_key = true;
        self.remove_possible_simple_key()?;
        let ghost s0 = *self;
        let start = self.pos;
        self.forward();
        let (chomping, increment) = self.scan_block_header()?;
        let mut end = self.pos;
        self.scan_block_header_tail()?;
        let min_indent: usize = if self.indent < 1 {
            1
        } else {
            self.indent
        };
        let mut breaks = String::new();
        let indent: usize = if increment == 0 {
            let max_indent = self.scan_block_indentation(&mut breaks);
            if max_indent > min_indent {
                max_indent
            } else {
                min_indent
            }
        } else {
            let ind = min_indent + increment - 1;
            self.scan_block_breaks(ind, &mut breaks);
            ind
        };
        let mut value = String::new();
        let mut had_break = false;
        while self.column() == indent && !self.at_end()
            invariant
                Self::advanced(*old(self), s0),
                Self::keeps_frame(s0, *self),
                start == s0.pos,
                s0.i == old(self).i,
                self.i > old(self).i,
                start.index <= end.index <= self.pos.index,
            decreases self.chars@.len() - self.i,
        {
            let ghost i0 = self.i;
            push_str(&mut value, breaks.as_str());
            breaks = String::new();
            let leading_non_space = self.peek(0) != ' ' && self.peek(0) != '\t';
            let line_start = self.i;
            while !self.at_end() && !is_break(self.peek(0))
                invariant
                    Self::advanced(*old(self), s0),
                    Self::keeps_frame(s0, *self),
                    self.i >= line_start,
                    line_start == i0,
                    start.index <= end.index <= self.pos.index,
                decreases self.chars@.len() - self.i,
            {
                self.forward();
            }
            let line = chars_range_to_string(self.chars, line_start, self.i);
            push_str(&mut value, line.as_str());
            end = self.pos;
            had_break = !self.at_end();
            if had_break {
                self.consume_break();
            }
            self.scan_block_breaks(indent, &mut breaks);
            if self.column() == indent && !self.at_end() {
                if !literal && had_break && leading_non_space && self.peek(0) != ' ' && self.peek(0)
                    != '\t' {
                    if breaks.as_str().is_empty() {
                        push_char(&mut value, ' ');
                    }
                } else if had_break {
                    push_char(&mut value, '\n');
                }
            } else {
                break;
            }
        }
        if had_break && !matches!(chomping, Chomping::Strip) {
            push_char(&mut value, '\n');
        }
        if matches!(chomping, Chomping::Keep) {
            push_str(&mut value, breaks.as_str());
        }
        let token_type = if literal {
            TokenType::BlockScalarLiteral(value)
        } else {
            TokenType::BlockScalarFolded(value)
        };
        self.emit_span(token_type, start, end);
        Ok(())
    }
}

} // verus!
