//! Quoted scalars: single-quoted (`'it''s'`) and double-quoted with
//! backslash escapes, folded across line breaks.

use crate::error::{Error, Result};
use crate::scanner::scan::{Scanner, is_break, hex_value, spec_hex_value, blank_end, char_at};
use crate::scanner::{QuoteStyle, TokenType};
use crate::text::{push_char, char_from_u32};
use vstd::prelude::*;

verus! {

/// Sixteen to the power `k`.
pub open spec fn pow16(k: nat) -> nat
    decreases k,
{
    if k == 0 {
        1
    } else {
        16 * pow16((k - 1) as nat)
    }
}

/// Up to eight hex digits fit in 32 bits.
proof fn lemma_pow16_bound(k: nat)
    requires
        k <= 8,
    ensures
        pow16(k) <= 0x1_0000_0000,
    decreases 8 - k,
{
    if k < 8 {
        lemma_pow16_bound(k + 1);
    } else {
        reveal_with_fuel(pow16, 9);
    }
}

/// The value of a run of hex digits, or `None` when one is not a digit.
pub open spec fn hex_run(cs: Seq<char>) -> Option<nat>
    decreases cs.len(),
{
    if cs.len() == 0 {
        Some(0)
    } else {
        match (hex_run(cs.drop_last()), spec_hex_value(cs.last())) {
            (Some(a), Some(d)) => Some(a * 16 + d as nat),
            _ => None,
        }
    }
}

/// The code point that `count` hex digits at `k` name, when there are
/// that many digits and they name a Unicode scalar value.
pub open spec fn hex_escape_value(cs: Seq<char>, k: int, count: int) -> Option<u32> {
    if 0 <= k && k + count <= cs.len() {
        match hex_run(cs.subrange(k, k + count)) {
            Some(v) => if v < 0x1_0000_0000 && vstd::utf8::is_scalar(v as u32) {
                Some(v as u32)
            } else {
                None
            },
            None => None,
        }
    } else {
        None
    }
}

/// A run that has a non-digit keeps it when extended.
proof fn lemma_hex_run_none(s: Seq<char>, j: int)
    requires
        0 <= j <= s.len(),
        hex_run(s.subrange(0, j)) is None,
    ensures
        hex_run(s) is None,
    decreases s.len(),
{
    if j == s.len() {
        assert(s.subrange(0, j) =~= s);
    } else {
        assert(s.drop_last().subrange(0, j) =~= s.subrange(0, j));
        lemma_hex_run_none(s.drop_last(), j);
    }
}

/// A run of hex digits is worth less than sixteen to its length.
proof fn lemma_hex_run_bound(s: Seq<char>)
    ensures
        hex_run(s) matches Some(v) ==> v < pow16(s.len()),
    decreases s.len(),
{
    if s.len() > 0 {
        lemma_hex_run_bound(s.drop_last());
    }
}

/// The first index at or after `k` holding `q`, or the length.
pub open spec fn next_quote(cs: Seq<char>, k: int, q: char) -> int
    decreases cs.len() - k,
{
    if k < 0 || k >= cs.len() {
        cs.len() as int
    } else if cs[k] == q {
        k
    } else {
        next_quote(cs, k + 1, q)
    }
}

/// Where the next quote is found, it holds the quote.
proof fn lemma_next_quote(cs: Seq<char>, k: int, q: char)
    requires
        0 <= k,
    ensures
        k <= next_quote(cs, k, q) <= cs.len() || (k > cs.len() && next_quote(cs, k, q) == cs.len()),
        next_quote(cs, k, q) < cs.len() ==> cs[next_quote(cs, k, q)] == q,
    decreases cs.len() - k,
{
    if k < cs.len() && cs[k] != q {
        lemma_next_quote(cs, k + 1, q);
    }
}

/// A character a quoted scalar copies as it is: no quote of its kind, no
/// backslash, no whitespace.
pub open spec fn quoted_plain_char(c: char, q: char) -> bool {
    c != q && c != '\\' && c != ' ' && c != '\t' && c != '\r' && c != '\n'
}

/// The character a single-letter escape (`\n`, `\t`, ...) stands for.
pub open spec fn spec_simple_escape(c: char) -> Option<char> {
    if c == '0' {
        Some('\0')
    } else if c == 'a' {
        Some('\u{7}')
    } else if c == 'b' {
        Some('\u{8}')
    } else if c == 't' || c == '\t' {
        Some('\t')
    } else if c == 'n' {
        Some('\n')
    } else if c == 'v' {
        Some('\u{b}')
    } else if c == 'f' {
        Some('\u{c}')
    } else if c == 'r' {
        Some('\r')
    } else if c == 'e' {
        Some('\u{1b}')
    } else if c == ' ' || c == '"' || c == '/' || c == '\\' {
        Some(c)
    } else if c == 'N' {
        Some('\u{85}')
    } else if c == '_' {
        Some('\u{a0}')
    } else if c == 'L' {
        Some('\u{2028}')
    } else if c == 'P' {
        Some('\u{2029}')
    } else {
        None
    }
}

/// The character a single-letter escape (`\n`, `\t`, ...) stands for.
pub fn simple_escape(c: char) -> (r: Option<char>)
    ensures
        r == spec_simple_escape(c),
{
    if c == '0' {
        Some('\0')
    } else if c == 'a' {
        Some('\u{7}')
    } else if c == 'b' {
        Some('\u{8}')
    } else if c == 't' || c == '\t' {
        Some('\t')
    } else if c == 'n' {
        Some('\n')
    } else if c == 'v' {
        Some('\u{b}')
    } else if c == 'f' {
        Some('\u{c}')
    } else if c == 'r' {
        Some('\r')
    } else if c == 'e' {
        Some('\u{1b}')
    } else if c == ' ' || c == '"' || c == '/' || c == '\\' {
        Some(c)
    } else if c == 'N' {
        Some('\u{85}')
    } else if c == '_' {
        Some('\u{a0}')
    } else if c == 'L' {
        Some('\u{2028}')
    } else if c == 'P' {
        Some('\u{2029}')
    } else {
        None
    }
}

impl<'a> Scanner<'a> {
    /// After a line break inside a quoted scalar: skip the indentation of
    /// each following line and append a line feed for each further empty
    /// line. A document marker at the start of a line is an error.
    pub fn scan_quoted_breaks(&mut self, value: &mut String) -> (r: Result<()>)
        requires
            old(self).wf(),
        ensures
            Self::keeps_frame(*old(self), *final(self)),
            final(self).tokens == old(self).tokens,
            final(value)@.len() >= old(value)@.len(),
            final(value)@.subrange(0, old(value)@.len() as int) == old(value)@,
            forall|k: int| old(value)@.len() <= k < final(value)@.len() ==> #[trigger] final(value)@[k] == '\n',
            r is Ok ==> final(self).i == final(self).chars@.len() || ({
                let c = final(self).chars@[final(self).i as int];
                c != ' ' && c != '\t' && c != '\r' && c != '\n'
            }),
            r is Err ==> final(self).pos.column == 1 && final(self).i + 3 <= final(self).chars@.len() && ({
                let cs = final(self).chars@;
                let i = final(self).i as int;
                (cs[i] == '-' && cs[i + 1] == '-' && cs[i + 2] == '-') || (cs[i] == '.' && cs[i + 1] == '.'
                    && cs[i + 2] == '.')
            }),
    {
        loop
            invariant
                Self::keeps_frame(*old(self), *self),
                self.tokens == old(self).tokens,
                value@.len() >= old(value)@.len(),
                value@.subrange(0, old(value)@.len() as int) == old(value)@,
                forall|k: int| old(value)@.len() <= k < value@.len() ==> #[trigger] value@[k] == '\n',
            decreases self.chars@.len() - self.i,
        {
            if self.check_document_indicator(true) || self.check_document_indicator(false) {
                return Err(Error::parse(self.pos, "unexpected document marker in a quoted scalar"));
            }
            let ghost i0 = self.i;
            while !self.at_end() && (self.peek(0) == ' ' || self.peek(0) == '\t')
                invariant
                    Self::keeps_frame(*old(self), *self),
                    self.tokens == old(self).tokens,
                    self.i >= i0,
                    value@.len() >= old(value)@.len(),
                    value@.subrange(0, old(value)@.len() as int) == old(value)@,
                    forall|k: int| old(value)@.len() <= k < value@.len() ==> #[trigger] value@[k] == '\n',
                decreases self.chars@.len() - self.i,
            {
                self.forward();
            }
            if !self.at_end() && is_break(self.peek(0)) {
                self.consume_break();
                let ghost before = value@;
                push_char(value, '\n');
                proof {
                    assert(value@.subrange(0, old(value)@.len() as int) =~= before.subrange(
                        0,
                        old(value)@.len() as int,
                    ));
                }
            } else {
                return Ok(());
            }
        }
    }

    /// Whitespace inside a quoted scalar: kept as written before more
    /// text on the same line, folded across line breaks (one break becomes
    /// a space, each further break a line feed).
    pub fn scan_quoted_spaces(&mut self, value: &mut String) -> (r: Result<()>)
        requires
            old(self).wf(),
            old(self).i < old(self).chars@.len(),
        ensures
            Self::keeps_frame(*old(self), *final(self)),
            final(self).tokens == old(self).tokens,
            r is Ok ==> final(self).i > old(self).i,
            ({
                let cs = old(self).chars@;
                let be = blank_end(cs, old(self).i as int);
                &&& be == cs.len() ==> r is Err
                &&& be < cs.len() && cs[be] != '\r' && cs[be] != '\n' ==> (r is Ok <==> be > old(self).i) && (
                r is Ok ==> final(self).i == be && final(value)@ == old(value)@ + cs.subrange(old(self).i as int, be))
                &&& be < cs.len() && (cs[be] == '\r' || cs[be] == '\n') && r is Ok ==> final(self).i > be
            }),
    {
        let ws_start = self.i;
        let mut blanks = String::new();
        while !self.at_end() && (self.peek(0) == ' ' || self.peek(0) == '\t')
            invariant
                Self::keeps_frame(*old(self), *self),
                self.tokens == old(self).tokens,
                self.i >= ws_start,
                ws_start == old(self).i,
                blank_end(self.chars@, self.i as int) == blank_end(self.chars@, old(self).i as int),
                blanks@ == self.chars@.subrange(old(self).i as int, self.i as int),
                *value == *old(value),
            decreases self.chars@.len() - self.i,
        {
            let c = self.peek(0);
            push_char(&mut blanks, c);
            self.forward();
            proof {
                assert(blanks@ =~= self.chars@.subrange(old(self).i as int, self.i as int));
            }
        }
        if self.at_end() {
            return Err(Error::parse(self.pos, "unexpected end of stream in a quoted scalar"));
        }
        if is_break(self.peek(0)) {
            self.consume_break();
            let mut breaks = String::new();
            self.scan_quoted_breaks(&mut breaks)?;
            if breaks.as_str().is_empty() {
                push_char(value, ' ');
            } else {
                crate::text::push_str(value, breaks.as_str());
            }
        } else {
            crate::text::push_str(value, blanks.as_str());
        }
        if self.i == ws_start {
            return Err(Error::parse(self.pos, "expected whitespace in a quoted scalar"));
        }
        Ok(())
    }

    /// `count` hex digits naming a code point.
    pub fn scan_hex_escape(&mut self, count: usize) -> (r: Result<char>)
        requires
            old(self).wf(),
            count <= 8,
        ensures
            Self::keeps_frame(*old(self), *final(self)),
            final(self).tokens == old(self).tokens,
            r is Ok <==> hex_escape_value(old(self).chars@, old(self).i as int, count as int) is Some,
            r matches Ok(c) ==> hex_escape_value(old(self).chars@, old(self).i as int, count as int) == Some(
                c as u32,
            ) && final(self).i == old(self).i + count,
    {
        let mut code: u64 = 0;
        let mut k: usize = 0;
        while k < count
            invariant
                Self::keeps_frame(*old(self), *self),
                self.tokens == old(self).tokens,
                k <= count <= 8,
                code < pow16(k as nat),
                self.i == old(self).i + k,
                hex_run(self.chars@.subrange(old(self).i as int, self.i as int)) == Some(code as nat),
            decreases count - k,
        {
            if self.at_end() {
                return Err(Error::parse(self.pos, "unexpected end of stream in an escape"));
            }
            let ghost cs = self.chars@;
            let ghost next = cs.subrange(old(self).i as int, self.i + 1);
            proof {
                assert(next.drop_last() =~= cs.subrange(old(self).i as int, self.i as int));
                assert(next.last() == cs[self.i as int]);
            }
            let d = match hex_value(self.peek(0)) {
                Some(d) => d,
                None => {
                    proof {
                        if old(self).i + count <= cs.len() {
                            let whole = cs.subrange(old(self).i as int, old(self).i + count);
                            assert(whole.subrange(0, k + 1) =~= next);
                            lemma_hex_run_none(whole, k + 1);
                        }
                    }
                    return Err(Error::parse(self.pos, "expected a hexadecimal digit in an escape"));
                },
            };
            proof {
                lemma_pow16_bound(k as nat);
                lemma_pow16_bound((k + 1) as nat);
            }
            code = code * 16 + d as u64;
            self.forward();
            k = k + 1;
        }
        proof {
            lemma_pow16_bound(k as nat);
        }
        match char_from_u32(code as u32) {
            Some(c) => Ok(c),
            None => Err(Error::parse(self.pos, "escape names an invalid code point")),
        }
    }

    /// A backslash escape inside a double-quoted scalar.
    pub fn scan_escape(&mut self, value: &mut String) -> (r: Result<()>)
        requires
            old(self).wf(),
            old(self).i < old(self).chars@.len(),
        ensures
            Self::keeps_frame(*old(self), *final(self)),
            final(self).tokens == old(self).tokens,
            r is Ok ==> final(self).i > old(self).i,
            ({
                let cs = old(self).chars@;
                let c = char_at(cs, old(self).i + 1);
                let count: int = if c == 'x' {
                    2
                } else if c == 'u' {
                    4
                } else {
                    8
                };
                &&& old(self).i + 1 >= cs.len() ==> r is Err
                &&& old(self).i + 1 < cs.len() && c != '\r' && c != '\n' ==> match spec_simple_escape(c) {
                    Some(e) => r is Ok && final(value)@ == old(value)@.push(e) && final(self).i == old(self).i + 2,
                    None => if c == 'x' || c == 'u' || c == 'U' {
                        &&& r is Ok <==> hex_escape_value(cs, old(self).i + 2, count) is Some
                        &&& r is Ok ==> final(self).i == old(self).i + 2 + count && final(value)@.len()
                            == old(value)@.len() + 1 && final(value)@.drop_last() == old(value)@ && hex_escape_value(
                            cs,
                            old(self).i + 2,
                            count,
                        ) == Some(final(value)@.last() as u32)
                    } else {
                        r is Err
                    },
                }
            }),
    {
        self.forward();
        if self.at_end() {
            return Err(Error::parse(self.pos, "unexpected end of stream in an escape"));
        }
        let c = self.peek(0);
        if is_break(c) {
            self.consume_break();
            return self.scan_quoted_breaks(value);
        }
        match simple_escape(c) {
            Some(e) => {
                push_char(value, e);
                self.forward();
                Ok(())
            },
            None => {
                let count: usize = if c == 'x' {
                    2
                } else if c == 'u' {
                    4
                } else if c == 'U' {
                    8
                } else {
                    return Err(Error::parse(self.pos, "unknown escape character"));
                };
                self.forward();
                let e = self.scan_hex_escape(count)?;
                push_char(value, e);
                proof {
                    assert(value@.drop_last() =~= old(value)@);
                }
                Ok(())
            },
        }
    }

    /// Scan a single- or double-quoted scalar; its span includes both
    /// quotes.
    pub fn fetch_quoted(&mut self, double: bool) -> (r: Result<()>)
        requires
            old(self).wf(),
            old(self).i < old(self).chars@.len(),
        ensures
            Self::advanced(*old(self), *final(self)),
            final(self).done == old(self).done,
            r is Ok ==> final(self).i > old(self).i,
            old(self).allow_simple_key && old(self).key_required() ==> r is Err,
            ({
                let q = if double {
                    '"'
                } else {
                    '\''
                };
                let cs = old(self).chars@;
                let j = next_quote(cs, old(self).i + 1, q);
                &&& (forall|k: int| old(self).i < k < cs.len() ==> #[trigger] cs[k] != q) ==> r is Err
                &&& !(old(self).allow_simple_key && old(self).key_required()) && j < cs.len() && (forall|k: int|
                    old(self).i < k < j ==> quoted_plain_char(#[trigger] cs[k], q)) && (!double ==> char_at(
                    cs,
                    j + 1,
                ) != '\'') ==> r is Ok && final(self).i == j + 1 && (final(self).tokens@.last().token_type matches TokenType::Scalar(
                    v,
                    style,
                ) && v@ == cs.subrange(old(self).i + 1, j) && style == (if double {
                    QuoteStyle::Double
                } else {
                    QuoteStyle::Single
                }))
            }),
    {
        self.save_possible_simple_key()?;
        self.allow_simple_key = false;
        let ghost s0 = *self;
        let start = self.pos;
        let quote = if double {
            '"'
        } else {
            '\''
        };
        self.forward();
        let mut value = String::new();
        let ghost cs = old(self).chars@;
        let ghost j = next_quote(cs, old(self).i + 1, quote);
        let ghost plain = !(old(self).allow_simple_key && old(self).key_required()) && j < cs.len() && (forall|
            k: int,
        | old(self).i < k < j ==> quoted_plain_char(#[trigger] cs[k], quote)) && (!double ==> char_at(cs, j + 1)
            != '\'');
        proof {
            lemma_next_quote(cs, old(self).i + 1, quote);
            assert(cs.subrange(old(self).i + 1, self.i as int) =~= Seq::<char>::empty());
        }
        loop
            invariant_except_break
                plain ==> self.i <= j && value@ == cs.subrange(old(self).i + 1, self.i as int),
            invariant
                Self::advanced(*old(self), s0),
                Self::keeps_frame(s0, *self),
                start == s0.pos,
                s0.i == old(self).i,
                s0.done == old(self).done,
                self.i > old(self).i,
                self.chars@ == cs,
                quote == (if double {
                    '"'
                } else {
                    '\''
                }),
                j == next_quote(cs, old(self).i + 1, quote),
                j < cs.len() ==> cs[j] == quote,
                old(self).i + 1 <= j,
                plain == (!(old(self).allow_simple_key && old(self).key_required()) && j < cs.len() && (forall|
                    k: int,
                | old(self).i < k < j ==> quoted_plain_char(#[trigger] cs[k], quote)) && (!double ==> char_at(
                    cs,
                    j + 1,
                ) != '\'')),
            ensures
                Self::advanced(*old(self), s0),
                Self::keeps_frame(s0, *self),
                start == s0.pos,
                self.i > old(self).i + 1,
                self.chars@ == cs,
                cs[self.i - 1] == quote,
                plain ==> self.i == j + 1 && value@ == cs.subrange(old(self).i + 1, j),
            decreases self.chars@.len() - self.i,
        {
            if self.at_end() {
                return Err(Error::parse(start, "unexpected end of stream in a quoted scalar"));
            }
            let ch = self.peek(0);
            if !double && ch == '\'' && self.peek(1) == '\'' {
                push_char(&mut value, '\'');
                self.forward();
                self.forward();
            } else if ch == quote {
                self.forward();
                break;
            } else if double && ch == '\\' {
                self.scan_escape(&mut value)?;
            } else if ch == ' ' || ch == '\t' || is_break(ch) {
                self.scan_quoted_spaces(&mut value)?;
            } else {
                let ghost before = value@;
                push_char(&mut value, ch);
                self.forward();
                proof {
                    if plain {
                        assert(value@ =~= cs.subrange(old(self).i + 1, self.i as int));
                    }
                }
            }
        }
        let style = if double {
            QuoteStyle::Double
        } else {
            QuoteStyle::Single
        };
        self.emit(TokenType::Scalar(value, style), start);
        Ok(())
    }
}

} // verus!

verus! {

/// The C-style escapes `\a \b \t \n \v \f \r` stand for the consecutive
/// control characters 7 to 13, in that order of their letters.
pub proof fn law_control_escapes(i: int)
    requires
        0 <= i < 7,
    ensures
        spec_simple_escape("abtnvfr"@[i]) matches Some(x) && x as u32 == 7 + i,
{
    reveal_strlit("abtnvfr");
    let s = "abtnvfr"@;
    if i == 0 {
        assert(s[i] == 'a');
    } else if i == 1 {
        assert(s[i] == 'b');
    } else if i == 2 {
        assert(s[i] == 't');
    } else if i == 3 {
        assert(s[i] == 'n');
    } else if i == 4 {
        assert(s[i] == 'v');
    } else if i == 5 {
        assert(s[i] == 'f');
    } else {
        assert(s[i] == 'r');
    }
}

/// An escape written with a letter never stands for a letter or a digit:
/// each letter escape names a character that could not be written as
/// itself (a control, a space-like or a separator character).
pub proof fn law_letter_escapes_name_other_characters(c: char)
    requires
        ('a' <= c <= 'z') || ('A' <= c <= 'Z'),
    ensures
        spec_simple_escape(c) matches Some(x) ==> !(('a' <= x <= 'z') || ('A' <= x <= 'Z') || ('0' <= x <= '9')),
{
}

/// The single-character escapes of YAML are exactly `\0 \a \b \t \n \v
/// \f \r \e`, space, `\" \/ \\`, `\N \_ \L \P`, and a backslash before a
/// literal tab; any other character after a backslash is no such escape.
pub proof fn law_escape_letters(c: char)
    ensures
        spec_simple_escape(c) is Some <==> "0abt\tnvfre \"/\\N_LP"@.contains(c),
{
    reveal_strlit("0abt\tnvfre \"/\\N_LP");
    let s = "0abt\tnvfre \"/\\N_LP"@;
    if spec_simple_escape(c) is Some {
        if c == '0' { assert(s[0] == c); }
        else if c == 'a' { assert(s[1] == c); }
        else if c == 'b' { assert(s[2] == c); }
        else if c == 't' { assert(s[3] == c); }
        else if c == '\t' { assert(s[4] == c); }
        else if c == 'n' { assert(s[5] == c); }
        else if c == 'v' { assert(s[6] == c); }
        else if c == 'f' { assert(s[7] == c); }
        else if c == 'r' { assert(s[8] == c); }
        else if c == 'e' { assert(s[9] == c); }
        else if c == ' ' { assert(s[10] == c); }
        else if c == '"' { assert(s[11] == c); }
        else if c == '/' { assert(s[12] == c); }
        else if c == '\\' { assert(s[13] == c); }
        else if c == 'N' { assert(s[14] == c); }
        else if c == '_' { assert(s[15] == c); }
        else if c == 'L' { assert(s[16] == c); }
        else { assert(s[17] == c); }
    }
}

/// Distinct escapes stand for distinct characters, but for `\t` and a
/// backslash before a literal tab, which both stand for the tab.
pub proof fn law_escapes_distinct(c: char, d: char)
    requires
        c != d,
        !((c == 't' && d == '\t') || (c == '\t' && d == 't')),
        spec_simple_escape(c) is Some,
        spec_simple_escape(d) is Some,
    ensures
        spec_simple_escape(c) != spec_simple_escape(d),
{
}

/// The quoting characters (space, `"`, `/` and the backslash) stand for
/// themselves; `\0` and `\e` for the characters NUL and ESC; `\N`, `\_`,
/// `\L` and `\P` for the next line, no-break space, line separator and
/// paragraph separator of Unicode.
pub proof fn law_named_escapes(c: char)
    ensures
        (c == ' ' || c == '"' || c == '/' || c == '\\') ==> spec_simple_escape(c) == Some(c),
        c == '\t' ==> spec_simple_escape(c) == Some('\t'),
        c == '0' ==> (spec_simple_escape(c) matches Some(x) && x as u32 == 0),
        c == 'e' ==> (spec_simple_escape(c) matches Some(x) && x as u32 == 0x1b),
        c == 'N' ==> (spec_simple_escape(c) matches Some(x) && x as u32 == 0x85),
        c == '_' ==> (spec_simple_escape(c) matches Some(x) && x as u32 == 0xa0),
        c == 'L' ==> (spec_simple_escape(c) matches Some(x) && x as u32 == 0x2028),
        c == 'P' ==> (spec_simple_escape(c) matches Some(x) && x as u32 == 0x2029),
{
}

} // verus!
