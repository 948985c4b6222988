//! Fast scanning helpers over character slices, and a token buffer.

use crate::error::{Error, Result};
use crate::position::Position;
use crate::scanner::{QuoteStyle, Token};
use crate::scanner::token_processor::{is_blank_char, is_break_char};
use crate::text::{push_char, push_str};
use vstd::prelude::*;

verus! {

/// What `\c` stands for in the fast scanner: the common escapes map to
/// one character; any other keeps the backslash and the character.
pub open spec fn fast_escape(c: char) -> Seq<char> {
    if c == 'n' {
        seq!['\n']
    } else if c == 't' {
        seq!['\t']
    } else if c == 'r' {
        seq!['\r']
    } else if c == '\\' {
        seq!['\\']
    } else if c == '"' {
        seq!['"']
    } else if c == '\'' {
        seq!['\'']
    } else if c == '0' {
        seq!['\0']
    } else {
        seq!['\\', c]
    }
}

/// A scan result with `p` in front of its text.
pub open spec fn prefixed(p: Seq<char>, r: Option<(Seq<char>, int)>) -> Option<(Seq<char>, int)> {
    match r {
        Some((s, e)) => Some((p + s, e)),
        None => None,
    }
}

/// The rest of a quoted string from character index `pos`: its text and
/// the index after the closing quote, or `None` when it is unterminated.
/// The string ends at `q` or at the opening character `open`; in a
/// single-quoted string `''` stands for one quote; in a double-quoted
/// string a backslash starts an escape.
pub open spec fn quoted_scan(cs: Seq<char>, pos: int, q: char, open: char) -> Option<(Seq<char>, int)>
    decreases cs.len() - pos,
{
    if pos < 0 || pos >= cs.len() {
        None
    } else if q == '\'' && cs[pos] == '\'' && pos + 1 < cs.len() && cs[pos + 1] == '\'' {
        prefixed(seq!['\''], quoted_scan(cs, pos + 2, q, open))
    } else if cs[pos] == q || cs[pos] == open {
        Some((Seq::empty(), pos + 1))
    } else if cs[pos] == '\\' && q == '"' {
        if pos + 1 >= cs.len() {
            None
        } else {
            prefixed(fast_escape(cs[pos + 1]), quoted_scan(cs, pos + 2, q, open))
        }
    } else {
        prefixed(seq![cs[pos]], quoted_scan(cs, pos + 1, q, open))
    }
}

/// The first index at or after `p` that is not a space or a tab.
pub open spec fn blanks_end(cs: Seq<char>, p: int) -> int
    decreases cs.len() - p,
{
    if 0 <= p < cs.len() && is_blank_char(cs[p]) {
        blanks_end(cs, p + 1)
    } else {
        p
    }
}

/// The first index at or after `p` that is a line break, or the end.
pub open spec fn line_end(cs: Seq<char>, p: int) -> int
    decreases cs.len() - p,
{
    if 0 <= p < cs.len() && !is_break_char(cs[p]) {
        line_end(cs, p + 1)
    } else {
        p
    }
}

/// `blanks_end` never moves backwards.
pub proof fn lemma_blanks_end_ge(cs: Seq<char>, p: int)
    ensures
        blanks_end(cs, p) >= p,
    decreases cs.len() - p,
{
    if 0 <= p < cs.len() && is_blank_char(cs[p]) {
        lemma_blanks_end_ge(cs, p + 1);
    }
}

/// A character that ends a plain scalar in the fast scanner.
pub open spec fn ends_plain(c: char) -> bool {
    c == ':' || c == '{' || c == '}' || c == '[' || c == ']' || c == ',' || c == '#' || c == '&' || c
        == '*' || c == '!' || c == '|' || c == '>' || c == '\'' || c == '"' || c == '%' || c == '@'
        || c == '`'
}

/// A character after a run of blanks that ends a plain scalar.
pub open spec fn ends_after_blanks(c: char) -> bool {
    c == '\n' || c == '\r' || c == ':' || c == '{' || c == '}' || c == '[' || c == ']' || c == ','
        || c == '#'
}

/// The plain scalar from character index `pos`: its text (each inner run
/// of blanks as one space) and the index where it stops.
pub open spec fn plain_scan(cs: Seq<char>, pos: int) -> (Seq<char>, int)
    decreases cs.len() - pos,
{
    if pos < 0 || pos >= cs.len() {
        (Seq::empty(), pos)
    } else if ends_plain(cs[pos]) || is_break_char(cs[pos]) {
        (Seq::empty(), pos)
    } else if is_blank_char(cs[pos]) {
        let nx = blanks_end(cs, pos + 1);
        if nx >= cs.len() || ends_after_blanks(cs[nx]) {
            (Seq::empty(), pos)
        } else {
            proof {
                lemma_blanks_end_ge(cs, pos + 1);
            }
            let r = plain_scan(cs, nx);
            (seq![' '] + r.0, r.1)
        }
    } else {
        let r = plain_scan(cs, pos + 1);
        (seq![cs[pos]] + r.0, r.1)
    }
}

/// A character with the Unicode `White_Space` property.
pub open spec fn is_white_space(c: char) -> bool {
    ||| c == '\t' || c == '\n' || c == '\u{b}' || c == '\u{c}' || c == '\r' || c == ' '
    ||| c == '\u{85}' || c == '\u{a0}' || c == '\u{1680}'
    ||| ('\u{2000}' <= c && c <= '\u{200a}')
    ||| c == '\u{2028}' || c == '\u{2029}' || c == '\u{202f}' || c == '\u{205f}' || c == '\u{3000}'
}

/// The text without trailing white space.
pub open spec fn trim_white_end(s: Seq<char>) -> Seq<char>
    decreases s.len(),
{
    if s.len() > 0 && is_white_space(s.last()) {
        trim_white_end(s.drop_last())
    } else {
        s
    }
}

/// Whether a character has the Unicode `White_Space` property.
pub fn white_space(c: char) -> (b: bool)
    ensures
        b == is_white_space(c),
{
    c == '\t' || c == '\n' || c == '\u{b}' || c == '\u{c}' || c == '\r' || c == ' ' || c == '\u{85}'
        || c == '\u{a0}' || c == '\u{1680}' || ('\u{2000}' <= c && c <= '\u{200a}') || c == '\u{2028}'
        || c == '\u{2029}' || c == '\u{202f}' || c == '\u{205f}' || c == '\u{3000}'
}

/// The text without trailing white space.
pub fn trim_end_chars(s: &str) -> (r: String)
    ensures
        r@ == trim_white_end(s@),
{
    let cs = crate::text::str_to_chars(s);
    let mut n = cs.len();
    proof {
        assert(cs@.subrange(0, n as int) =~= cs@);
    }
    while n > 0 && white_space(cs[n - 1])
        invariant
            n <= cs@.len(),
            cs@ == s@,
            trim_white_end(s@) == trim_white_end(cs@.subrange(0, n as int)),
        decreases n,
    {
        proof {
            let pre = cs@.subrange(0, n as int);
            assert(pre.drop_last() =~= cs@.subrange(0, n - 1));
        }
        n = n - 1;
    }
    proof {
        let pre = cs@.subrange(0, n as int);
        if n > 0 {
            assert(pre.last() == cs@[n - 1]);
        }
    }
    crate::text::chars_range_to_string(cs.as_slice(), 0, n)
}

/// Fast string scanning over character slices.
pub struct StringScanner {
    buffer: String,
}

impl StringScanner {
    /// The work buffer's text.
    pub closed spec fn spec_buffer(&self) -> Seq<char> {
        self.buffer@
    }

    /// A scanner with an empty work buffer.
    pub fn new() -> (s: Self)
        ensures
            s.spec_buffer().len() == 0,
    {
        StringScanner { buffer: String::new() }
    }

    /// Scan a quoted string whose opening quote is at `start_pos`; returns
    /// its text, the style named by `quote_char`, and the index after the
    /// closing quote. The string ends at `quote_char` or at the character
    /// that opened it. An error when it is unterminated or when
    /// `start_pos` is past the end.
    #[verifier::loop_isolation(false)]
    pub fn scan_quoted_string(&mut self, chars: &[char], start_pos: usize, quote_char: char) -> (r:
        Result<(String, QuoteStyle, usize)>)
        ensures
            start_pos >= chars@.len() ==> r is Err,
            start_pos < chars@.len() ==> {
                let scan = quoted_scan(chars@, start_pos + 1, quote_char, chars@[start_pos as int]);
                &&& r is Ok <==> scan is Some
                &&& r matches Ok((text, style, end)) ==> {
                    &&& scan == Some((text@, end as int))
                    &&& style == (if quote_char == '\'' {
                        QuoteStyle::Single
                    } else {
                        QuoteStyle::Double
                    })
                }
            },
    {
        self.buffer = String::new();
        let n = chars.len();
        if start_pos >= n {
            return Err(Error::parse(Position::new(), "a quoted string must start inside the input"));
        }
        let open = chars[start_pos];
        let style = if quote_char == '\'' {
            QuoteStyle::Single
        } else {
            QuoteStyle::Double
        };
        let mut pos = start_pos + 1;
        let ghost cs = chars@;
        proof {
            assert(self.buffer@ + Seq::<char>::empty() =~= Seq::<char>::empty());
            assert(quoted_scan(cs, start_pos + 1, quote_char, open) == prefixed(
                self.buffer@,
                quoted_scan(cs, pos as int, quote_char, open),
            )) by {
                match quoted_scan(cs, pos as int, quote_char, open) {
                    Some((s, e)) => {
                        assert(self.buffer@ + s =~= s);
                    },
                    None => {},
                }
            }
        }
        while pos < n
            invariant
                start_pos < pos <= n,
                n == cs.len(),
                cs == chars@,
                open == cs[start_pos as int],
                quoted_scan(cs, start_pos + 1, quote_char, open) == prefixed(
                    self.buffer@,
                    quoted_scan(cs, pos as int, quote_char, open),
                ),
            decreases n - pos,
        {
            let c = chars[pos];
            let ghost before = self.buffer@;
            if quote_char == '\'' && c == '\'' && pos + 1 < n && chars[pos + 1] == '\'' {
                push_char(&mut self.buffer, '\'');
                proof {
                    lemma_prefixed_assoc(before, seq!['\''], quoted_scan(cs, pos + 2, quote_char, open));
                }
                pos = pos + 2;
            } else if c == quote_char || c == open {
                proof {
                    assert(self.buffer@ + Seq::<char>::empty() =~= self.buffer@);
                }
                let text = self.buffer.clone();
                return Ok((text, style, pos + 1));
            } else if c == '\\' && quote_char == '"' {
                if pos + 1 >= n {
                    return Err(Error::parse(Position::new(), "Unexpected end of input in escape sequence"));
                }
                let e = chars[pos + 1];
                if e == 'n' {
                    push_char(&mut self.buffer, '\n');
                } else if e == 't' {
                    push_char(&mut self.buffer, '\t');
                } else if e == 'r' {
                    push_char(&mut self.buffer, '\r');
                } else if e == '\\' {
                    push_char(&mut self.buffer, '\\');
                } else if e == '"' {
                    push_char(&mut self.buffer, '"');
                } else if e == '\'' {
                    push_char(&mut self.buffer, '\'');
                } else if e == '0' {
                    push_char(&mut self.buffer, '\0');
                } else {
                    push_char(&mut self.buffer, '\\');
                    push_char(&mut self.buffer, e);
                }
                proof {
                    assert(self.buffer@ =~= before + fast_escape(e));
                    lemma_prefixed_assoc(before, fast_escape(e), quoted_scan(cs, pos + 2, quote_char, open));
                }
                pos = pos + 2;
            } else {
                push_char(&mut self.buffer, c);
                proof {
                    lemma_prefixed_assoc(before, seq![c], quoted_scan(cs, pos + 1, quote_char, open));
                }
                pos = pos + 1;
            }
        }
        if quote_char == '"' {
            Err(Error::parse(Position::new(), "Unterminated double quoted string"))
        } else {
            Err(Error::parse(Position::new(), "Unterminated single quoted string"))
        }
    }

    /// Scan a plain scalar from `start_pos`: text up to an indicator, a
    /// line break, or blanks followed by one of those or the end; inner
    /// runs of blanks become one space and trailing white space is
    /// trimmed. Returns the text and the index where it stopped.
    #[verifier::loop_isolation(false)]
    pub fn scan_plain_scalar(&mut self, chars: &[char], start_pos: usize) -> (r: Result<(String, usize)>)
        ensures
            r matches Ok((text, end)) && text@ == trim_white_end(plain_scan(chars@, start_pos as int).0)
                && end == plain_scan(chars@, start_pos as int).1,
    {
        self.buffer = String::new();
        let n = chars.len();
        let ghost cs = chars@;
        let mut pos = start_pos;
        proof {
            let r = plain_scan(cs, pos as int);
            assert(self.buffer@ + r.0 =~= r.0);
        }
        while pos < n
            invariant
                n == cs.len(),
                cs == chars@,
                start_pos <= pos,
                plain_scan(cs, start_pos as int).0 == self.buffer@ + plain_scan(cs, pos as int).0,
                plain_scan(cs, start_pos as int).1 == plain_scan(cs, pos as int).1,
            decreases n - pos,
        {
            let c = chars[pos];
            let ghost before = self.buffer@;
            if c == ':' || c == '{' || c == '}' || c == '[' || c == ']' || c == ',' || c == '#' || c
                == '&' || c == '*' || c == '!' || c == '|' || c == '>' || c == '\'' || c == '"' || c
                == '%' || c == '@' || c == '`' || c == '\n' || c == '\r' {
                break;
            } else if c == ' ' || c == '\t' {
                let mut next = pos + 1;
                proof {
                    assert(blanks_end(cs, pos + 1) == blanks_end(cs, next as int));
                }
                while next < n && (chars[next] == ' ' || chars[next] == '\t')
                    invariant
                        pos < next <= n,
                        n == cs.len(),
                        cs == chars@,
                        blanks_end(cs, pos + 1) == blanks_end(cs, next as int),
                    decreases n - next,
                {
                    next = next + 1;
                }
                if next >= n || chars[next] == '\n' || chars[next] == '\r' || chars[next] == ':'
                    || chars[next] == '{' || chars[next] == '}' || chars[next] == '[' || chars[next]
                    == ']' || chars[next] == ',' || chars[next] == '#' {
                    break;
                }
                push_char(&mut self.buffer, ' ');
                proof {
                    assert(self.buffer@ + plain_scan(cs, next as int).0 =~= before + (seq![' ']
                        + plain_scan(cs, next as int).0));
                }
                pos = next;
            } else {
                push_char(&mut self.buffer, c);
                proof {
                    assert(self.buffer@ + plain_scan(cs, pos + 1).0 =~= before + (seq![c] + plain_scan(
                        cs,
                        pos + 1,
                    ).0));
                }
                pos = pos + 1;
            }
        }
        proof {
            assert(self.buffer@ + plain_scan(cs, pos as int).0 =~= self.buffer@);
        }
        let text = trim_end_chars(self.buffer.as_str());
        Ok((text, pos))
    }

    /// The first index at or after `pos` that is not a space or a tab.
    pub fn skip_whitespace(chars: &[char], pos: usize) -> (r: usize)
        ensures
            r == blanks_end(chars@, pos as int),
    {
        let mut p = pos;
        while p < chars.len() && (chars[p] == ' ' || chars[p] == '\t')
            invariant
                pos <= p,
                blanks_end(chars@, pos as int) == blanks_end(chars@, p as int),
            decreases chars@.len() - p,
        {
            p = p + 1;
        }
        p
    }

    /// Whether a line break is at `pos`.
    pub fn is_line_ending(chars: &[char], pos: usize) -> (b: bool)
        ensures
            b == (pos < chars@.len() && is_break_char(chars@[pos as int])),
    {
        pos < chars.len() && (chars[pos] == '\n' || chars[pos] == '\r')
    }

    /// The first index at or after `pos` that is a line break, or the end.
    pub fn skip_to_line_end(chars: &[char], pos: usize) -> (r: usize)
        ensures
            r == line_end(chars@, pos as int),
    {
        let mut p = pos;
        while p < chars.len() && !(chars[p] == '\n' || chars[p] == '\r')
            invariant
                pos <= p,
                line_end(chars@, pos as int) == line_end(chars@, p as int),
            decreases chars@.len() - p,
        {
            p = p + 1;
        }
        p
    }
}

/// Prefixing twice is prefixing with the concatenation.
proof fn lemma_prefixed_assoc(a: Seq<char>, b: Seq<char>, r: Option<(Seq<char>, int)>)
    ensures
        prefixed(a, prefixed(b, r)) == prefixed(a + b, r),
{
    match r {
        Some((s, e)) => {
            assert(a + (b + s) =~= (a + b) + s);
        },
        None => {},
    }
}

impl Default for StringScanner {
    /// A scanner with an empty work buffer.
    fn default() -> (s: Self)
        ensures
            s.spec_buffer().len() == 0,
    {
        Self::new()
    }
}

/// The capacity of a vector's allocation.
///
/// Trusted: calls `Vec::capacity`; what the allocator gave is not stated.
#[verifier::external_body]
pub(crate) fn vec_capacity<T>(v: &Vec<T>) -> usize {
    v.capacity()
}

/// Lower the capacity of a vector's allocation.
///
/// Trusted: calls `Vec::shrink_to`, documented to change only the
/// allocation, never the elements.
#[verifier::external_body]
pub(crate) fn vec_shrink_to<T>(v: &mut Vec<T>, min_capacity: usize)
    ensures
        final(v)@ == old(v)@,
{
    v.shrink_to(min_capacity)
}

/// A growable buffer of tokens that can give back spare memory.
pub struct TokenBuffer {
    tokens: Vec<Token>,
    capacity: usize,
}

impl View for TokenBuffer {
    type V = Seq<Token>;

    closed spec fn view(&self) -> Seq<Token> {
        self.tokens@
    }
}

impl TokenBuffer {
    /// The capacity the buffer shrinks back to.
    pub closed spec fn spec_capacity(&self) -> usize {
        self.capacity
    }

    /// An empty buffer with the default capacity.
    pub fn new() -> (b: Self)
        ensures
            b@ == Seq::<Token>::empty(),
            b.spec_capacity() == 256,
    {
        TokenBuffer { tokens: Vec::new(), capacity: 256 }
    }

    /// An empty buffer with room for `capacity` tokens.
    pub fn with_capacity(capacity: usize) -> (b: Self)
        ensures
            b@ == Seq::<Token>::empty(),
            b.spec_capacity() == capacity,
    {
        TokenBuffer { tokens: Vec::with_capacity(capacity), capacity }
    }

    /// Append a token.
    pub fn push(&mut self, token: Token)
        ensures
            final(self)@ == old(self)@.push(token),
            final(self).spec_capacity() == old(self).spec_capacity(),
    {
        self.tokens.push(token);
    }

    /// The token at `index`, if there is one.
    pub fn get(&self, index: usize) -> (r: Option<&Token>)
        ensures
            index < self@.len() ==> r == Some(&self@[index as int]),
            index >= self@.len() ==> r is None,
    {
        if index < self.tokens.len() {
            Some(&self.tokens[index])
        } else {
            None
        }
    }

    /// The number of tokens.
    pub fn len(&self) -> (n: usize)
        ensures
            n == self@.len(),
    {
        self.tokens.len()
    }

    /// Whether the buffer holds no token.
    pub fn is_empty(&self) -> (b: bool)
        ensures
            b == (self@.len() == 0),
    {
        self.tokens.len() == 0
    }

    /// Remove every token.
    pub fn clear(&mut self)
        ensures
            final(self)@ == Seq::<Token>::empty(),
            final(self).spec_capacity() == old(self).spec_capacity(),
    {
        self.tokens.clear();
    }

    /// Give back spare memory when the buffer is empty and holds more
    /// than twice its default capacity; the tokens are unchanged.
    pub fn shrink_if_needed(&mut self)
        ensures
            final(self)@ == old(self)@,
            final(self).spec_capacity() == old(self).spec_capacity(),
    {
        let cap = vec_capacity(&self.tokens);
        if cap > self.capacity && cap - self.capacity > self.capacity && self.tokens.len() == 0 {
            vec_shrink_to(&mut self.tokens, self.capacity);
        }
    }
}

impl Default for TokenBuffer {
    /// An empty buffer with the default capacity.
    fn default() -> (b: Self)
        ensures
            b@ == Seq::<Token>::empty(),
            b.spec_capacity() == 256,
    {
        Self::new()
    }
}

} // verus!

verus! {

/// Escaping a quoting character (the double quote, the single quote or
/// the backslash) gives that character alone, with no backslash.
pub proof fn law_escaped_quotes_stand_alone(c: char)
    requires
        c == '"' || c == '\'' || c == '\\',
    ensures
        fast_escape(c) == seq![c],
{
}

/// Each escape the fast scanner knows (`\n`, `\t`, `\r`, `\0`, `\\`, `\"`
/// and `\'`) gives exactly one character, and no escape gives more than
/// two; only an unknown escape keeps its backslash.
pub proof fn law_known_escapes_give_one_character(c: char)
    ensures
        (c == 'n' || c == 't' || c == 'r' || c == '0' || c == '\\' || c == '"' || c == '\'') ==> fast_escape(
            c,
        ).len() == 1,
        1 <= fast_escape(c).len() <= 2,
        fast_escape(c).len() == 2 ==> fast_escape(c) == seq!['\\', c] && !(c == 'n' || c == 't' || c == 'r' || c
            == '0' || c == '\\' || c == '"' || c == '\''),
{
}

/// Where the fast scanner decodes an escape to one character, it decodes
/// it as a YAML double-quoted scalar does, but for `\'`, which YAML does
/// not have.
pub proof fn law_fast_escapes_agree_with_yaml(c: char)
    requires
        fast_escape(c).len() == 1,
        c != '\'',
    ensures
        crate::scanner::quoted::spec_simple_escape(c) == Some(fast_escape(c)[0]),
{
}

} // verus!
