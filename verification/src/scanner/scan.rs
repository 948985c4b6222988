//! The tokenizer: turns YAML source text into tokens with the byte
//! positions where each starts and ends.

use crate::chars::spec_len_utf8;
use crate::error::{Error, Result};
use crate::position::{Position, spec_advance};
use crate::scanner::{QuoteStyle, Token, TokenType};
use crate::slicing::{utf8_len, lemma_utf8_len_push, lemma_utf8_len_prefix};
use crate::text::{push_char, chars_range_to_string};
use vstd::prelude::*;

verus! {

/// A place where a simple (implicit) key may start.
#[derive(Debug, Clone, Copy)]
pub struct SimpleKey {
    /// Where in the token list a `Key` token would be inserted.
    pub token_number: usize,
    /// Whether a `:` must follow (a block key at the current indentation).
    pub required: bool,
    /// The character index where the key starts.
    pub char_index: usize,
    /// The position where the key starts.
    pub position: Position,
}

/// The tokenizer's state over a character sequence.
pub struct Scanner<'a> {
    /// The input characters.
    pub chars: &'a [char],
    /// The index of the next character.
    pub i: usize,
    /// The position of the next character.
    pub pos: Position,
    /// The tokens produced so far.
    pub tokens: Vec<Token>,
    /// The flow nesting depth (0 in block context).
    pub flow_level: usize,
    /// The current block indentation column plus one (0 before any block).
    pub indent: usize,
    /// Enclosing block indentations, in the same plus-one form.
    pub indents: Vec<usize>,
    /// Whether a simple key may start at the next token.
    pub allow_simple_key: bool,
    /// The possible simple key at each flow level, innermost last.
    pub simple_keys: Vec<Option<SimpleKey>>,
    /// Whether the stream end has been emitted.
    pub done: bool,
}

/// A token starts no later than it ends, and ends no later than `limit`.
pub open spec fn token_within(t: Token, limit: usize) -> bool {
    t.start_position.index <= t.end_position.index <= limit
}

/// No comment indicator `#` stands in `cs` from `i` on.
pub open spec fn no_comment_from(cs: Seq<char>, i: int) -> bool {
    forall|k: int| i <= k < cs.len() ==> #[trigger] cs[k] != '#'
}

impl<'a> Scanner<'a> {
    /// The scanner's bookkeeping is consistent: the position is the byte
    /// offset of the next character, every token lies before it, and there
    /// is one simple-key slot per flow level.
    pub open spec fn wf(&self) -> bool {
        &&& self.i <= self.chars@.len()
        &&& utf8_len(self.chars@) + 8 < usize::MAX
        &&& self.chars@.len() + 16 < usize::MAX
        &&& self.pos.index == utf8_len(self.chars@.subrange(0, self.i as int))
        &&& 1 <= self.pos.line <= self.i + 1
        &&& 1 <= self.pos.column <= self.i + 1
        &&& forall|k: int| 0 <= k < self.tokens@.len() ==> token_within(#[trigger] self.tokens@[k], self.pos.index)
        &&& self.simple_keys@.len() == self.flow_level + 1
        &&& self.flow_level <= self.i
        &&& self.indent <= self.i + 1
        &&& forall|k: int| 0 <= k < self.indents@.len() ==> #[trigger] self.indents@[k] < self.indent
        &&& forall|j: int, k: int| 0 <= j < k < self.indents@.len() ==> self.indents@[j] < self.indents@[k]
        &&& forall|k: int|
            0 <= k < self.simple_keys@.len() ==> (#[trigger] self.simple_keys@[k] matches Some(key) ==> {
                &&& key.token_number <= self.tokens@.len()
                &&& key.position.index <= self.pos.index
                &&& key.char_index <= self.i
                &&& key.position.column <= key.char_index + 1
            })
    }

    /// The character `k` places ahead, or NUL past the end.
    pub open spec fn spec_peek(&self, k: int) -> char {
        if self.i + k < self.chars@.len() {
            self.chars@[self.i + k]
        } else {
            '\0'
        }
    }

    /// The character `k` places ahead, or NUL past the end.
    pub fn peek(&self, k: usize) -> (c: char)
        requires
            self.wf(),
            k <= 4,
        ensures
            c == self.spec_peek(k as int),
    {
        proof {
            lemma_utf8_len_prefix(self.chars@, self.chars@.len() as int, self.chars@.len() as int);
            assert(self.chars@.subrange(0, self.chars@.len() as int) =~= self.chars@);
        }
        if self.i + k < self.chars.len() {
            self.chars[self.i + k]
        } else {
            '\0'
        }
    }

    /// Whether the input is exhausted.
    pub fn at_end(&self) -> (b: bool)
        ensures
            b == (self.i >= self.chars@.len()),
    {
        self.i >= self.chars.len()
    }

    /// The current column, counted from zero.
    pub open spec fn spec_column(&self) -> usize {
        (self.pos.column - 1) as usize
    }

    /// The current column, counted from zero.
    pub fn column(&self) -> (c: usize)
        requires
            self.wf(),
        ensures
            c == self.spec_column(),
    {
        self.pos.column - 1
    }

    /// Consume one character.
    pub fn forward(&mut self)
        requires
            old(self).wf(),
            old(self).i < old(self).chars@.len(),
        ensures
            final(self).wf(),
            final(self).i == old(self).i + 1,
            final(self).chars == old(self).chars,
            final(self).tokens == old(self).tokens,
            final(self).flow_level == old(self).flow_level,
            final(self).indent == old(self).indent,
            final(self).indents == old(self).indents,
            final(self).allow_simple_key == old(self).allow_simple_key,
            final(self).simple_keys == old(self).simple_keys,
            final(self).done == old(self).done,
            final(self).pos == spec_advance(old(self).pos, old(self).chars@[old(self).i as int]),
            final(self).pos.index == old(self).pos.index + spec_len_utf8(
                old(self).chars@[old(self).i as int],
            ),
            final(self).pos.index > old(self).pos.index,
    {
        let c = self.chars[self.i];
        proof {
            let cs = self.chars@;
            let i = self.i as int;
            assert(cs.subrange(0, i + 1) =~= cs.subrange(0, i).push(c));
            lemma_utf8_len_push(cs.subrange(0, i), c);
            lemma_utf8_len_prefix(cs, i + 1, cs.len() as int);
            assert(cs.subrange(0, cs.len() as int) =~= cs);
        }
        self.pos = self.pos.advance(c);
        self.i = self.i + 1;
    }

    /// Append a token that starts at `start` and ends here.
    pub fn emit(&mut self, token_type: TokenType, start: Position)
        requires
            old(self).wf(),
            start.index <= old(self).pos.index,
        ensures
            final(self).wf(),
            final(self).i == old(self).i,
            final(self).chars == old(self).chars,
            final(self).pos == old(self).pos,
            final(self).tokens@ == old(self).tokens@.push(
                Token { token_type, start_position: start, end_position: old(self).pos },
            ),
            final(self).flow_level == old(self).flow_level,
            final(self).indent == old(self).indent,
            final(self).indents == old(self).indents,
            final(self).allow_simple_key == old(self).allow_simple_key,
            final(self).simple_keys == old(self).simple_keys,
            final(self).done == old(self).done,
    {
        let end = self.pos;
        self.tokens.push(Token::new(token_type, start, end));
        proof {
            assert forall|k: int| 0 <= k < self.simple_keys@.len() implies (#[trigger] self.simple_keys@[k] matches Some(key) ==> key.token_number <= self.tokens@.len()) by {
                if let Some(key) = self.simple_keys@[k] {
                    assert(key.token_number <= old(self).tokens@.len());
                }
            }
        }
    }
}


/// A space, tab, line break or the end of input.
pub open spec fn spec_is_blank_or_end(c: char) -> bool {
    c == ' ' || c == '\t' || c == '\r' || c == '\n' || c == '\0'
}

/// A space, tab, line break or the end of input.
pub fn is_blank_or_end(c: char) -> (b: bool)
    ensures
        b == spec_is_blank_or_end(c),
{
    c == ' ' || c == '\t' || c == '\r' || c == '\n' || c == '\0'
}

/// A line break character.
pub fn is_break(c: char) -> (b: bool)
    ensures
        b == (c == '\r' || c == '\n'),
{
    c == '\r' || c == '\n'
}

/// One of the flow indicators `,[]{}`.
pub fn is_flow_punct(c: char) -> (b: bool)
    ensures
        b == (c == ',' || c == '[' || c == ']' || c == '{' || c == '}'),
{
    c == ',' || c == '[' || c == ']' || c == '{' || c == '}'
}

/// One of the flow indicators `,[]{}`.
pub open spec fn spec_is_flow_punct(c: char) -> bool {
    c == ',' || c == '[' || c == ']' || c == '{' || c == '}'
}

/// The character at `k`, or NUL past the end.
pub open spec fn char_at(cs: Seq<char>, k: int) -> char {
    if 0 <= k < cs.len() {
        cs[k]
    } else {
        '\0'
    }
}

/// Where a word starting at `i` ends: at the first blank, the end, or (when
/// `stop_at_flow`) flow punctuation.
pub open spec fn word_end(cs: Seq<char>, i: int, stop_at_flow: bool) -> int
    decreases cs.len() - i,
{
    if 0 <= i < cs.len() && !spec_is_blank_or_end(cs[i]) && !(stop_at_flow && spec_is_flow_punct(cs[i])) {
        word_end(cs, i + 1, stop_at_flow)
    } else {
        i
    }
}

/// Where a run of spaces and tabs starting at `i` ends.
pub open spec fn blank_end(cs: Seq<char>, i: int) -> int
    decreases cs.len() - i,
{
    if 0 <= i < cs.len() && (cs[i] == ' ' || cs[i] == '\t') {
        blank_end(cs, i + 1)
    } else {
        i
    }
}

/// Where a run of decimal digits starting at `i` ends.
pub open spec fn digit_end(cs: Seq<char>, i: int) -> int
    decreases cs.len() - i,
{
    if 0 <= i < cs.len() && crate::numbers::is_digit_char(cs[i]) {
        digit_end(cs, i + 1)
    } else {
        i
    }
}

/// The digit run from `i` lies within the input and holds only digits.
pub proof fn lemma_digit_end(cs: Seq<char>, i: int)
    requires
        0 <= i <= cs.len(),
    ensures
        i <= digit_end(cs, i) <= cs.len(),
        crate::numbers::all_digits(cs.subrange(i, digit_end(cs, i))),
    decreases cs.len() - i,
{
    if i < cs.len() && crate::numbers::is_digit_char(cs[i]) {
        lemma_digit_end(cs, i + 1);
        let e = digit_end(cs, i);
        assert forall|k: int| 0 <= k < e - i implies crate::numbers::is_digit_char(
            #[trigger] cs.subrange(i, e)[k],
        ) by {
            if k > 0 {
                assert(cs.subrange(i, e)[k] == cs.subrange(i + 1, e)[k - 1]);
            }
        }
    }
}

/// Whether a plain scalar's text can go on at `k`.
pub open spec fn plain_char_ok(cs: Seq<char>, k: int, in_flow: bool) -> bool {
    let c = char_at(cs, k);
    &&& 0 <= k < cs.len()
    &&& !spec_is_blank_or_end(c)
    &&& !(c == ':' && (spec_is_blank_or_end(char_at(cs, k + 1)) || (in_flow && spec_is_flow_punct(
        char_at(cs, k + 1),
    ))))
    &&& !(in_flow && (spec_is_flow_punct(c) || c == '?'))
}

impl<'a> Scanner<'a> {
    /// `new` is a later state of the same scan: still consistent, over the
    /// same characters, no earlier in the input.
    pub open spec fn advanced(old: Scanner<'a>, new: Scanner<'a>) -> bool {
        &&& new.wf()
        &&& new.chars == old.chars
        &&& new.i >= old.i
        &&& new.pos.index >= old.pos.index
        &&& (old.done ==> new.done)
    }

    /// The possible simple key at the current flow level is a required
    /// one.
    pub open spec fn key_required(&self) -> bool {
        self.simple_keys@[self.flow_level as int] matches Some(k) && k.required
    }

    /// Forget the possible simple key at the current level; an error when
    /// that key was required.
    pub fn remove_possible_simple_key(&mut self) -> (r: Result<()>)
        requires
            old(self).wf(),
        ensures
            Self::advanced(*old(self), *final(self)),
            final(self).i == old(self).i,
            final(self).tokens == old(self).tokens,
            final(self).flow_level == old(self).flow_level,
            final(self).done == old(self).done,
            final(self).pos == old(self).pos,
            final(self).indent == old(self).indent,
            final(self).indents == old(self).indents,
            final(self).allow_simple_key == old(self).allow_simple_key,
            r is Err <==> old(self).key_required(),
            r is Err ==> final(self).simple_keys == old(self).simple_keys,
            r is Ok ==> final(self).simple_keys@ == old(self).simple_keys@.update(old(self).flow_level as int, None),
    {
        let level = self.flow_level;
        match self.simple_keys[level] {
            Some(key) => {
                if key.required {
                    return Err(Error::parse(key.position, "could not find expected ':'"));
                }
            },
            None => {},
        }
        self.simple_keys.set(level, None);
        Ok(())
    }

    /// Record that a simple key may start here, when simple keys are
    /// allowed.
    pub fn save_possible_simple_key(&mut self) -> (r: Result<()>)
        requires
            old(self).wf(),
        ensures
            Self::advanced(*old(self), *final(self)),
            final(self).i == old(self).i,
            final(self).tokens == old(self).tokens,
            final(self).flow_level == old(self).flow_level,
            final(self).done == old(self).done,
            final(self).pos == old(self).pos,
            final(self).indent == old(self).indent,
            final(self).indents == old(self).indents,
            final(self).allow_simple_key == old(self).allow_simple_key,
            r is Err <==> old(self).allow_simple_key && old(self).key_required(),
            !old(self).allow_simple_key ==> final(self).simple_keys == old(self).simple_keys,
            r is Ok && old(self).allow_simple_key ==> final(self).simple_keys@ == old(self).simple_keys@.update(
                old(self).flow_level as int,
                Some(
                    SimpleKey {
                        token_number: old(self).tokens@.len() as usize,
                        required: old(self).flow_level == 0 && old(self).indent == old(self).pos.column,
                        char_index: old(self).i,
                        position: old(self).pos,
                    },
                ),
            ),
    {
        let required = self.flow_level == 0 && self.indent == self.pos.column;
        if self.allow_simple_key {
            self.remove_possible_simple_key()?;
            let key = SimpleKey {
                token_number: self.tokens.len(),
                required,
                char_index: self.i,
                position: self.pos,
            };
            let level = self.flow_level;
            self.simple_keys.set(level, Some(key));
            proof {
                assert(self.simple_keys@ =~= old(self).simple_keys@.update(old(self).flow_level as int, Some(key)));
            }
        }
        Ok(())
    }

    /// A possible simple key can no longer be a key: it started on an
    /// earlier line or more than 1024 characters back.
    pub open spec fn is_stale(&self, k: SimpleKey) -> bool {
        k.position.line != self.pos.line || self.i - k.char_index > 1024
    }

    /// Drop possible simple keys that can no longer be keys (they started
    /// on an earlier line or too far back); an error for a required one.
    pub fn stale_possible_simple_keys(&mut self) -> (r: Result<()>)
        requires
            old(self).wf(),
        ensures
            Self::advanced(*old(self), *final(self)),
            final(self).i == old(self).i,
            final(self).tokens == old(self).tokens,
            final(self).flow_level == old(self).flow_level,
            final(self).done == old(self).done,
            final(self).pos == old(self).pos,
            final(self).indent == old(self).indent,
            final(self).indents == old(self).indents,
            final(self).allow_simple_key == old(self).allow_simple_key,
            r is Err <==> exists|l: int|
                0 <= l < old(self).simple_keys@.len() && (#[trigger] old(self).simple_keys@[l] matches Some(k)
                    && old(self).is_stale(k) && k.required),
            r is Ok ==> final(self).simple_keys@.len() == old(self).simple_keys@.len() && forall|l: int|
                0 <= l < old(self).simple_keys@.len() ==> #[trigger] final(self).simple_keys@[l] == (if (old(
                    self,
                ).simple_keys@[l] matches Some(k) && old(self).is_stale(k)) {
                    None
                } else {
                    old(self).simple_keys@[l]
                }),
    {
        let mut level: usize = 0;
        while level < self.simple_keys.len()
            invariant
                Self::advanced(*old(self), *self),
                self.i == old(self).i,
                self.tokens == old(self).tokens,
                self.flow_level == old(self).flow_level,
                self.done == old(self).done,
                self.pos == old(self).pos,
                self.indent == old(self).indent,
                self.indents == old(self).indents,
                self.allow_simple_key == old(self).allow_simple_key,
                level <= self.simple_keys@.len() == old(self).simple_keys@.len(),
                forall|l: int|
                    0 <= l < level ==> !(#[trigger] old(self).simple_keys@[l] matches Some(k) && old(self).is_stale(k)
                        && k.required),
                forall|l: int|
                    0 <= l < level ==> #[trigger] self.simple_keys@[l] == (if (old(self).simple_keys@[l] matches Some(
                        k,
                    ) && old(self).is_stale(k)) {
                        None
                    } else {
                        old(self).simple_keys@[l]
                    }),
                forall|l: int| level <= l < self.simple_keys@.len() ==> #[trigger] self.simple_keys@[l] == old(
                    self,
                ).simple_keys@[l],
            decreases self.simple_keys@.len() - level,
        {
            match self.simple_keys[level] {
                Some(key) => {
                    if key.position.line != self.pos.line || self.i - key.char_index > 1024 {
                        if key.required {
                            return Err(Error::parse(key.position, "could not find expected ':'"));
                        }
                        self.simple_keys.set(level, None);
                    }
                },
                None => {},
            }
            level = level + 1;
        }
        Ok(())
    }

    /// Close every block whose indentation is deeper than `column_plus1`
    /// (in block context), emitting a block end for each.
    pub fn unroll_indent(&mut self, column_plus1: usize)
        requires
            old(self).wf(),
        ensures
            Self::advanced(*old(self), *final(self)),
            final(self).i == old(self).i,
            final(self).flow_level == old(self).flow_level,
            final(self).done == old(self).done,
            final(self).simple_keys == old(self).simple_keys,
            final(self).pos == old(self).pos,
            final(self).allow_simple_key == old(self).allow_simple_key,
            old(self).flow_level > 0 || old(self).indent <= column_plus1 ==> final(self).tokens == old(self).tokens
                && final(self).indent == old(self).indent && final(self).indents == old(self).indents,
            old(self).flow_level == 0 ==> final(self).indent <= column_plus1,
            final(self).tokens@.len() >= old(self).tokens@.len(),
            final(self).tokens@.subrange(0, old(self).tokens@.len() as int) == old(self).tokens@,
            forall|k: int|
                old(self).tokens@.len() <= k < final(self).tokens@.len() ==> (#[trigger] final(self).tokens@[k]).token_type
                    is BlockEnd,
    {
        if self.flow_level > 0 {
            return;
        }
        while self.indent > column_plus1
            invariant
                Self::advanced(*old(self), *self),
                self.i == old(self).i,
                self.flow_level == old(self).flow_level,
                self.done == old(self).done,
                self.simple_keys == old(self).simple_keys,
                self.pos == old(self).pos,
                self.allow_simple_key == old(self).allow_simple_key,
                old(self).indent <= column_plus1 ==> self.tokens == old(self).tokens && self.indent == old(
                    self,
                ).indent && self.indents == old(self).indents,
                self.tokens@.len() >= old(self).tokens@.len(),
                self.tokens@.subrange(0, old(self).tokens@.len() as int) == old(self).tokens@,
                forall|k: int|
                    old(self).tokens@.len() <= k < self.tokens@.len() ==> (#[trigger] self.tokens@[k]).token_type
                        is BlockEnd,
            decreases self.indent,
        {
            match self.indents.pop() {
                Some(x) => {
                    self.indent = x;
                },
                None => {
                    self.indent = 0;
                },
            }
            let here = self.pos;
            let ghost before = self.tokens@;
            self.emit(TokenType::BlockEnd, here);
            proof {
                assert(self.tokens@.subrange(0, old(self).tokens@.len() as int) =~= before.subrange(
                    0,
                    old(self).tokens@.len() as int,
                ));
            }
        }
    }

    /// Open a block at `column_plus1` if it is deeper than the current one.
    pub fn add_indent(&mut self, column_plus1: usize) -> (b: bool)
        requires
            old(self).wf(),
            column_plus1 <= old(self).i + 1,
        ensures
            Self::advanced(*old(self), *final(self)),
            final(self).i == old(self).i,
            final(self).tokens == old(self).tokens,
            final(self).flow_level == old(self).flow_level,
            final(self).done == old(self).done,
            final(self).simple_keys == old(self).simple_keys,
            final(self).allow_simple_key == old(self).allow_simple_key,
            final(self).pos == old(self).pos,
            b == (old(self).indent < column_plus1),
            b ==> final(self).indent == column_plus1 && final(self).indents@ == old(self).indents@.push(
                old(self).indent,
            ),
            !b ==> final(self).indent == old(self).indent && final(self).indents == old(self).indents,
    {
        if self.indent < column_plus1 {
            let cur = self.indent;
            self.indents.push(cur);
            self.indent = column_plus1;
            true
        } else {
            false
        }
    }
}


impl<'a> Scanner<'a> {
    /// Append a token spanning `start` to `end`.
    pub fn emit_span(&mut self, token_type: TokenType, start: Position, end: Position)
        requires
            old(self).wf(),
            start.index <= end.index <= old(self).pos.index,
        ensures
            Self::advanced(*old(self), *final(self)),
            final(self).i == old(self).i,
            final(self).pos == old(self).pos,
            final(self).tokens@ == old(self).tokens@.push(
                Token { token_type, start_position: start, end_position: end },
            ),
            final(self).flow_level == old(self).flow_level,
            final(self).indent == old(self).indent,
            final(self).allow_simple_key == old(self).allow_simple_key,
            final(self).simple_keys == old(self).simple_keys,
            final(self).done == old(self).done,
    {
        self.tokens.push(Token::new(token_type, start, end));
        proof {
            assert forall|k: int| 0 <= k < self.simple_keys@.len() implies (#[trigger] self.simple_keys@[k] matches Some(key) ==> key.token_number <= self.tokens@.len()) by {
                if let Some(key) = self.simple_keys@[k] {
                    assert(key.token_number <= old(self).tokens@.len());
                }
            }
        }
    }

    /// Insert a single-position token at index `n` of the token list.
    pub fn insert_token(&mut self, n: usize, token_type: TokenType, at: Position)
        requires
            old(self).wf(),
            n <= old(self).tokens@.len(),
            at.index <= old(self).pos.index,
        ensures
            Self::advanced(*old(self), *final(self)),
            final(self).i == old(self).i,
            final(self).pos == old(self).pos,
            final(self).tokens@.len() == old(self).tokens@.len() + 1,
            final(self).flow_level == old(self).flow_level,
            final(self).indent == old(self).indent,
            final(self).allow_simple_key == old(self).allow_simple_key,
            final(self).simple_keys == old(self).simple_keys,
            final(self).done == old(self).done,
    {
        let ghost old_tokens = self.tokens@;
        self.tokens.insert(n, Token::simple(token_type, at));
        proof {
            assert forall|k: int| 0 <= k < self.tokens@.len() implies token_within(#[trigger] self.tokens@[k], self.pos.index) by {
                if k < n {
                    assert(self.tokens@[k] == old_tokens[k]);
                } else if k > n {
                    assert(self.tokens@[k] == old_tokens[k - 1]);
                }
            }
            assert forall|k: int| 0 <= k < self.simple_keys@.len() implies (#[trigger] self.simple_keys@[k] matches Some(key) ==> key.token_number <= self.tokens@.len()) by {
                if let Some(key) = self.simple_keys@[k] {
                    assert(key.token_number <= old_tokens.len());
                }
            }
        }
    }

    /// Consume one line break (`\r\n` counts as one).
    pub fn consume_break(&mut self)
        requires
            old(self).wf(),
            old(self).i < old(self).chars@.len(),
        ensures
            final(self).i <= old(self).i + 2,
            final(self).i == old(self).i + 2 ==> old(self).chars@[old(self).i as int] == '\r'
                && old(self).chars@[old(self).i + 1] == '\n',
            Self::advanced(*old(self), *final(self)),
            final(self).i > old(self).i,
            final(self).tokens == old(self).tokens,
            final(self).flow_level == old(self).flow_level,
            final(self).indent == old(self).indent,
            final(self).allow_simple_key == old(self).allow_simple_key,
            final(self).simple_keys == old(self).simple_keys,
            final(self).done == old(self).done,
    {
        let c = self.peek(0);
        self.forward();
        if c == '\r' && self.peek(0) == '\n' {
            self.forward();
        }
    }

    /// Skip spaces, tabs, comments (emitting a comment token for each) and
    /// line breaks up to the next token; a line break in block context
    /// allows a simple key again.
    pub fn scan_to_next_token(&mut self)
        requires
            old(self).wf(),
        ensures
            Self::advanced(*old(self), *final(self)),
            final(self).flow_level == old(self).flow_level,
            final(self).indent == old(self).indent,
            final(self).simple_keys == old(self).simple_keys,
            final(self).done == old(self).done,
            final(self).i == final(self).chars@.len() || ({
                let c = final(self).chars@[final(self).i as int];
                c != ' ' && c != '\t' && c != '#' && c != '\r' && c != '\n'
            }),
            final(self).tokens@.len() >= old(self).tokens@.len(),
            final(self).tokens@.subrange(0, old(self).tokens@.len() as int) == old(self).tokens@,
            forall|k: int|
                old(self).tokens@.len() <= k < final(self).tokens@.len() ==> (#[trigger] final(self).tokens@[k]).token_type
                    is Comment,
            no_comment_from(old(self).chars@, old(self).i as int) ==> final(self).tokens == old(self).tokens,
    {
        loop
            invariant
                Self::advanced(*old(self), *self),
                self.flow_level == old(self).flow_level,
                self.indent == old(self).indent,
                self.simple_keys == old(self).simple_keys,
                self.done == old(self).done,
                no_comment_from(old(self).chars@, old(self).i as int) ==> self.tokens == old(self).tokens,
                self.tokens@.len() >= old(self).tokens@.len(),
                self.tokens@.subrange(0, old(self).tokens@.len() as int) == old(self).tokens@,
                forall|k: int|
                    old(self).tokens@.len() <= k < self.tokens@.len() ==> (#[trigger] self.tokens@[k]).token_type
                        is Comment,
            ensures
                Self::advanced(*old(self), *self),
                self.flow_level == old(self).flow_level,
                self.indent == old(self).indent,
                self.simple_keys == old(self).simple_keys,
                self.done == old(self).done,
                no_comment_from(old(self).chars@, old(self).i as int) ==> self.tokens == old(self).tokens,
                self.tokens@.len() >= old(self).tokens@.len(),
                self.tokens@.subrange(0, old(self).tokens@.len() as int) == old(self).tokens@,
                forall|k: int|
                    old(self).tokens@.len() <= k < self.tokens@.len() ==> (#[trigger] self.tokens@[k]).token_type
                        is Comment,
                self.i == self.chars@.len() || ({
                    let c = self.chars@[self.i as int];
                    c != ' ' && c != '\t' && c != '#' && c != '\r' && c != '\n'
                }),
            decreases self.chars@.len() - self.i,
        {
            let ghost i0 = self.i;
            while !self.at_end() && (self.peek(0) == ' ' || self.peek(0) == '\t')
                invariant
                    Self::advanced(*old(self), *self),
                    self.i >= i0,
                    self.flow_level == old(self).flow_level,
                    self.indent == old(self).indent,
                    self.simple_keys == old(self).simple_keys,
                    self.done == old(self).done,
                    no_comment_from(old(self).chars@, old(self).i as int) ==> self.tokens == old(self).tokens,
                no_comment_from(old(self).chars@, old(self).i as int) ==> self.tokens == old(self).tokens,
                    self.tokens@.len() >= old(self).tokens@.len(),
                    self.tokens@.subrange(0, old(self).tokens@.len() as int) == old(self).tokens@,
                    forall|k: int|
                        old(self).tokens@.len() <= k < self.tokens@.len() ==> (#[trigger] self.tokens@[k]).token_type
                            is Comment,
                decreases self.chars@.len() - self.i,
            {
                self.forward();
            }
            if !self.at_end() && self.peek(0) == '#' {
                let start = self.pos;
                self.forward();
                let text_start = self.i;
                while !self.at_end() && !is_break(self.peek(0))
                    invariant
                        Self::advanced(*old(self), *self),
                        self.i >= i0,
                        start.index <= self.pos.index,
                        text_start <= self.i,
                        self.flow_level == old(self).flow_level,
                        self.indent == old(self).indent,
                        self.simple_keys == old(self).simple_keys,
                        self.done == old(self).done,
                        no_comment_from(old(self).chars@, old(self).i as int) ==> self.tokens == old(self).tokens,
                    no_comment_from(old(self).chars@, old(self).i as int) ==> self.tokens == old(self).tokens,
                no_comment_from(old(self).chars@, old(self).i as int) ==> self.tokens == old(self).tokens,
                        self.tokens@.len() >= old(self).tokens@.len(),
                        self.tokens@.subrange(0, old(self).tokens@.len() as int) == old(self).tokens@,
                        forall|k: int|
                            old(self).tokens@.len() <= k < self.tokens@.len() ==> (#[trigger] self.tokens@[k]).token_type
                                is Comment,
                    decreases self.chars@.len() - self.i,
                {
                    self.forward();
                }
                let text = chars_range_to_string(self.chars, text_start, self.i);
                let ghost before = self.tokens@;
                self.emit(TokenType::Comment(text), start);
                proof {
                    assert(self.tokens@.subrange(0, old(self).tokens@.len() as int) =~= before.subrange(
                        0,
                        old(self).tokens@.len() as int,
                    ));
                }
            }
            if !self.at_end() && is_break(self.peek(0)) {
                self.consume_break();
                if self.flow_level == 0 {
                    self.allow_simple_key = true;
                }
            } else {
                break;
            }
        }
    }

    /// Whether a document marker (`---` when `dashes`, else `...`) starts
    /// here at column zero and is followed by a blank or the end.
    pub fn check_document_indicator(&self, dashes: bool) -> (b: bool)
        requires
            self.wf(),
        ensures
            b ==> self.i + 3 <= self.chars@.len(),
            b == ({
                let m = if dashes {
                    '-'
                } else {
                    '.'
                };
                &&& self.pos.column == 1
                &&& self.spec_peek(0) == m && self.spec_peek(1) == m && self.spec_peek(2) == m
                &&& spec_is_blank_or_end(self.spec_peek(3))
                &&& self.i + 3 <= self.chars@.len()
            }),
    {
        let m = if dashes { '-' } else { '.' };
        self.pos.column == 1 && self.peek(0) == m && self.peek(1) == m && self.peek(2) == m
            && is_blank_or_end(self.peek(3)) && self.i + 3 <= self.chars.len()
    }

    /// Emit the end of the stream, closing every open block.
    pub fn fetch_stream_end(&mut self) -> (r: Result<()>)
        requires
            old(self).wf(),
        ensures
            Self::advanced(*old(self), *final(self)),
            r is Ok ==> final(self).done,
            r is Ok ==> final(self).tokens@.len() > 0 && final(self).tokens@.last().token_type is StreamEnd,
            r is Err <==> old(self).key_required(),
            r is Ok ==> final(self).i == old(self).i,
            r is Ok && old(self).indent == 0 ==> final(self).tokens@.len() == old(self).tokens@.len() + 1
                && final(self).tokens@.drop_last() == old(self).tokens@,
            r is Ok ==> final(self).pos == old(self).pos && final(self).tokens@.last().start_position
                == final(self).pos,
    {
        self.unroll_indent(0);
        self.remove_possible_simple_key()?;
        self.allow_simple_key = false;
        let here = self.pos;
        self.emit(TokenType::StreamEnd, here);
        self.done = true;
        Ok(())
    }

    /// Emit a document marker, closing every open block.
    pub fn fetch_document_indicator(&mut self, start_marker: bool) -> (r: Result<()>)
        requires
            old(self).wf(),
            old(self).i + 3 <= old(self).chars@.len(),
        ensures
            Self::advanced(*old(self), *final(self)),
            final(self).done == old(self).done,
            r is Ok ==> final(self).i > old(self).i,
            r is Err <==> old(self).key_required(),
            r is Ok ==> final(self).i == old(self).i + 3 && (if start_marker {
                final(self).tokens@.last().token_type is DocumentStart
            } else {
                final(self).tokens@.last().token_type is DocumentEnd
            }),
    {
        self.unroll_indent(0);
        self.remove_possible_simple_key()?;
        self.allow_simple_key = false;
        let start = self.pos;
        self.forward();
        self.forward();
        self.forward();
        if start_marker {
            self.emit(TokenType::DocumentStart, start);
        } else {
            self.emit(TokenType::DocumentEnd, start);
        }
        Ok(())
    }

    /// Emit the start of a flow collection and enter flow context.
    pub fn fetch_flow_collection_start(&mut self, sequence: bool) -> (r: Result<()>)
        requires
            old(self).wf(),
            old(self).i < old(self).chars@.len(),
        ensures
            Self::advanced(*old(self), *final(self)),
            final(self).done == old(self).done,
            r is Ok ==> final(self).i > old(self).i,
            r is Err <==> old(self).allow_simple_key && old(self).key_required(),
            r is Ok ==> final(self).i == old(self).i + 1 && final(self).flow_level == old(self).flow_level + 1
                && (if sequence {
                final(self).tokens@.last().token_type is FlowSequenceStart
            } else {
                final(self).tokens@.last().token_type is FlowMappingStart
            }),
    {
        self.save_possible_simple_key()?;
        let start = self.pos;
        self.forward();
        self.flow_level = self.flow_level + 1;
        self.simple_keys.push(None);
        self.allow_simple_key = true;
        if sequence {
            self.emit(TokenType::FlowSequenceStart, start);
        } else {
            self.emit(TokenType::FlowMappingStart, start);
        }
        Ok(())
    }

    /// Emit the end of a flow collection and leave its flow level.
    pub fn fetch_flow_collection_end(&mut self, sequence: bool) -> (r: Result<()>)
        requires
            old(self).wf(),
            old(self).i < old(self).chars@.len(),
        ensures
            Self::advanced(*old(self), *final(self)),
            final(self).done == old(self).done,
            r is Ok ==> final(self).i > old(self).i,
            r is Err <==> old(self).key_required() || old(self).flow_level == 0,
            r is Ok ==> final(self).i == old(self).i + 1 && final(self).flow_level == old(self).flow_level - 1
                && (if sequence {
                final(self).tokens@.last().token_type is FlowSequenceEnd
            } else {
                final(self).tokens@.last().token_type is FlowMappingEnd
            }),
    {
        self.remove_possible_simple_key()?;
        if self.flow_level == 0 {
            return Err(Error::parse(self.pos, "unexpected end of a flow collection"));
        }
        let start = self.pos;
        self.forward();
        self.flow_level = self.flow_level - 1;
        self.simple_keys.pop();
        self.allow_simple_key = false;
        if sequence {
            self.emit(TokenType::FlowSequenceEnd, start);
        } else {
            self.emit(TokenType::FlowMappingEnd, start);
        }
        Ok(())
    }

    /// Emit a flow entry separator (`,`).
    pub fn fetch_flow_entry(&mut self) -> (r: Result<()>)
        requires
            old(self).wf(),
            old(self).i < old(self).chars@.len(),
        ensures
            Self::advanced(*old(self), *final(self)),
            final(self).done == old(self).done,
            r is Ok ==> final(self).i > old(self).i,
            r is Err <==> old(self).key_required(),
            r is Ok ==> final(self).i == old(self).i + 1 && final(self).tokens@.last().token_type is FlowEntry,
    {
        self.allow_simple_key = true;
        self.remove_possible_simple_key()?;
        let start = self.pos;
        self.forward();
        self.emit(TokenType::FlowEntry, start);
        Ok(())
    }

    /// Emit a block entry (`-`), opening a block sequence when it is
    /// deeper than the current block.
    pub fn fetch_block_entry(&mut self) -> (r: Result<()>)
        requires
            old(self).wf(),
            old(self).i < old(self).chars@.len(),
        ensures
            Self::advanced(*old(self), *final(self)),
            final(self).done == old(self).done,
            r is Ok ==> final(self).i > old(self).i,
            r is Err <==> (old(self).flow_level == 0 && !old(self).allow_simple_key) || old(self).key_required(),
            r is Ok ==> final(self).i == old(self).i + 1 && final(self).tokens@.last().token_type is BlockEntry,
    {
        if self.flow_level == 0 {
            if !self.allow_simple_key {
                return Err(Error::parse(self.pos, "sequence entries are not allowed here"));
            }
            let col = self.pos.column;
            if self.add_indent(col) {
                let here = self.pos;
                self.emit(TokenType::BlockSequenceStart, here);
            }
        }
        self.allow_simple_key = true;
        self.remove_possible_simple_key()?;
        let start = self.pos;
        self.forward();
        self.emit(TokenType::BlockEntry, start);
        Ok(())
    }

    /// Emit an explicit key indicator (`?`), opening a block mapping when it
    /// is deeper than the current block.
    pub fn fetch_key(&mut self) -> (r: Result<()>)
        requires
            old(self).wf(),
            old(self).i < old(self).chars@.len(),
        ensures
            Self::advanced(*old(self), *final(self)),
            final(self).done == old(self).done,
            r is Ok ==> final(self).i > old(self).i,
            r is Err <==> (old(self).flow_level == 0 && !old(self).allow_simple_key) || old(self).key_required(),
            r is Ok ==> final(self).i == old(self).i + 1 && final(self).tokens@.last().token_type is Key,
    {
        if self.flow_level == 0 {
            if !self.allow_simple_key {
                return Err(Error::parse(self.pos, "mapping keys are not allowed here"));
            }
            let col = self.pos.column;
            if self.add_indent(col) {
                let here = self.pos;
                self.emit(TokenType::BlockMappingStart, here);
            }
        }
        self.allow_simple_key = self.flow_level == 0;
        self.remove_possible_simple_key()?;
        let start = self.pos;
        self.forward();
        self.emit(TokenType::Key, start);
        Ok(())
    }

    /// Emit a value indicator (`:`); when a simple key is pending, insert
    /// its key indicator (and a block mapping start, when deeper) before it.
    pub fn fetch_value(&mut self) -> (r: Result<()>)
        requires
            old(self).wf(),
            old(self).i < old(self).chars@.len(),
        ensures
            Self::advanced(*old(self), *final(self)),
            final(self).done == old(self).done,
            r is Ok ==> final(self).i > old(self).i,
            r is Err <==> (old(self).simple_keys@[old(self).flow_level as int] is None && old(self).flow_level == 0
                && !old(self).allow_simple_key),
            r is Ok ==> final(self).i == old(self).i + 1 && final(self).tokens@.last().token_type is Value,
    {
        let level = self.flow_level;
        match self.simple_keys[level] {
            Some(key) => {
                self.simple_keys.set(level, None);
                self.insert_token(key.token_number, TokenType::Key, key.position);
                if self.flow_level == 0 && self.add_indent(key.position.column) {
                    self.insert_token(key.token_number, TokenType::BlockMappingStart, key.position);
                }
                self.allow_simple_key = false;
            },
            None => {
                if self.flow_level == 0 {
                    if !self.allow_simple_key {
                        return Err(Error::parse(self.pos, "mapping values are not allowed here"));
                    }
                    let col = self.pos.column;
                    if self.add_indent(col) {
                        let here = self.pos;
                        self.emit(TokenType::BlockMappingStart, here);
                    }
                }
                self.allow_simple_key = self.flow_level == 0;
            },
        }
        let start = self.pos;
        self.forward();
        self.emit(TokenType::Value, start);
        Ok(())
    }
}


/// An ASCII decimal digit.
pub fn is_digit(c: char) -> (b: bool)
    ensures
        b == ('0' <= c && c <= '9'),
{
    '0' <= c && c <= '9'
}

/// The value of an ASCII hexadecimal digit.
pub open spec fn spec_hex_value(c: char) -> Option<u32> {
    if '0' <= c && c <= '9' {
        Some((c as u32 - '0' as u32) as u32)
    } else if 'a' <= c && c <= 'f' {
        Some((c as u32 - 'a' as u32 + 10) as u32)
    } else if 'A' <= c && c <= 'F' {
        Some((c as u32 - 'A' as u32 + 10) as u32)
    } else {
        None
    }
}

/// The value of an ASCII hexadecimal digit.
pub fn hex_value(c: char) -> (r: Option<u32>)
    ensures
        r matches Some(v) ==> v < 16,
        r == spec_hex_value(c),
        r == (if '0' <= c && c <= '9' {
            Some((c as u32 - '0' as u32) as u32)
        } else if 'a' <= c && c <= 'f' {
            Some((c as u32 - 'a' as u32 + 10) as u32)
        } else if 'A' <= c && c <= 'F' {
            Some((c as u32 - 'A' as u32 + 10) as u32)
        } else {
            None
        }),
{
    if '0' <= c && c <= '9' {
        Some((c as u32) - ('0' as u32))
    } else if 'a' <= c && c <= 'f' {
        Some((c as u32) - ('a' as u32) + 10)
    } else if 'A' <= c && c <= 'F' {
        Some((c as u32) - ('A' as u32) + 10)
    } else {
        None
    }
}

impl<'a> Scanner<'a> {
    /// Skip spaces and tabs.
    pub fn skip_blanks(&mut self)
        requires
            old(self).wf(),
        ensures
            forall|k: int| old(self).i <= k < final(self).i ==> (#[trigger] final(self).chars@[k] == ' '
                || final(self).chars@[k] == '\t'),
            final(self).i == final(self).chars@.len() || (final(self).chars@[final(self).i as int] != ' '
                && final(self).chars@[final(self).i as int] != '\t'),
            final(self).i == blank_end(old(self).chars@, old(self).i as int),
            final(self).pos == old(self).pos || final(self).i > old(self).i,
            Self::advanced(*old(self), *final(self)),
            final(self).tokens == old(self).tokens,
            final(self).flow_level == old(self).flow_level,
            final(self).indent == old(self).indent,
            final(self).allow_simple_key == old(self).allow_simple_key,
            final(self).simple_keys == old(self).simple_keys,
            final(self).done == old(self).done,
    {
        while !self.at_end() && (self.peek(0) == ' ' || self.peek(0) == '\t')
            invariant
                Self::advanced(*old(self), *self),
                self.tokens == old(self).tokens,
                self.flow_level == old(self).flow_level,
                self.indent == old(self).indent,
                self.allow_simple_key == old(self).allow_simple_key,
                self.simple_keys == old(self).simple_keys,
                self.done == old(self).done,
                forall|k: int| old(self).i <= k < self.i ==> (#[trigger] self.chars@[k] == ' ' || self.chars@[k]
                    == '\t'),
                blank_end(self.chars@, self.i as int) == blank_end(self.chars@, old(self).i as int),
                self.pos == old(self).pos || self.i > old(self).i,
            decreases self.chars@.len() - self.i,
        {
            self.forward();
        }
    }

    /// Consume characters up to a blank or the end; in flow context also
    /// stop at flow punctuation when `stop_at_flow`. Gives the text.
    pub fn scan_word(&mut self, stop_at_flow: bool) -> (w: String)
        requires
            old(self).wf(),
        ensures
            Self::advanced(*old(self), *final(self)),
            final(self).tokens == old(self).tokens,
            final(self).flow_level == old(self).flow_level,
            final(self).indent == old(self).indent,
            final(self).allow_simple_key == old(self).allow_simple_key,
            final(self).simple_keys == old(self).simple_keys,
            final(self).done == old(self).done,
            w@ == old(self).chars@.subrange(old(self).i as int, final(self).i as int),
            final(self).i == word_end(old(self).chars@, old(self).i as int, stop_at_flow),
    {
        let start = self.i;
        while !self.at_end() && !is_blank_or_end(self.peek(0)) && !(stop_at_flow && is_flow_punct(
            self.peek(0),
        ))
            invariant
                Self::advanced(*old(self), *self),
                start == old(self).i,
                word_end(self.chars@, self.i as int, stop_at_flow) == word_end(
                    self.chars@,
                    start as int,
                    stop_at_flow,
                ),
                self.tokens == old(self).tokens,
                self.flow_level == old(self).flow_level,
                self.indent == old(self).indent,
                self.allow_simple_key == old(self).allow_simple_key,
                self.simple_keys == old(self).simple_keys,
                self.done == old(self).done,
            decreases self.chars@.len() - self.i,
        {
            self.forward();
        }
        chars_range_to_string(self.chars, start, self.i)
    }

    /// A version number component: one or more digits, at most 255.
    pub fn scan_version_number(&mut self) -> (r: Result<u8>)
        requires
            old(self).wf(),
        ensures
            ({
                let e = digit_end(old(self).chars@, old(self).i as int);
                let run = old(self).chars@.subrange(old(self).i as int, e);
                &&& r is Err <==> (e == old(self).i || crate::numbers::digits_value(run) > 255)
                &&& r matches Ok(v) ==> final(self).i == e && v == crate::numbers::digits_value(run)
            }),
            Self::advanced(*old(self), *final(self)),
            final(self).tokens == old(self).tokens,
            final(self).flow_level == old(self).flow_level,
            final(self).indent == old(self).indent,
            final(self).simple_keys == old(self).simple_keys,
            final(self).done == old(self).done,
    {
        let mut value: u32 = 0;
        let mut digits: usize = 0;
        let ghost cs = self.chars@;
        let ghost e = digit_end(cs, old(self).i as int);
        proof {
            lemma_digit_end(cs, old(self).i as int);
            assert(cs.subrange(old(self).i as int, old(self).i as int) =~= Seq::<char>::empty());
        }
        while !self.at_end() && is_digit(self.peek(0))
            invariant
                Self::advanced(*old(self), *self),
                value <= 255,
                cs == self.chars@,
                old(self).i <= self.i <= e,
                e == digit_end(cs, old(self).i as int),
                digit_end(cs, self.i as int) == e,
                e <= cs.len(),
                crate::numbers::all_digits(cs.subrange(old(self).i as int, e)),
                value == crate::numbers::digits_value(cs.subrange(old(self).i as int, self.i as int)),
                (digits == 0) == (self.i == old(self).i),
                self.tokens == old(self).tokens,
                self.flow_level == old(self).flow_level,
                self.indent == old(self).indent,
                self.simple_keys == old(self).simple_keys,
                self.done == old(self).done,
            decreases self.chars@.len() - self.i,
        {
            let d = (self.peek(0) as u32) - ('0' as u32);
            proof {
                let i = self.i as int;
                let next = cs.subrange(old(self).i as int, i + 1);
                assert(next.drop_last() =~= cs.subrange(old(self).i as int, i));
                assert(next.last() == cs[i]);
                assert(digit_end(cs, i) == digit_end(cs, i + 1));
                lemma_digit_end(cs, i + 1);
            }
            value = value * 10 + d;
            if value > 255 {
                proof {
                    let run = cs.subrange(old(self).i as int, e);
                    let k = self.i + 1 - old(self).i;
                    assert(run.subrange(0, k) =~= cs.subrange(old(self).i as int, self.i + 1));
                    crate::numbers::lemma_digits_value_prefix(run, k);
                }
                return Err(Error::parse(self.pos, "YAML version number is too large"));
            }
            digits = 1;
            self.forward();
        }
        proof {
            if self.i < cs.len() {
                assert(!crate::numbers::is_digit_char(cs[self.i as int]));
            }
            assert(self.i == e);
        }
        if digits == 0 {
            return Err(Error::parse(self.pos, "expected a YAML version number"));
        }
        Ok(value as u8)
    }

    /// Scan a directive line (`%YAML`, `%TAG`, or another directive, which
    /// is skipped).
    pub fn fetch_directive(&mut self) -> (r: Result<()>)
        requires
            old(self).wf(),
            old(self).i < old(self).chars@.len(),
        ensures
            Self::advanced(*old(self), *final(self)),
            final(self).done == old(self).done,
            r is Ok ==> final(self).i > old(self).i,
            old(self).key_required() ==> r is Err,
            ({
                let name = old(self).chars@.subrange(
                    old(self).i + 1,
                    word_end(old(self).chars@, old(self).i + 1, false),
                );
                &&& !old(self).key_required() && name != "YAML"@ && name != "TAG"@ ==> r is Ok
                    && final(self).tokens@.len() >= old(self).tokens@.len()
                &&& name == "YAML"@ && r is Ok ==> final(self).tokens@.last().token_type is YamlDirective
                &&& name == "TAG"@ && r is Ok ==> final(self).tokens@.last().token_type is TagDirective
            }),
    {
        self.unroll_indent(0);
        self.remove_possible_simple_key()?;
        self.allow_simple_key = false;
        let start = self.pos;
        self.forward();
        let name = self.scan_word(false);
        proof {
            reveal_strlit("YAML");
            reveal_strlit("TAG");
            assert("YAML"@.len() == 4 && "TAG"@.len() == 3);
        }
        if crate::text::str_eq(name.as_str(), "YAML") {
            self.skip_blanks();
            let major = self.scan_version_number()?;
            if self.at_end() || self.peek(0) != '.' {
                return Err(Error::parse(self.pos, "expected '.' in a %YAML directive"));
            }
            self.forward();
            let minor = self.scan_version_number()?;
            self.emit(TokenType::YamlDirective(major, minor), start);
        } else if crate::text::str_eq(name.as_str(), "TAG") {
            self.skip_blanks();
            let handle = self.scan_word(false);
            self.skip_blanks();
            let prefix = self.scan_word(false);
            if handle.as_str().is_empty() || prefix.as_str().is_empty() {
                return Err(Error::parse(self.pos, "expected a tag handle and prefix"));
            }
            self.emit(TokenType::TagDirective(handle, prefix), start);
        } else {
            while !self.at_end() && !is_break(self.peek(0))
                invariant
                    Self::advanced(*old(self), *self),
                    self.i > old(self).i,
                    self.done == old(self).done,
                    self.tokens@.len() >= old(self).tokens@.len(),
                decreases self.chars@.len() - self.i,
            {
                self.forward();
            }
        }
        Ok(())
    }

    /// Scan an anchor (`&name`) or alias (`*name`).
    pub fn fetch_anchor_or_alias(&mut self, alias: bool) -> (r: Result<()>)
        requires
            old(self).wf(),
            old(self).i < old(self).chars@.len(),
        ensures
            Self::advanced(*old(self), *final(self)),
            final(self).done == old(self).done,
            r is Ok ==> final(self).i > old(self).i,
            r is Err <==> (old(self).allow_simple_key && old(self).key_required()) || word_end(
                old(self).chars@,
                old(self).i + 1,
                true,
            ) == old(self).i + 1,
            r is Ok ==> ({
                let name = old(self).chars@.subrange(
                    old(self).i + 1,
                    word_end(old(self).chars@, old(self).i + 1, true),
                );
                &&& final(self).i == word_end(old(self).chars@, old(self).i + 1, true)
                &&& if alias {
                    final(self).tokens@.last().token_type matches TokenType::Alias(n) && n@ == name
                } else {
                    final(self).tokens@.last().token_type matches TokenType::Anchor(n) && n@ == name
                }
            }),
    {
        self.save_possible_simple_key()?;
        self.allow_simple_key = false;
        let start = self.pos;
        self.forward();
        let name = self.scan_word(true);
        if name.as_str().is_empty() {
            return Err(Error::parse(self.pos, "expected an anchor or alias name"));
        }
        if alias {
            self.emit(TokenType::Alias(name), start);
        } else {
            self.emit(TokenType::Anchor(name), start);
        }
        Ok(())
    }

    /// Scan a tag (`!tag`, `!!tag`, `!<verbatim>`).
    pub fn fetch_tag(&mut self) -> (r: Result<()>)
        requires
            old(self).wf(),
            old(self).i < old(self).chars@.len(),
        ensures
            Self::advanced(*old(self), *final(self)),
            final(self).done == old(self).done,
            r is Ok ==> final(self).i > old(self).i,
            r is Err <==> (old(self).allow_simple_key && old(self).key_required()) || (old(self).i + 1
                < old(self).chars@.len() && old(self).chars@[old(self).i + 1] == '<' && forall|k: int|
                old(self).i + 1 <= k < old(self).chars@.len() ==> #[trigger] old(self).chars@[k] != '>'),
            r is Ok ==> (final(self).tokens@.last().token_type matches TokenType::Tag(t) && t@ == old(
                self,
            ).chars@.subrange(old(self).i as int, final(self).i as int)),
    {
        self.save_possible_simple_key()?;
        self.allow_simple_key = false;
        let start = self.pos;
        let first = self.i;
        self.forward();
        if !self.at_end() && self.peek(0) == '<' {
            while !self.at_end() && self.peek(0) != '>'
                invariant
                    Self::advanced(*old(self), *self),
                    self.i > old(self).i,
                    self.done == old(self).done,
                    first == old(self).i,
                    start.index <= self.pos.index,
                    self.chars@ == old(self).chars@,
                    forall|k: int| old(self).i + 1 <= k < self.i ==> #[trigger] old(self).chars@[k] != '>',
                decreases self.chars@.len() - self.i,
            {
                self.forward();
            }
            if self.at_end() {
                return Err(Error::parse(self.pos, "expected '>' to close a verbatim tag"));
            }
            self.forward();
        } else {
            // A shorthand tag runs to a blank, to flow punctuation inside a
            // flow collection, or to a `:` that a blank follows.
            let in_flow = self.flow_level > 0;
            loop
                invariant
                    Self::advanced(*old(self), *self),
                    self.i > old(self).i,
                    self.done == old(self).done,
                    first == old(self).i,
                    start.index <= self.pos.index,
                    in_flow == (self.flow_level > 0),
                decreases self.chars@.len() - self.i,
            {
                if self.at_end() {
                    break;
                }
                let c = self.peek(0);
                if is_blank_or_end(c) || (in_flow && is_flow_punct(c)) || (c == ':' && is_blank_or_end(self.peek(1))) {
                    break;
                }
                self.forward();
            }
        }
        let text = chars_range_to_string(self.chars, first, self.i);
        self.emit(TokenType::Tag(text), start);
        Ok(())
    }
}


/// Append `n` line feeds.
fn push_newlines(out: &mut String, n: usize)
    ensures
        final(out)@ == old(out)@ + Seq::new(n as nat, |_i: int| '\n'),
{
    let mut k: usize = 0;
    while k < n
        invariant
            k <= n,
            out@ == old(out)@ + Seq::new(k as nat, |_i: int| '\n'),
        decreases n - k,
    {
        push_char(out, '\n');
        k = k + 1;
        proof {
            assert(Seq::new(k as nat, |_i: int| '\n') =~= Seq::new((k - 1) as nat, |_i: int| '\n').push('\n'));
        }
    }
}

impl<'a> Scanner<'a> {
    /// The frame conditions shared by scanning steps that only read input
    /// and emit tokens.
    pub open spec fn keeps_frame(old: Scanner<'a>, new: Scanner<'a>) -> bool {
        &&& Self::advanced(old, new)
        &&& new.flow_level == old.flow_level
        &&& new.indent == old.indent
        &&& new.simple_keys == old.simple_keys
        &&& new.done == old.done
    }

    /// Whether a plain scalar can start here.
    pub fn check_plain(&self) -> (b: bool)
        requires
            self.wf(),
        ensures
            b ==> self.i < self.chars@.len(),
            b == ({
                let ch = self.spec_peek(0);
                let indicator = spec_is_blank_or_end(ch) || ch == '-' || ch == '?' || ch == ':' || ch == ','
                    || ch == '[' || ch == ']' || ch == '{' || ch == '}' || ch == '#' || ch == '&' || ch
                    == '*' || ch == '!' || ch == '|' || ch == '>' || ch == '\'' || ch == '"' || ch == '%'
                    || ch == '@' || ch == '`';
                &&& self.i < self.chars@.len()
                &&& (!indicator || (!spec_is_blank_or_end(self.spec_peek(1)) && (ch == '-' || (self.flow_level
                    == 0 && (ch == '?' || ch == ':')))))
            }),
    {
        if self.at_end() {
            return false;
        }
        let ch = self.peek(0);
        let indicator = is_blank_or_end(ch) || ch == '-' || ch == '?' || ch == ':' || ch == ','
            || ch == '[' || ch == ']' || ch == '{' || ch == '}' || ch == '#' || ch == '&' || ch
            == '*' || ch == '!' || ch == '|' || ch == '>' || ch == '\'' || ch == '"' || ch == '%'
            || ch == '@' || ch == '`';
        if !indicator {
            return true;
        }
        !is_blank_or_end(self.peek(1)) && (ch == '-' || (self.flow_level == 0 && (ch == '?' || ch
            == ':')))
    }

    /// The whitespace and line breaks between two chunks of a plain scalar,
    /// folded: a single line break becomes a space, further breaks become
    /// line feeds. Empty when nothing was consumed or when a document
    /// marker follows a break.
    pub fn scan_plain_spaces(&mut self) -> (s: String)
        requires
            old(self).wf(),
        ensures
            Self::keeps_frame(*old(self), *final(self)),
            final(self).tokens == old(self).tokens,
            ({
                let cs = old(self).chars@;
                let be = blank_end(cs, old(self).i as int);
                &&& (be == cs.len() || !(cs[be] == '\r' || cs[be] == '\n')) ==> final(self).i == be && s@
                    == cs.subrange(old(self).i as int, be)
                &&& (be < cs.len() && (cs[be] == '\r' || cs[be] == '\n')) ==> final(self).i > be && (s@.len()
                    == 0 || s@ == seq![' '] || forall|k: int| 0 <= k < s@.len() ==> #[trigger] s@[k] == '\n')
            }),
    {
        let ws_start = self.i;
        self.skip_blanks();
        let ws_end = self.i;
        if !self.at_end() && is_break(self.peek(0)) {
            self.consume_break();
            self.allow_simple_key = true;
            if self.check_document_indicator(true) || self.check_document_indicator(false) {
                return String::new();
            }
            let mut breaks: usize = 0;
            loop
                invariant
                    Self::keeps_frame(*old(self), *self),
                    self.tokens == old(self).tokens,
                    breaks <= self.i,
                    self.i > ws_end,
                    ws_end == blank_end(old(self).chars@, old(self).i as int),
                    ws_end < old(self).chars@.len(),
                    old(self).chars@[ws_end as int] == '\r' || old(self).chars@[ws_end as int] == '\n',
                decreases self.chars@.len() - self.i,
            {
                if !self.at_end() && (self.peek(0) == ' ' || self.peek(0) == '\t') {
                    self.forward();
                } else if !self.at_end() && is_break(self.peek(0)) {
                    self.consume_break();
                    breaks = breaks + 1;
                    if self.check_document_indicator(true) || self.check_document_indicator(false) {
                        return String::new();
                    }
                } else {
                    break;
                }
            }
            let mut out = String::new();
            if breaks == 0 {
                push_char(&mut out, ' ');
                proof {
                    assert(out@ =~= seq![' ']);
                }
            } else {
                push_newlines(&mut out, breaks);
            }
            out
        } else {
            chars_range_to_string(self.chars, ws_start, ws_end)
        }
    }

    /// Scan a plain (unquoted) scalar; its span excludes trailing
    /// whitespace.
    pub fn fetch_plain(&mut self) -> (r: Result<()>)
        requires
            old(self).wf(),
            old(self).i < old(self).chars@.len(),
        ensures
            Self::advanced(*old(self), *final(self)),
            final(self).done == old(self).done,
            r is Ok ==> final(self).i > old(self).i,
            r is Err <==> (old(self).allow_simple_key && old(self).key_required()) || old(self).chars@[old(
                self,
            ).i as int] == '#' || !plain_char_ok(old(self).chars@, old(self).i as int, old(self).flow_level > 0),
            r is Ok ==> (final(self).tokens@.last().token_type matches TokenType::Scalar(_, style) && style
                == QuoteStyle::Plain),
    {
        self.save_possible_simple_key()?;
        self.allow_simple_key = false;
        let ghost s0 = *self;
        let start = self.pos;
        let first = self.i;
        let mut end = self.pos;
        let mut value = String::new();
        let mut spaces = String::new();
        loop
            invariant
                Self::advanced(*old(self), s0),
                Self::keeps_frame(s0, *self),
                start == s0.pos,
                first == s0.i,
                first == old(self).i,
                start.index <= end.index <= self.pos.index,
                s0.flow_level == old(self).flow_level,
                s0.chars == old(self).chars,
                (old(self).chars@[first as int] == '#' || !plain_char_ok(
                    old(self).chars@,
                    first as int,
                    old(self).flow_level > 0,
                )) ==> self.i == first,
            ensures
                Self::advanced(*old(self), s0),
                Self::keeps_frame(s0, *self),
                start.index <= end.index <= self.pos.index,
                self.i >= first,
                (old(self).chars@[first as int] == '#' || !plain_char_ok(
                    old(self).chars@,
                    first as int,
                    old(self).flow_level > 0,
                )) <==> self.i == first,
            decreases self.chars@.len() - self.i,
        {
            if self.at_end() || self.peek(0) == '#' {
                break;
            }
            let chunk_start = self.i;
            loop
                invariant
                    Self::advanced(*old(self), s0),
                    Self::keeps_frame(s0, *self),
                    self.i >= chunk_start,
                    start.index <= end.index <= self.pos.index,
                    !plain_char_ok(self.chars@, chunk_start as int, self.flow_level > 0) ==> self.i == chunk_start,
                ensures
                    Self::advanced(*old(self), s0),
                    Self::keeps_frame(s0, *self),
                    self.i >= chunk_start,
                    start.index <= end.index <= self.pos.index,
                    self.i == chunk_start <==> !plain_char_ok(self.chars@, chunk_start as int, self.flow_level > 0),
                decreases self.chars@.len() - self.i,
            {
                if self.at_end() {
                    break;
                }
                let ch = self.peek(0);
                if is_blank_or_end(ch) {
                    break;
                }
                if ch == ':' && (is_blank_or_end(self.peek(1)) || (self.flow_level > 0
                    && is_flow_punct(self.peek(1)))) {
                    break;
                }
                if self.flow_level > 0 && (is_flow_punct(ch) || ch == '?') {
                    break;
                }
                self.forward();
            }
            if self.i == chunk_start {
                break;
            }
            self.allow_simple_key = false;
            crate::text::push_str(&mut value, spaces.as_str());
            let chunk = chars_range_to_string(self.chars, chunk_start, self.i);
            crate::text::push_str(&mut value, chunk.as_str());
            end = self.pos;
            let before = self.i;
            spaces = self.scan_plain_spaces();
            if spaces.as_str().is_empty() || self.at_end() || self.peek(0) == '#' || (
            self.flow_level == 0 && self.pos.column - 1 < self.indent) {
                break;
            }
            if self.i == before {
                break;
            }
        }
        if self.i == first {
            return Err(Error::parse(self.pos, "expected a plain scalar"));
        }
        self.emit_span(TokenType::Scalar(value, QuoteStyle::Plain), start, end);
        Ok(())
    }
}

} // verus!
