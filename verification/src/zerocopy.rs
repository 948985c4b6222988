//! Scanning that borrows from the input where it can: strings that are
//! either slices of the input or owned copies, tokens over them, a pool
//! of reusable tokens, and a scanner that hands out slices.

use crate::chars::len_utf8;
use crate::error::{Error, Result};
use crate::position::{Position, spec_advance};
use crate::scanner::optimizations::{is_white_space, trim_white_end};
use crate::scanner::{QuoteStyle, Token, TokenType};
use crate::slicing::{utf8_len, lemma_utf8_len_push, lemma_utf8_len_prefix, lemma_prefix_is_boundary, lemma_prefix_bytes, lemma_encode_injective, slice_str, str_byte_len, str_is_char_boundary};
use crate::text::str_to_chars;
use vstd::prelude::*;
use vstd::string::StringSliceAdditionalSpecFns;
use vstd::utf8::{encode_utf8, is_char_boundary};

verus! {

/// The text of a zero-copy string: a slice of the input, or an owned copy.
#[derive(Debug, Clone)]
pub enum ZeroData<'a> {
    /// A slice of the input.
    Borrowed(&'a str),
    /// An owned copy.
    Owned(String),
}

/// A string that borrows from the input where it can.
#[derive(Debug, Clone)]
pub struct ZeroString<'a> {
    data: ZeroData<'a>,
}

impl<'a> View for ZeroString<'a> {
    type V = Seq<char>;

    closed spec fn view(&self) -> Seq<char> {
        match self.data {
            ZeroData::Borrowed(s) => s@,
            ZeroData::Owned(s) => s@,
        }
    }
}

impl<'a> ZeroString<'a> {
    /// Whether the text is a slice of the input.
    pub closed spec fn spec_is_borrowed(&self) -> bool {
        self.data is Borrowed
    }

    /// A string borrowing `s`.
    pub fn borrowed(s: &'a str) -> (z: Self)
        ensures
            z@ == s@,
            z.spec_is_borrowed(),
    {
        ZeroString { data: ZeroData::Borrowed(s) }
    }

    /// A string owning `s`.
    pub fn owned(s: String) -> (z: Self)
        ensures
            z@ == s@,
            !z.spec_is_borrowed(),
    {
        ZeroString { data: ZeroData::Owned(s) }
    }

    /// The text.
    pub fn as_str(&self) -> (s: &str)
        ensures
            s@ == self@,
    {
        match &self.data {
            ZeroData::Borrowed(s) => s,
            ZeroData::Owned(s) => s.as_str(),
        }
    }

    /// The text as an owned string.
    pub fn into_owned(self) -> (s: String)
        ensures
            s@ == self@,
    {
        match self.data {
            ZeroData::Borrowed(s) => s.to_owned(),
            ZeroData::Owned(s) => s,
        }
    }

    /// Whether the text is a slice of the input.
    pub fn is_borrowed(&self) -> (b: bool)
        ensures
            b == self.spec_is_borrowed(),
    {
        matches!(self.data, ZeroData::Borrowed(_))
    }

    /// The length of the text in bytes.
    pub fn len(&self) -> (n: usize)
        ensures
            n == encode_utf8(self@).len(),
    {
        str_byte_len(self.as_str())
    }

    /// Whether the text is empty.
    pub fn is_empty(&self) -> (b: bool)
        ensures
            b == (self@.len() == 0),
    {
        let s = self.as_str();
        proof {
            crate::slicing::lemma_utf8_len_prefix(s@, s@.len() as int, s@.len() as int);
            assert(s@.subrange(0, s@.len() as int) =~= s@);
            if s@.len() == 0 {
                assert(encode_utf8(s@) =~= Seq::<u8>::empty());
            }
        }
        str_byte_len(s) == 0
    }
}

impl<'a> vstd::std_specs::convert::FromSpecImpl<&'a str> for ZeroString<'a> {
    open spec fn obeys_from_spec() -> bool {
        true
    }

    closed spec fn from_spec(s: &'a str) -> Self {
        ZeroString { data: ZeroData::Borrowed(s) }
    }
}

impl<'a> vstd::std_specs::convert::FromSpecImpl<String> for ZeroString<'a> {
    open spec fn obeys_from_spec() -> bool {
        true
    }

    closed spec fn from_spec(s: String) -> Self {
        ZeroString { data: ZeroData::Owned(s) }
    }
}

impl<'a> From<&'a str> for ZeroString<'a> {
    /// A string borrowing `s`.
    fn from(s: &'a str) -> (z: Self)
        ensures
            z@ == s@,
            z.spec_is_borrowed(),
    {
        ZeroString { data: ZeroData::Borrowed(s) }
    }
}

impl<'a> From<String> for ZeroString<'a> {
    /// A string owning `s`.
    fn from(s: String) -> (z: Self)
        ensures
            z@ == s@,
            !z.spec_is_borrowed(),
    {
        ZeroString { data: ZeroData::Owned(s) }
    }
}

impl<'a> AsRef<str> for ZeroString<'a> {
    /// The text.
    fn as_ref(&self) -> (s: &str)
        ensures
            s@ == self@,
    {
        self.as_str()
    }
}

/// Token types whose text borrows from the input where it can.
#[derive(Debug, Clone)]
pub enum ZeroTokenType<'a> {
    /// Start of stream.
    StreamStart,
    /// End of stream.
    StreamEnd,
    /// Document start marker.
    DocumentStart,
    /// Document end marker.
    DocumentEnd,
    /// Block sequence start.
    BlockSequenceStart,
    /// Block mapping start.
    BlockMappingStart,
    /// Block end.
    BlockEnd,
    /// Flow sequence start.
    FlowSequenceStart,
    /// Flow sequence end.
    FlowSequenceEnd,
    /// Flow mapping start.
    FlowMappingStart,
    /// Flow mapping end.
    FlowMappingEnd,
    /// Block entry.
    BlockEntry,
    /// Flow entry.
    FlowEntry,
    /// Key indicator.
    Key,
    /// Value indicator.
    Value,
    /// Scalar with its quote style.
    Scalar(ZeroString<'a>, QuoteStyle),
    /// Literal block scalar.
    BlockScalarLiteral(ZeroString<'a>),
    /// Folded block scalar.
    BlockScalarFolded(ZeroString<'a>),
    /// Anchor.
    Anchor(ZeroString<'a>),
    /// Alias.
    Alias(ZeroString<'a>),
    /// Tag.
    Tag(ZeroString<'a>),
    /// Comment.
    Comment(ZeroString<'a>),
}

/// A token whose text borrows from the input where it can.
#[derive(Debug, Clone)]
pub struct ZeroToken<'a> {
    /// The token type.
    pub token_type: ZeroTokenType<'a>,
    /// Where the token starts.
    pub start_position: Position,
    /// Where the token ends.
    pub end_position: Position,
}

/// The owned token type with the same kind and text.
pub open spec fn owned_type_matches(z: ZeroTokenType, t: TokenType) -> bool {
    match (z, t) {
        (ZeroTokenType::StreamStart, TokenType::StreamStart) => true,
        (ZeroTokenType::StreamEnd, TokenType::StreamEnd) => true,
        (ZeroTokenType::DocumentStart, TokenType::DocumentStart) => true,
        (ZeroTokenType::DocumentEnd, TokenType::DocumentEnd) => true,
        (ZeroTokenType::BlockSequenceStart, TokenType::BlockSequenceStart) => true,
        (ZeroTokenType::BlockMappingStart, TokenType::BlockMappingStart) => true,
        (ZeroTokenType::BlockEnd, TokenType::BlockEnd) => true,
        (ZeroTokenType::FlowSequenceStart, TokenType::FlowSequenceStart) => true,
        (ZeroTokenType::FlowSequenceEnd, TokenType::FlowSequenceEnd) => true,
        (ZeroTokenType::FlowMappingStart, TokenType::FlowMappingStart) => true,
        (ZeroTokenType::FlowMappingEnd, TokenType::FlowMappingEnd) => true,
        (ZeroTokenType::BlockEntry, TokenType::BlockEntry) => true,
        (ZeroTokenType::FlowEntry, TokenType::FlowEntry) => true,
        (ZeroTokenType::Key, TokenType::Key) => true,
        (ZeroTokenType::Value, TokenType::Value) => true,
        (ZeroTokenType::Scalar(a, s1), TokenType::Scalar(b, s2)) => a@ == b@ && s1 == s2,
        (ZeroTokenType::BlockScalarLiteral(a), TokenType::BlockScalarLiteral(b)) => a@ == b@,
        (ZeroTokenType::BlockScalarFolded(a), TokenType::BlockScalarFolded(b)) => a@ == b@,
        (ZeroTokenType::Anchor(a), TokenType::Anchor(b)) => a@ == b@,
        (ZeroTokenType::Alias(a), TokenType::Alias(b)) => a@ == b@,
        (ZeroTokenType::Tag(a), TokenType::Tag(b)) => a@ == b@,
        (ZeroTokenType::Comment(a), TokenType::Comment(b)) => a@ == b@,
        _ => false,
    }
}

impl<'a> ZeroToken<'a> {
    /// A token spanning `start_position` to `end_position`.
    pub fn new(token_type: ZeroTokenType<'a>, start_position: Position, end_position: Position) -> (t: Self)
        ensures
            t == (ZeroToken { token_type, start_position, end_position }),
    {
        ZeroToken { token_type, start_position, end_position }
    }

    /// A token starting and ending at `position`.
    pub fn simple(token_type: ZeroTokenType<'a>, position: Position) -> (t: Self)
        ensures
            t == (ZeroToken { token_type, start_position: position, end_position: position }),
    {
        Self::new(token_type, position, position)
    }

    /// The owned token with the same type, text and positions.
    pub fn into_owned(self) -> (t: Token)
        ensures
            owned_type_matches(self.token_type, t.token_type),
            t.start_position == self.start_position,
            t.end_position == self.end_position,
    {
        let token_type = match self.token_type {
            ZeroTokenType::StreamStart => TokenType::StreamStart,
            ZeroTokenType::StreamEnd => TokenType::StreamEnd,
            ZeroTokenType::DocumentStart => TokenType::DocumentStart,
            ZeroTokenType::DocumentEnd => TokenType::DocumentEnd,
            ZeroTokenType::BlockSequenceStart => TokenType::BlockSequenceStart,
            ZeroTokenType::BlockMappingStart => TokenType::BlockMappingStart,
            ZeroTokenType::BlockEnd => TokenType::BlockEnd,
            ZeroTokenType::FlowSequenceStart => TokenType::FlowSequenceStart,
            ZeroTokenType::FlowSequenceEnd => TokenType::FlowSequenceEnd,
            ZeroTokenType::FlowMappingStart => TokenType::FlowMappingStart,
            ZeroTokenType::FlowMappingEnd => TokenType::FlowMappingEnd,
            ZeroTokenType::BlockEntry => TokenType::BlockEntry,
            ZeroTokenType::FlowEntry => TokenType::FlowEntry,
            ZeroTokenType::Key => TokenType::Key,
            ZeroTokenType::Value => TokenType::Value,
            ZeroTokenType::Scalar(s, style) => TokenType::Scalar(s.into_owned(), style),
            ZeroTokenType::BlockScalarLiteral(s) => TokenType::BlockScalarLiteral(s.into_owned()),
            ZeroTokenType::BlockScalarFolded(s) => TokenType::BlockScalarFolded(s.into_owned()),
            ZeroTokenType::Anchor(s) => TokenType::Anchor(s.into_owned()),
            ZeroTokenType::Alias(s) => TokenType::Alias(s.into_owned()),
            ZeroTokenType::Tag(s) => TokenType::Tag(s.into_owned()),
            ZeroTokenType::Comment(s) => TokenType::Comment(s.into_owned()),
        };
        Token::new(token_type, self.start_position, self.end_position)
    }
}

/// A pool of tokens reused across scans: handing a token out reuses an
/// allocated one when there is one.
pub struct TokenPool<'a> {
    tokens: Vec<ZeroToken<'a>>,
    index: usize,
}

impl<'a> TokenPool<'a> {
    /// The number of tokens allocated.
    pub closed spec fn spec_allocated(&self) -> nat {
        self.tokens@.len()
    }

    /// The number of tokens handed out since the last reset.
    pub closed spec fn spec_used(&self) -> nat {
        self.index as nat
    }

    /// Consistent bookkeeping: no more handed out than allocated.
    pub closed spec fn wf(&self) -> bool {
        self.index <= self.tokens@.len()
    }

    /// An empty pool.
    pub fn with_capacity(capacity: usize) -> (p: Self)
        ensures
            p.wf(),
            p.spec_allocated() == 0,
            p.spec_used() == 0,
    {
        TokenPool { tokens: Vec::with_capacity(capacity), index: 0 }
    }

    /// Hand out the next token, allocating one when every allocated token
    /// is in use.
    pub fn get_token(&mut self) -> (t: &mut ZeroToken<'a>)
        requires
            old(self).wf(),
            old(self).spec_used() < usize::MAX,
        ensures
            final(self).wf(),
            final(self).spec_used() == old(self).spec_used() + 1,
            final(self).spec_allocated() == if old(self).spec_used() < old(self).spec_allocated() {
                old(self).spec_allocated()
            } else {
                old(self).spec_allocated() + 1
            },
    {
        if self.index >= self.tokens.len() {
            self.tokens.push(ZeroToken::simple(ZeroTokenType::StreamStart, Position::start()));
        }
        let i = self.index;
        self.index = i + 1;
        &mut self.tokens[i]
    }

    /// Make every allocated token available again.
    pub fn reset(&mut self)
        ensures
            final(self).wf(),
            final(self).spec_used() == 0,
            final(self).spec_allocated() == old(self).spec_allocated(),
    {
        self.index = 0;
    }

    /// The number of tokens allocated.
    pub fn allocated_count(&self) -> (n: usize)
        ensures
            n == self.spec_allocated(),
    {
        self.tokens.len()
    }

    /// The number of tokens handed out since the last reset.
    pub fn used_count(&self) -> (n: usize)
        ensures
            n == self.spec_used(),
    {
        self.index
    }
}

/// The characters of a string with the byte offset where each starts.
///
/// Trusted: calls `str::char_indices`, documented to yield each `char`
/// of the string in order together with its byte position.
#[verifier::external_body]
fn str_char_indices(s: &str) -> (v: Vec<(usize, char)>)
    ensures
        v@.len() == s@.len(),
        forall|i: int|
            0 <= i < v@.len() ==> (#[trigger] v@[i]).1 == s@[i] && v@[i].0 == utf8_len(s@.subrange(0, i)),
{
    s.char_indices().collect()
}

/// Whether a character is alphabetic or numeric in Unicode.
pub uninterp spec fn unicode_alphanumeric(c: char) -> bool;

/// Whether a character is alphabetic or numeric.
///
/// Trusted: calls `char::is_alphanumeric`, documented as Unicode's
/// `Alphabetic` or `Numeric` property of the character; its result is
/// named, not spelled out, beyond what the documentation shows of ASCII:
/// letters and digits have the property, white space does not.
#[verifier::external_body]
fn char_is_alphanumeric(c: char) -> (b: bool)
    ensures
        b == unicode_alphanumeric(c),
        ('a' <= c <= 'z' || 'A' <= c <= 'Z' || '0' <= c <= '9') ==> b,
        (c == ' ' || c == '\t' || c == '\n' || c == '\r') ==> !b,
{
    c.is_alphanumeric()
}

/// Counters describing a scanner's progress.
#[derive(Debug, Clone)]
pub struct ScannerStats {
    /// The input's length in bytes.
    pub input_length: usize,
    /// The number of characters consumed.
    pub chars_processed: usize,
    /// Tokens allocated in the pool.
    pub tokens_allocated: usize,
    /// Tokens handed out since the last reset.
    pub tokens_used: usize,
    /// The current position.
    pub position: Position,
}

/// A scanner that hands out slices of its input.
pub struct ZeroScanner<'a> {
    input: &'a str,
    /// The position of the next character.
    pub position: Position,
    char_index: usize,
    char_indices: Vec<(usize, char)>,
    token_pool: TokenPool<'a>,
}

/// The text without trailing white space, as a slice of `s`.
fn trim_end_slice<'b>(s: &'b str) -> (r: &'b str)
    ensures
        r@ == trim_white_end(s@),
{
    let cs = str_to_chars(s);
    let mut n = cs.len();
    proof {
        assert(cs@.subrange(0, n as int) =~= cs@);
    }
    while n > 0 && crate::scanner::optimizations::white_space(cs[n - 1])
        invariant
            n <= cs@.len(),
            cs@ == s@,
            trim_white_end(s@) == trim_white_end(cs@.subrange(0, n as int)),
        decreases n,
    {
        proof {
            let pre = cs@.subrange(0, n as int);
            assert(pre.drop_last() =~= cs@.subrange(0, n - 1));
        }
        n = n - 1;
    }
    proof {
        let pre = cs@.subrange(0, n as int);
        if n > 0 {
            assert(pre.last() == cs@[n - 1]);
        }
    }
    let mut bytes: usize = 0;
    let mut i: usize = 0;
    let total = str_byte_len(s);
    proof {
        assert(cs@.subrange(0, 0) =~= Seq::<char>::empty());
        assert(encode_utf8(Seq::<char>::empty()) =~= Seq::<u8>::empty());
        lemma_utf8_len_prefix(cs@, n as int, cs@.len() as int);
        assert(cs@.subrange(0, cs@.len() as int) =~= cs@);
    }
    while i < n
        invariant
            i <= n <= cs@.len(),
            cs@ == s@,
            total == encode_utf8(s@).len(),
            bytes == utf8_len(cs@.subrange(0, i as int)),
            utf8_len(cs@.subrange(0, n as int)) <= total,
        decreases n - i,
    {
        proof {
            assert(cs@.subrange(0, i + 1) =~= cs@.subrange(0, i as int).push(cs@[i as int]));
            lemma_utf8_len_push(cs@.subrange(0, i as int), cs@[i as int]);
            lemma_utf8_len_prefix(cs@, i + 1, n as int);
        }
        bytes = bytes + len_utf8(cs[i]);
        i = i + 1;
    }
    proof {
        lemma_prefix_is_boundary(cs@, n as int);
        lemma_prefix_is_boundary(cs@, 0);
        assert(cs@.subrange(0, 0) =~= Seq::<char>::empty());
        lemma_prefix_bytes(cs@, n as int);
    }
    let r = slice_str(s, 0, bytes);
    proof {
        lemma_encode_injective(r@, cs@.subrange(0, n as int));
    }
    r
}

/// A space, a tab or a line break.
pub open spec fn is_blank_char(c: char) -> bool {
    c == ' ' || c == '\t' || c == '\n' || c == '\r'
}

/// An ASCII letter or digit, `_` or `-`.
pub open spec fn is_ascii_word_char(c: char) -> bool {
    ('a' <= c <= 'z') || ('A' <= c <= 'Z') || ('0' <= c <= '9') || c == '_' || c == '-'
}

impl<'a> ZeroScanner<'a> {
    /// The characters consumed so far.
    pub closed spec fn spec_consumed(&self) -> Seq<char> {
        self.input@.subrange(0, self.char_index as int)
    }

    /// The input text.
    pub closed spec fn spec_input(&self) -> Seq<char> {
        self.input@
    }

    /// The number of characters consumed.
    pub closed spec fn spec_char_index(&self) -> nat {
        self.char_index as nat
    }

    /// The input's bytes.
    pub open spec fn spec_bytes(&self) -> Seq<u8> {
        encode_utf8(self.spec_input())
    }

    /// The position of the next character: the public field `position`.
    pub closed spec fn spec_position(&self) -> Position {
        self.position
    }

    /// Tokens allocated in the pool.
    pub closed spec fn spec_allocated(&self) -> nat {
        self.token_pool.spec_allocated()
    }

    /// Tokens handed out since the last reset.
    pub closed spec fn spec_used(&self) -> nat {
        self.token_pool.spec_used()
    }

    /// Consistent bookkeeping: the character table matches the input and
    /// the position is the byte offset of the next character, with line
    /// and column counts no larger than the characters read.
    pub closed spec fn wf(&self) -> bool {
        &&& self.char_indices@.len() == self.input@.len()
        &&& forall|i: int|
            0 <= i < self.char_indices@.len() ==> (#[trigger] self.char_indices@[i]).1 == self.input@[i]
                && self.char_indices@[i].0 == utf8_len(self.input@.subrange(0, i))
        &&& self.char_index <= self.input@.len()
        &&& encode_utf8(self.input@).len() <= isize::MAX
        &&& self.position.index == utf8_len(self.input@.subrange(0, self.char_index as int))
        &&& 1 <= self.position.line <= self.char_index + 1
        &&& 1 <= self.position.column <= self.char_index + 1
        &&& self.token_pool.wf()
    }

    /// The position of the next character, as the field `position` holds
    /// it.
    pub fn position(&self) -> (p: Position)
        ensures
            p == self.spec_position(),
    {
        self.position
    }

    /// A scanner at the start of `input`.
    pub fn new(input: &'a str) -> (s: Self)
        requires
            encode_utf8(input@).len() <= isize::MAX,
        ensures
            s.wf(),
            s.spec_input() == input@,
            s.spec_char_index() == 0,
            s.spec_position() == Position::spec_start(),
    {
        let char_indices = str_char_indices(input);
        let s = ZeroScanner {
            input,
            position: Position::start(),
            char_index: 0,
            char_indices,
            token_pool: TokenPool::with_capacity(128),
        };
        proof {
            assert(input@.subrange(0, 0) =~= Seq::<char>::empty());
            assert(encode_utf8(Seq::<char>::empty()) =~= Seq::<u8>::empty());
        }
        s
    }

    /// The next character, if any.
    pub fn current_char(&self) -> (r: Option<char>)
        requires
            self.wf(),
        ensures
            r == (if self.spec_char_index() < self.spec_input().len() {
                Some(self.spec_input()[self.spec_char_index() as int])
            } else {
                None::<char>
            }),
    {
        if self.char_index < self.char_indices.len() {
            Some(self.char_indices[self.char_index].1)
        } else {
            None
        }
    }

    /// Consume the next character; returns the character after it, if
    /// any. Nothing happens at the end.
    pub fn advance(&mut self) -> (r: Option<char>)
        requires
            old(self).wf(),
        ensures
            final(self).wf(),
            final(self).spec_input() == old(self).spec_input(),
            old(self).spec_char_index() < old(self).spec_input().len() ==> {
                &&& final(self).spec_char_index() == old(self).spec_char_index() + 1
                &&& final(self).spec_position() == spec_advance(
                    old(self).spec_position(),
                    old(self).spec_input()[old(self).spec_char_index() as int],
                )
                &&& r == (if final(self).spec_char_index() < final(self).spec_input().len() {
                    Some(final(self).spec_input()[final(self).spec_char_index() as int])
                } else {
                    None::<char>
                })
            },
            old(self).spec_char_index() >= old(self).spec_input().len() ==> r is None && final(self).spec_char_index()
                == old(self).spec_char_index() && final(self).spec_position() == old(self).spec_position(),
    {
        if self.char_index < self.char_indices.len() {
            let ch = self.char_indices[self.char_index].1;
            proof {
                let cs = self.input@;
                let i = self.char_index as int;
                assert(cs.subrange(0, i + 1) =~= cs.subrange(0, i).push(cs[i]));
                lemma_utf8_len_push(cs.subrange(0, i), cs[i]);
                lemma_utf8_len_prefix(cs, i + 1, cs.len() as int);
                assert(cs.subrange(0, cs.len() as int) =~= cs);
            }
            self.position = self.position.advance(ch);
            self.char_index = self.char_index + 1;
            self.current_char()
        } else {
            None
        }
    }

    /// The character `offset` places from the next one (negative looks
    /// back), if there is one.
    pub fn peek_char(&self, offset: isize) -> (r: Option<char>)
        requires
            self.wf(),
            offset > isize::MIN,
        ensures
            ({
                let k = self.spec_char_index() + offset;
                r == (if 0 <= k < self.spec_input().len() {
                    Some(self.spec_input()[k])
                } else {
                    None::<char>
                })
            }),
    {
        proof {
            crate::slicing::lemma_utf8_len_prefix(self.input@, self.input@.len() as int, self.input@.len() as int);
            assert(self.input@.subrange(0, self.input@.len() as int) =~= self.input@);
        }
        if offset >= 0 {
            let index = self.char_index + offset as usize;
            if index < self.char_indices.len() {
                Some(self.char_indices[index].1)
            } else {
                None
            }
        } else {
            let offset_abs = (-offset) as usize;
            if self.char_index >= offset_abs {
                let index = self.char_index - offset_abs;
                Some(self.char_indices[index].1)
            } else {
                None
            }
        }
    }

    /// The input from the byte offset of `start_position` up to the
    /// current position; an error when those offsets are out of order or
    /// out of range.
    pub fn slice_from(&self, start_position: Position) -> (r: Result<&'a str>)
        requires
            self.wf(),
            start_position.index <= self.spec_position().index ==> is_char_boundary(
                self.spec_bytes(),
                start_position.index as int,
            ),
        ensures
            start_position.index <= self.spec_position().index ==> (r matches Ok(s) && s.spec_bytes()
                == self.spec_bytes().subrange(start_position.index as int, self.spec_position().index as int)),
            start_position.index > self.spec_position().index ==> r is Err,
    {
        proof {
            lemma_prefix_is_boundary(self.input@, self.char_index as int);
            lemma_utf8_len_prefix(self.input@, self.char_index as int, self.input@.len() as int);
            assert(self.input@.subrange(0, self.input@.len() as int) =~= self.input@);
        }
        self.slice_between(start_position, self.position)
    }

    /// The input between the byte offsets of two positions; an error when
    /// they are out of order or out of range.
    pub fn slice_between(&self, start: Position, end: Position) -> (r: Result<&'a str>)
        requires
            self.wf(),
            start.index <= end.index <= self.spec_bytes().len() ==> is_char_boundary(
                self.spec_bytes(),
                start.index as int,
            ) && is_char_boundary(self.spec_bytes(), end.index as int),
        ensures
            start.index <= end.index <= self.spec_bytes().len() ==> (r matches Ok(s)
                && s.spec_bytes() == self.spec_bytes().subrange(start.index as int, end.index as int)),
            !(start.index <= end.index <= self.spec_bytes().len()) ==> r is Err,
    {
        proof {
            lemma_utf8_len_prefix(self.input@, self.char_index as int, self.input@.len() as int);
            assert(self.input@.subrange(0, self.input@.len() as int) =~= self.input@);
            lemma_prefix_is_boundary(self.input@, self.char_index as int);
        }
        let len = str_byte_len(self.input);
        if start.index <= end.index && end.index <= len {
            Ok(slice_str(self.input, start.index, end.index))
        } else {
            Err(Error::parse(self.position, "Invalid slice bounds"))
        }
    }

    /// Return to the start of the input and release every pooled token.
    pub fn reset(&mut self)
        requires
            old(self).wf(),
        ensures
            final(self).wf(),
            final(self).spec_input() == old(self).spec_input(),
            final(self).spec_char_index() == 0,
            final(self).spec_position() == Position::spec_start(),
    {
        self.position = Position::start();
        self.char_index = 0;
        self.token_pool.reset();
        proof {
            assert(self.input@.subrange(0, 0) =~= Seq::<char>::empty());
            assert(encode_utf8(Seq::<char>::empty()) =~= Seq::<u8>::empty());
        }
    }

    /// The scanner's counters.
    pub fn stats(&self) -> (s: ScannerStats)
        requires
            self.wf(),
        ensures
            s.input_length == self.spec_bytes().len(),
            s.chars_processed == self.spec_char_index(),
            s.tokens_allocated == self.spec_allocated(),
            s.tokens_used == self.spec_used(),
            s.position == self.spec_position(),
    {
        ScannerStats {
            input_length: str_byte_len(self.input),
            chars_processed: self.char_index,
            tokens_allocated: self.token_pool.allocated_count(),
            tokens_used: self.token_pool.used_count(),
            position: self.position,
        }
    }

    /// Whether the plain scalar being scanned stops at the next character:
    /// a line break; `:` before white space or the end; `#` at the start or
    /// after white space; a flow indicator.
    fn plain_stops_here(&self, ch: char) -> (b: bool)
        requires
            self.wf(),
            self.char_index < self.input@.len(),
            ch == self.input@[self.char_index as int],
        ensures
            b == plain_stops(self.input@, self.char_index as int),
    {
        if ch == '\n' || ch == '\r' {
            return true;
        }
        if ch == ':' {
            let stop = match self.peek_char(1) {
                Some(c) => crate::scanner::optimizations::white_space(c),
                None => true,
            };
            if stop {
                return true;
            }
        }
        if ch == '#' {
            let stop = self.char_index == 0 || match self.peek_char(-1) {
                Some(c) => crate::scanner::optimizations::white_space(c),
                None => false,
            };
            if stop {
                return true;
            }
        }
        ch == ',' || ch == '[' || ch == ']' || ch == '{' || ch == '}'
    }

    /// Scan a plain scalar from the current position; its text is the
    /// input up to where it stops, without trailing white space, borrowed
    /// when nothing was trimmed.
    #[verifier::loop_isolation(false)]
    pub fn scan_plain_scalar_zero_copy(&mut self) -> (r: Result<ZeroToken<'a>>)
        requires
            old(self).wf(),
        ensures
            final(self).wf(),
            final(self).spec_input() == old(self).spec_input(),
            final(self).spec_char_index() == plain_end(old(self).spec_input(), old(self).spec_char_index() as int),
            r matches Ok(t) && t.start_position == old(self).spec_position() && t.end_position
                == final(self).spec_position() && (t.token_type matches ZeroTokenType::Scalar(text, style) && style
                == QuoteStyle::Plain && text@ == trim_white_end(
                old(self).spec_input().subrange(old(self).spec_char_index() as int, final(self).spec_char_index() as int),
            ) && (text.spec_is_borrowed() == (text@ == old(self).spec_input().subrange(
                old(self).spec_char_index() as int,
                final(self).spec_char_index() as int,
            )))),
    {
        let start_pos = self.position;
        let ghost start_index = self.char_index;
        proof {
            lemma_prefix_is_boundary(self.input@, self.char_index as int);
        }
        loop
            invariant
                self.wf(),
                self.input@ == old(self).input@,
                start_index == old(self).char_index,
                start_index <= self.char_index,
                start_pos == old(self).position,
                plain_end(self.input@, start_index as int) == plain_end(self.input@, self.char_index as int),
                start_pos.index == utf8_len(self.input@.subrange(0, start_index as int)),
                start_pos.index <= self.position.index,
            decreases self.input@.len() - self.char_index,
        {
            match self.current_char() {
                Some(ch) => {
                    if self.plain_stops_here(ch) {
                        break;
                    }
                    proof {
                        lemma_utf8_len_prefix(self.input@, self.char_index as int, self.char_index + 1);
                    }
                    self.advance();
                },
                None => {
                    break;
                },
            }
        }
        proof {
            lemma_prefix_is_boundary(self.input@, start_index as int);
            lemma_prefix_is_boundary(self.input@, self.char_index as int);
        }
        let slice = self.slice_from(start_pos)?;
        proof {
            let cs = self.input@;
            let a = start_index as int;
            let b = self.char_index as int;
            lemma_prefix_bytes(cs, a);
            lemma_prefix_bytes(cs, b);
            crate::slicing::lemma_encode_concat(cs.subrange(0, a), cs.subrange(a, b));
            assert(cs.subrange(0, a) + cs.subrange(a, b) =~= cs.subrange(0, b));
            let bytes = encode_utf8(cs);
            let la = utf8_len(cs.subrange(0, a)) as int;
            let lb = utf8_len(cs.subrange(0, b)) as int;
            lemma_utf8_len_prefix(cs, b, cs.len() as int);
            lemma_utf8_len_prefix(cs, a, b);
            assert(cs.subrange(0, cs.len() as int) =~= cs);
            assert(bytes.subrange(la, lb) =~= bytes.subrange(0, lb).subrange(la, lb));
            assert(encode_utf8(cs.subrange(0, b)).subrange(la, lb) =~= encode_utf8(cs.subrange(a, b)));
            assert(slice.spec_bytes() =~= encode_utf8(cs.subrange(a, b)));
            lemma_encode_injective(slice@, cs.subrange(a, b));
        }
        let trimmed = trim_end_slice(slice);
        let zero = if str_byte_len(trimmed) == str_byte_len(slice) {
            proof {
                lemma_trim_shorter(slice@);
                if trimmed@ != slice@ {
                    assert(trimmed@.len() < slice@.len()) by {
                        if trimmed@.len() == slice@.len() {
                            assert(slice@.subrange(0, slice@.len() as int) =~= slice@);
                        }
                    }
                    lemma_shorter_fewer_bytes(slice@, trimmed@.len() as int);
                }
            }
            ZeroString::borrowed(trimmed)
        } else {
            ZeroString::owned(trimmed.to_owned())
        };
        Ok(ZeroToken::new(ZeroTokenType::Scalar(zero, QuoteStyle::Plain), start_pos, self.position))
    }

    /// Scan an identifier (Unicode letters and digits, `_` and `-`) from
    /// the current position, borrowed from the input.
    #[verifier::loop_isolation(false)]
    pub fn scan_identifier_zero_copy(&mut self) -> (r: Result<ZeroString<'a>>)
        requires
            old(self).wf(),
        ensures
            final(self).wf(),
            final(self).spec_input() == old(self).spec_input(),
            final(self).spec_char_index() == identifier_end(old(self).spec_input(), old(self).spec_char_index() as int),
            r matches Ok(z) && z.spec_is_borrowed() && z@ == old(self).spec_input().subrange(
                old(self).spec_char_index() as int,
                final(self).spec_char_index() as int,
            ),
            forall|j: int|
                old(self).spec_char_index() <= j < final(self).spec_char_index() ==> !is_blank_char(
                    #[trigger] old(self).spec_input()[j],
                ),
            final(self).spec_char_index() < old(self).spec_input().len() ==> !is_ascii_word_char(
                old(self).spec_input()[final(self).spec_char_index() as int],
            ),
    {
        let start_pos = self.position;
        let ghost start_index = self.char_index;
        loop
            invariant
                forall|j: int| start_index <= j < self.char_index ==> !is_blank_char(#[trigger] self.input@[j]),
                self.wf(),
                self.input@ == old(self).input@,
                start_index == old(self).char_index,
                start_index <= self.char_index,
                start_pos == old(self).position,
                identifier_end(self.input@, start_index as int) == identifier_end(
                    self.input@,
                    self.char_index as int,
                ),
                start_pos.index == utf8_len(self.input@.subrange(0, start_index as int)),
                start_pos.index <= self.position.index,
            decreases self.input@.len() - self.char_index,
        {
            match self.current_char() {
                Some(ch) => {
                    if char_is_alphanumeric(ch) || ch == '_' || ch == '-' {
                        proof {
                            lemma_utf8_len_prefix(self.input@, self.char_index as int, self.char_index + 1);
                        }
                        self.advance();
                    } else {
                        break;
                    }
                },
                None => {
                    break;
                },
            }
        }
        proof {
            lemma_prefix_is_boundary(self.input@, start_index as int);
            lemma_prefix_is_boundary(self.input@, self.char_index as int);
        }
        let slice = self.slice_from(start_pos)?;
        proof {
            let cs = self.input@;
            let a = start_index as int;
            let b = self.char_index as int;
            lemma_prefix_bytes(cs, a);
            lemma_prefix_bytes(cs, b);
            crate::slicing::lemma_encode_concat(cs.subrange(0, a), cs.subrange(a, b));
            assert(cs.subrange(0, a) + cs.subrange(a, b) =~= cs.subrange(0, b));
            let bytes = encode_utf8(cs);
            let la = utf8_len(cs.subrange(0, a)) as int;
            let lb = utf8_len(cs.subrange(0, b)) as int;
            lemma_utf8_len_prefix(cs, b, cs.len() as int);
            lemma_utf8_len_prefix(cs, a, b);
            assert(cs.subrange(0, cs.len() as int) =~= cs);
            assert(bytes.subrange(la, lb) =~= bytes.subrange(0, lb).subrange(la, lb));
            assert(encode_utf8(cs.subrange(0, b)).subrange(la, lb) =~= encode_utf8(cs.subrange(a, b)));
            assert(slice.spec_bytes() =~= encode_utf8(cs.subrange(a, b)));
            lemma_encode_injective(slice@, cs.subrange(a, b));
        }
        Ok(ZeroString::borrowed(slice))
    }

    /// Skip spaces and tabs.
    #[verifier::loop_isolation(false)]
    pub fn skip_whitespace(&mut self)
        requires
            old(self).wf(),
        ensures
            final(self).wf(),
            final(self).spec_input() == old(self).spec_input(),
            final(self).spec_char_index() == crate::scanner::optimizations::blanks_end(
                old(self).spec_input(),
                old(self).spec_char_index() as int,
            ),
    {
        loop
            invariant
                self.wf(),
                self.input@ == old(self).input@,
                old(self).char_index <= self.char_index,
                crate::scanner::optimizations::blanks_end(self.input@, old(self).char_index as int)
                    == crate::scanner::optimizations::blanks_end(self.input@, self.char_index as int),
            decreases self.input@.len() - self.char_index,
        {
            match self.current_char() {
                Some(ch) => {
                    if ch == ' ' || ch == '\t' {
                        self.advance();
                    } else {
                        break;
                    }
                },
                None => {
                    break;
                },
            }
        }
    }
}

/// Whether a plain scalar stops at character `i`: a line break; `:`
/// before white space or the end; `#` at the start or after white space;
/// a flow indicator.
pub open spec fn plain_stops(cs: Seq<char>, i: int) -> bool {
    let ch = cs[i];
    ||| ch == '\n' || ch == '\r'
    ||| ch == ':' && (i + 1 >= cs.len() || is_white_space(cs[i + 1]))
    ||| ch == '#' && (i == 0 || is_white_space(cs[i - 1]))
    ||| ch == ',' || ch == '[' || ch == ']' || ch == '{' || ch == '}'
}

/// Where a plain scalar starting at character `i` stops.
pub open spec fn plain_end(cs: Seq<char>, i: int) -> int
    decreases cs.len() - i,
{
    if 0 <= i < cs.len() && !plain_stops(cs, i) {
        plain_end(cs, i + 1)
    } else {
        i
    }
}

/// Where an identifier starting at character `i` stops.
pub open spec fn identifier_end(cs: Seq<char>, i: int) -> int
    decreases cs.len() - i,
{
    if 0 <= i < cs.len() && (unicode_alphanumeric(cs[i]) || cs[i] == '_' || cs[i] == '-') {
        identifier_end(cs, i + 1)
    } else {
        i
    }
}

/// Trimming never lengthens, and the result is a prefix.
proof fn lemma_trim_shorter(s: Seq<char>)
    ensures
        trim_white_end(s).len() <= s.len(),
        trim_white_end(s) == s.subrange(0, trim_white_end(s).len() as int),
    decreases s.len(),
{
    if s.len() > 0 && is_white_space(s.last()) {
        lemma_trim_shorter(s.drop_last());
        assert(s.drop_last().subrange(0, trim_white_end(s).len() as int) =~= s.subrange(
            0,
            trim_white_end(s).len() as int,
        ));
    } else {
        assert(s.subrange(0, s.len() as int) =~= s);
    }
}

/// A proper prefix has fewer bytes.
proof fn lemma_shorter_fewer_bytes(s: Seq<char>, k: int)
    requires
        0 <= k < s.len(),
    ensures
        utf8_len(s.subrange(0, k)) < utf8_len(s),
{
    lemma_utf8_len_prefix(s, k, k + 1);
    assert(s.subrange(0, k + 1) =~= s.subrange(0, k).push(s[k]));
    lemma_utf8_len_push(s.subrange(0, k), s[k]);
    lemma_utf8_len_prefix(s, k + 1, s.len() as int);
    assert(s.subrange(0, s.len() as int) =~= s);
}

} // verus!

verus! {

/// Every character of a plain scalar starting at `i` keeps it going: no
/// line break or flow indicator stands in it, each `:` in it is followed
/// by a character that is not white space, and each `#` in it follows one
/// that is not. It ends at the end of the text or at a character that
/// ends it: a line break, a flow indicator, a `:` followed by white space
/// or the end, or a `#` at the start or after white space.
pub proof fn law_plain_scalar_extent(cs: Seq<char>, i: int)
    requires
        0 <= i <= cs.len(),
    ensures
        i <= plain_end(cs, i) <= cs.len(),
        forall|j: int|
            i <= j < plain_end(cs, i) ==> {
                let c = #[trigger] cs[j];
                &&& c != '\n' && c != '\r'
                &&& c != ',' && c != '[' && c != ']' && c != '{' && c != '}'
                &&& c == ':' ==> j + 1 < cs.len() && !is_white_space(cs[j + 1])
                &&& c == '#' ==> j > 0 && !is_white_space(cs[j - 1])
            },
        plain_end(cs, i) < cs.len() ==> {
            let e = plain_end(cs, i);
            let c = cs[e];
            ||| c == '\n' || c == '\r'
            ||| c == ',' || c == '[' || c == ']' || c == '{' || c == '}'
            ||| c == ':' && (e + 1 == cs.len() || is_white_space(cs[e + 1]))
            ||| c == '#' && (e == 0 || is_white_space(cs[e - 1]))
        },
    decreases cs.len() - i,
{
    if i < cs.len() && !plain_stops(cs, i) {
        law_plain_scalar_extent(cs, i + 1);
    }
}

} // verus!
