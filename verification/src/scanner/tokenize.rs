//! The tokenizer's driver: picks the kind of the next token from the
//! character at hand and runs the scanner to the end of the stream.

use crate::error::{Error, Result};
use crate::position::Position;
use crate::scanner::scan::{Scanner, token_within, is_blank_or_end};
use crate::scanner::{Token, TokenType};
use crate::slicing::{utf8_len, lemma_utf8_len_prefix, str_byte_len};
use crate::text::str_to_chars;
use vstd::prelude::*;
use vstd::string::StringSliceAdditionalSpecFns;

verus! {

/// Only spaces, tabs and line breaks are left from `i` on.
pub open spec fn blank_rest(cs: Seq<char>, i: int) -> bool {
    forall|k: int| i <= k < cs.len() ==> (#[trigger] cs[k] == ' ' || cs[k] == '\t' || cs[k] == '\r' || cs[k] == '\n')
}

impl<'a> Scanner<'a> {
    /// No possible simple key at any flow level is a required one.
    pub open spec fn no_required_keys(&self) -> bool {
        forall|l: int|
            0 <= l < self.simple_keys@.len() ==> !(#[trigger] self.simple_keys@[l] matches Some(k) && k.required)
    }

    /// A scanner at the start of `chars`, with the stream start emitted.
    pub fn new(chars: &'a [char]) -> (s: Scanner<'a>)
        requires
            chars@.len() + 16 < usize::MAX,
            utf8_len(chars@) + 8 < usize::MAX,
        ensures
            s.wf(),
            s.chars == chars,
            s.i == 0,
            !s.done,
            s.no_required_keys(),
            s.indent == 0,
            s.tokens@.len() == 1,
            s.tokens@[0].token_type is StreamStart,
    {
        let start = Position::new();
        let mut tokens: Vec<Token> = Vec::new();
        tokens.push(Token::new(TokenType::StreamStart, start, start));
        let mut simple_keys: Vec<Option<crate::scanner::scan::SimpleKey>> = Vec::new();
        simple_keys.push(None);
        let s = Scanner {
            chars,
            i: 0,
            pos: start,
            tokens,
            flow_level: 0,
            indent: 0,
            indents: Vec::new(),
            allow_simple_key: true,
            simple_keys,
            done: false,
        };
        proof {
            assert(chars@.subrange(0, 0) =~= Seq::<char>::empty());
            assert(utf8_len(Seq::<char>::empty()) == 0) by {
                assert(vstd::utf8::encode_utf8(Seq::<char>::empty()) =~= Seq::<u8>::empty());
            }
        }
        s
    }

    /// Scan the next token (or several, when a block closes or a key is
    /// recognised late).
    pub fn fetch_next_token(&mut self) -> (r: Result<()>)
        requires
            old(self).wf(),
            !old(self).done,
        ensures
            Self::advanced(*old(self), *final(self)),
            r is Ok ==> final(self).done || final(self).i > old(self).i,
            r is Ok && final(self).done ==> final(self).tokens@.len() > 0
                && final(self).tokens@.last().token_type is StreamEnd,
            r is Ok && final(self).done ==> final(self).i == final(self).chars@.len()
                && final(self).tokens@.last().start_position == final(self).pos,
            blank_rest(old(self).chars@, old(self).i as int) && old(self).no_required_keys() ==> r is Ok
                && final(self).done,
            blank_rest(old(self).chars@, old(self).i as int) && old(self).no_required_keys() && old(self).indent
                == 0 ==> final(self).tokens@.len() == old(self).tokens@.len() + 1 && final(self).tokens@.drop_last()
                == old(self).tokens@,
    {
        self.scan_to_next_token();
        proof {
            if blank_rest(old(self).chars@, old(self).i as int) && old(self).no_required_keys() {
                if self.i < self.chars@.len() {
                    assert(self.chars@[self.i as int] == old(self).chars@[self.i as int]);
                }
                assert(self.i == self.chars@.len());
                assert forall|l: int| 0 <= l < self.simple_keys@.len() implies !(#[trigger] self.simple_keys@[l] matches Some(
                    k,
                ) && self.is_stale(k) && k.required) by {
                    assert(self.simple_keys@[l] == old(self).simple_keys@[l]);
                }
            }
        }
        let ghost before_stale = *self;
        self.stale_possible_simple_keys()?;
        proof {
            if blank_rest(old(self).chars@, old(self).i as int) && old(self).no_required_keys() {
                let l = self.flow_level as int;
                assert(self.simple_keys@[l] == before_stale.simple_keys@[l] || self.simple_keys@[l] is None);
                assert(before_stale.simple_keys@[l] == old(self).simple_keys@[l]);
            }
        }
        let col = self.pos.column;
        self.unroll_indent(col);
        if self.at_end() {
            return self.fetch_stream_end();
        }
        let ch = self.peek(0);
        let next = self.peek(1);
        if ch == '%' && self.column() == 0 {
            self.fetch_directive()
        } else if ch == '-' && self.check_document_indicator(true) {
            self.fetch_document_indicator(true)
        } else if ch == '.' && self.check_document_indicator(false) {
            self.fetch_document_indicator(false)
        } else if ch == '[' {
            self.fetch_flow_collection_start(true)
        } else if ch == '{' {
            self.fetch_flow_collection_start(false)
        } else if ch == ']' {
            self.fetch_flow_collection_end(true)
        } else if ch == '}' {
            self.fetch_flow_collection_end(false)
        } else if ch == ',' {
            self.fetch_flow_entry()
        } else if ch == '-' && is_blank_or_end(next) {
            self.fetch_block_entry()
        } else if ch == '?' && (self.flow_level > 0 || is_blank_or_end(next)) {
            self.fetch_key()
        } else if ch == ':' && (self.flow_level > 0 || is_blank_or_end(next)) {
            self.fetch_value()
        } else if ch == '*' {
            self.fetch_anchor_or_alias(true)
        } else if ch == '&' {
            self.fetch_anchor_or_alias(false)
        } else if ch == '!' {
            self.fetch_tag()
        } else if ch == '|' && self.flow_level == 0 {
            self.fetch_block_scalar(true)
        } else if ch == '>' && self.flow_level == 0 {
            self.fetch_block_scalar(false)
        } else if ch == '\'' {
            self.fetch_quoted(false)
        } else if ch == '"' {
            self.fetch_quoted(true)
        } else if self.check_plain() {
            self.fetch_plain()
        } else {
            Err(Error::parse(self.pos, "found a character that cannot start any token"))
        }
    }
}

/// Split YAML text into tokens, from the stream start to the stream end.
///
/// Every token's start and end positions are byte offsets into `input`,
/// and the last token is the stream end. Text that no token can start, an
/// unterminated quoted scalar or flow collection, and misplaced
/// indicators are errors.
pub fn scan_tokens(input: &str) -> (r: Result<Vec<Token>>)
    ensures
        blank_rest(input@, 0) && input@.len() + 16 < usize::MAX && input.spec_bytes().len() + 8 < usize::MAX
            ==> (r matches Ok(tokens) && tokens@.len() == 2 && tokens@[0].token_type is StreamStart),
        r matches Ok(tokens) ==> {
            &&& tokens@.len() > 0
            &&& tokens@.last().token_type is StreamEnd
            &&& forall|k: int| 0 <= k < tokens@.len() ==> token_within(#[trigger] tokens@[k], input.spec_bytes().len() as usize)
            &&& tokens@.last().start_position.index == input.spec_bytes().len()
        },
{
    let n = str_byte_len(input);
    let chars = str_to_chars(input);
    if chars.len() >= usize::MAX - 16 || n >= usize::MAX - 8 {
        return Err(Error::parse(Position::new(), "input is too large"));
    }
    let mut scanner = Scanner::new(chars.as_slice());
    while !scanner.done
        invariant
            blank_rest(input@, 0) ==> scanner.done || (scanner.i == 0 && scanner.no_required_keys()
                && scanner.indent == 0 && scanner.tokens@.len() == 1),
            blank_rest(input@, 0) && scanner.done ==> scanner.tokens@.len() == 2,
            blank_rest(input@, 0) ==> scanner.tokens@.len() >= 1 && scanner.tokens@[0].token_type is StreamStart,
            scanner.wf(),
            scanner.chars@ == input@,
            n == input.spec_bytes().len(),
            scanner.done ==> scanner.tokens@.len() > 0 && scanner.tokens@.last().token_type is StreamEnd,
            scanner.done ==> scanner.i == scanner.chars@.len() && scanner.tokens@.last().start_position
                == scanner.pos,
        decreases scanner.chars@.len() - scanner.i + (if scanner.done {
            0int
        } else {
            1int
        }),
    {
        scanner.fetch_next_token()?;
    }
    proof {
        let cs = scanner.chars@;
        lemma_utf8_len_prefix(cs, scanner.i as int, cs.len() as int);
        assert(cs.subrange(0, cs.len() as int) =~= cs);
        assert forall|k: int| 0 <= k < scanner.tokens@.len() implies token_within(#[trigger] scanner.tokens@[k], n) by {
            assert(token_within(scanner.tokens@[k], scanner.pos.index));
        }
    }
    Ok(scanner.tokens)
}

} // verus!
