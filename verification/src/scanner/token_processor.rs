//! Token construction helpers, character classes and small pattern
//! checks used while scanning.

use crate::position::Position;
use crate::scanner::{QuoteStyle, Token, TokenType};
use crate::text::str_to_chars;
use vstd::prelude::*;

verus! {

/// Token construction helpers.
pub struct TokenProcessor;

impl TokenProcessor {
    /// A token without data at `position`.
    pub fn simple_token(token_type: TokenType, position: Position) -> (t: Token)
        ensures
            t == (Token { token_type, start_position: position, end_position: position }),
    {
        Token::simple(token_type, position)
    }

    /// A scalar token at `position`.
    pub fn scalar_token(value: String, quote_style: QuoteStyle, position: Position) -> (t: Token)
        ensures
            t == (Token {
                token_type: TokenType::Scalar(value, quote_style),
                start_position: position,
                end_position: position,
            }),
    {
        Token::new(TokenType::Scalar(value, quote_style), position, position)
    }

    /// An anchor token at `position`.
    pub fn anchor_token(name: String, position: Position) -> (t: Token)
        ensures
            t == (Token { token_type: TokenType::Anchor(name), start_position: position, end_position: position }),
    {
        Token::new(TokenType::Anchor(name), position, position)
    }

    /// An alias token at `position`.
    pub fn alias_token(name: String, position: Position) -> (t: Token)
        ensures
            t == (Token { token_type: TokenType::Alias(name), start_position: position, end_position: position }),
    {
        Token::new(TokenType::Alias(name), position, position)
    }

    /// A tag token at `position`.
    pub fn tag_token(tag: String, position: Position) -> (t: Token)
        ensures
            t == (Token { token_type: TokenType::Tag(tag), start_position: position, end_position: position }),
    {
        Token::new(TokenType::Tag(tag), position, position)
    }

    /// A comment token at `position`.
    pub fn comment_token(comment: String, position: Position) -> (t: Token)
        ensures
            t == (Token {
                token_type: TokenType::Comment(comment),
                start_position: position,
                end_position: position,
            }),
    {
        Token::new(TokenType::Comment(comment), position, position)
    }

    /// A literal block scalar token at `position`.
    pub fn literal_block_token(value: String, position: Position) -> (t: Token)
        ensures
            t == (Token {
                token_type: TokenType::BlockScalarLiteral(value),
                start_position: position,
                end_position: position,
            }),
    {
        Token::new(TokenType::BlockScalarLiteral(value), position, position)
    }

    /// A folded block scalar token at `position`.
    pub fn folded_block_token(value: String, position: Position) -> (t: Token)
        ensures
            t == (Token {
                token_type: TokenType::BlockScalarFolded(value),
                start_position: position,
                end_position: position,
            }),
    {
        Token::new(TokenType::BlockScalarFolded(value), position, position)
    }
}

/// An ASCII letter.
pub open spec fn is_ascii_letter(c: char) -> bool {
    ('a' <= c && c <= 'z') || ('A' <= c && c <= 'Z')
}

/// An ASCII decimal digit.
pub open spec fn is_ascii_digit_char(c: char) -> bool {
    '0' <= c && c <= '9'
}

/// A space or a tab.
pub open spec fn is_blank_char(c: char) -> bool {
    c == ' ' || c == '\t'
}

/// A line feed or a carriage return.
pub open spec fn is_break_char(c: char) -> bool {
    c == '\n' || c == '\r'
}

/// Character classification helpers.
pub struct CharClassifier;

impl CharClassifier {
    /// A flow indicator: `[`, `]`, `{`, `}`, `,` or `:`.
    pub fn is_flow_indicator(ch: char) -> (b: bool)
        ensures
            b == (ch == '[' || ch == ']' || ch == '{' || ch == '}' || ch == ',' || ch == ':'),
    {
        ch == '[' || ch == ']' || ch == '{' || ch == '}' || ch == ',' || ch == ':'
    }

    /// A character that can start an identifier: an ASCII letter or `_`.
    pub fn is_identifier_start(ch: char) -> (b: bool)
        ensures
            b == (is_ascii_letter(ch) || ch == '_'),
    {
        ('a' <= ch && ch <= 'z') || ('A' <= ch && ch <= 'Z') || ch == '_'
    }

    /// A character that can be in an identifier: an ASCII letter or
    /// digit, `-` or `_`.
    pub fn is_identifier_char(ch: char) -> (b: bool)
        ensures
            b == (is_ascii_letter(ch) || is_ascii_digit_char(ch) || ch == '-' || ch == '_'),
    {
        ('a' <= ch && ch <= 'z') || ('A' <= ch && ch <= 'Z') || ('0' <= ch && ch <= '9') || ch == '-'
            || ch == '_'
    }

    /// A document indicator character: `-` or `.`.
    pub fn is_document_indicator(ch: char) -> (b: bool)
        ensures
            b == (ch == '-' || ch == '.'),
    {
        ch == '-' || ch == '.'
    }

    /// YAML whitespace: a space or a tab.
    pub fn is_yaml_whitespace(ch: char) -> (b: bool)
        ensures
            b == is_blank_char(ch),
    {
        ch == ' ' || ch == '\t'
    }

    /// A line break: a line feed or a carriage return.
    pub fn is_line_break(ch: char) -> (b: bool)
        ensures
            b == is_break_char(ch),
    {
        ch == '\n' || ch == '\r'
    }

    /// Printable ASCII (space to `~`), or a tab.
    pub fn is_printable_ascii(ch: char) -> (b: bool)
        ensures
            b == ((' ' <= ch && ch <= '~') || ch == '\t'),
    {
        (' ' <= ch && ch <= '~') || ch == '\t'
    }

    /// An ASCII decimal digit.
    pub fn is_digit(ch: char) -> (b: bool)
        ensures
            b == is_ascii_digit_char(ch),
    {
        '0' <= ch && ch <= '9'
    }

    /// An ASCII hexadecimal digit.
    pub fn is_hex_digit(ch: char) -> (b: bool)
        ensures
            b == (is_ascii_digit_char(ch) || ('a' <= ch && ch <= 'f') || ('A' <= ch && ch <= 'F')),
    {
        ('0' <= ch && ch <= '9') || ('a' <= ch && ch <= 'f') || ('A' <= ch && ch <= 'F')
    }

    /// An octal digit.
    pub fn is_octal_digit(ch: char) -> (b: bool)
        ensures
            b == ('0' <= ch && ch <= '7'),
    {
        '0' <= ch && ch <= '7'
    }
}

/// Three `m` characters at character index `pos`, followed by a blank, a
/// line break or the end.
pub open spec fn marker_at(cs: Seq<char>, pos: int, m: char) -> bool {
    &&& 0 <= pos
    &&& pos + 2 < cs.len()
    &&& cs[pos] == m
    &&& cs[pos + 1] == m
    &&& cs[pos + 2] == m
    &&& (pos + 3 >= cs.len() || is_blank_char(cs[pos + 3]) || is_break_char(cs[pos + 3]))
}

/// Whether `cs[pos..]` starts with a document marker made of `m`.
fn check_marker(cs: &Vec<char>, pos: usize, m: char) -> (b: bool)
    ensures
        b == marker_at(cs@, pos as int, m),
{
    let n = cs.len();
    if pos >= n || n - pos < 3 {
        return false;
    }
    cs[pos] == m && cs[pos + 1] == m && cs[pos + 2] == m && (n - pos == 3 || cs[pos + 3] == ' '
        || cs[pos + 3] == '\t' || cs[pos + 3] == '\n' || cs[pos + 3] == '\r')
}

/// Pattern matching helpers.
pub struct PatternMatcher;

impl PatternMatcher {
    /// Whether a document start marker (`---`) begins at character index
    /// `pos`.
    pub fn is_document_start(input: &str, pos: usize) -> (b: bool)
        ensures
            b == marker_at(input@, pos as int, '-'),
    {
        let chars = str_to_chars(input);
        check_marker(&chars, pos, '-')
    }

    /// Whether a document end marker (`...`) begins at character index
    /// `pos`.
    pub fn is_document_end(input: &str, pos: usize) -> (b: bool)
        ensures
            b == marker_at(input@, pos as int, '.'),
    {
        let chars = str_to_chars(input);
        check_marker(&chars, pos, '.')
    }

    /// Whether a tag starts with this character.
    pub fn is_tag_start(ch: char) -> (b: bool)
        ensures
            b == (ch == '!'),
    {
        ch == '!'
    }

    /// Whether an anchor starts with this character.
    pub fn is_anchor_start(ch: char) -> (b: bool)
        ensures
            b == (ch == '&'),
    {
        ch == '&'
    }

    /// Whether an alias starts with this character.
    pub fn is_alias_start(ch: char) -> (b: bool)
        ensures
            b == (ch == '*'),
    {
        ch == '*'
    }

    /// Whether a comment starts with this character.
    pub fn is_comment_start(ch: char) -> (b: bool)
        ensures
            b == (ch == '#'),
    {
        ch == '#'
    }
}

} // verus!
