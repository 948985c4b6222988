//! YAML token definitions.

use crate::position::Position;
use crate::text::{push_str, u8_to_decimal};
use vstd::prelude::*;

verus! {

/// Quote style for string scalars.
#[derive(Debug, Clone, Copy, PartialEq, Eq, Structural)]
pub enum QuoteStyle {
    /// No quotes (plain scalar).
    Plain,
    /// Single quotes ('string').
    Single,
    /// Double quotes ("string").
    Double,
}

/// A YAML token with the positions where it starts and ends.
#[derive(Debug, Clone, PartialEq, Eq)]
pub struct Token {
    /// The type of token.
    pub token_type: TokenType,
    /// Start position of the token.
    pub start_position: Position,
    /// End position of the token.
    pub end_position: Position,
}

/// Types of YAML tokens.
#[derive(Debug, Clone, PartialEq, Eq)]
pub enum TokenType {
    /// Start of stream.
    StreamStart,
    /// End of stream.
    StreamEnd,
    /// Document start marker (---).
    DocumentStart,
    /// Document end marker (...).
    DocumentEnd,
    /// YAML version directive (%YAML major.minor).
    YamlDirective(u8, u8),
    /// Tag directive (%TAG handle prefix).
    TagDirective(String, String),
    /// Block sequence start.
    BlockSequenceStart,
    /// Block mapping start.
    BlockMappingStart,
    /// Block end.
    BlockEnd,
    /// Flow sequence start ([).
    FlowSequenceStart,
    /// Flow sequence end (]).
    FlowSequenceEnd,
    /// Flow mapping start ({).
    FlowMappingStart,
    /// Flow mapping end (}).
    FlowMappingEnd,
    /// Block entry (-).
    BlockEntry,
    /// Flow entry (,).
    FlowEntry,
    /// Key indicator (? in complex keys).
    Key,
    /// Value indicator (:).
    Value,
    /// Scalar value with quote style.
    Scalar(String, QuoteStyle),
    /// Literal block scalar (|).
    BlockScalarLiteral(String),
    /// Folded block scalar (>).
    BlockScalarFolded(String),
    /// Alias (*name).
    Alias(String),
    /// Anchor (&name).
    Anchor(String),
    /// Tag (!tag or !!tag).
    Tag(String),
    /// Comment (# text).
    Comment(String),
}

impl QuoteStyle {
    /// The variant's name, as `{:?}` spells it.
    pub open spec fn spec_name(self) -> Seq<char> {
        match self {
            QuoteStyle::Plain => "Plain"@,
            QuoteStyle::Single => "Single"@,
            QuoteStyle::Double => "Double"@,
        }
    }

    /// The variant's name ("Plain", "Single" or "Double").
    pub fn name(&self) -> (s: &'static str)
        ensures
            s@ == self.spec_name(),
    {
        match self {
            QuoteStyle::Plain => "Plain",
            QuoteStyle::Single => "Single",
            QuoteStyle::Double => "Double",
        }
    }
}

impl TokenType {
    /// Whether this is one of the three scalar token kinds.
    pub open spec fn spec_is_scalar(&self) -> bool {
        self is Scalar || self is BlockScalarLiteral || self is BlockScalarFolded
    }

    /// The scalar text and style of a scalar token; block scalars count as
    /// plain.
    pub open spec fn spec_scalar_with_style(&self) -> Option<(Seq<char>, QuoteStyle)> {
        match self {
            TokenType::Scalar(s, style) => Some((s@, *style)),
            TokenType::BlockScalarLiteral(s) => Some((s@, QuoteStyle::Plain)),
            TokenType::BlockScalarFolded(s) => Some((s@, QuoteStyle::Plain)),
            _ => None,
        }
    }
}

impl Token {
    /// Create a new token.
    pub fn new(token_type: TokenType, start_position: Position, end_position: Position) -> (t: Token)
        ensures
            t == (Token { token_type, start_position, end_position }),
    {
        Token { token_type, start_position, end_position }
    }

    /// Create a token that starts and ends at one position.
    pub fn simple(token_type: TokenType, position: Position) -> (t: Token)
        ensures
            t == (Token { token_type, start_position: position, end_position: position }),
    {
        Token::new(token_type, position, position)
    }

    /// The token type.
    pub fn token_type(&self) -> (t: &TokenType)
        ensures
            *t == self.token_type,
    {
        &self.token_type
    }

    /// The start position.
    pub fn start_position(&self) -> (p: Position)
        ensures
            p == self.start_position,
    {
        self.start_position
    }

    /// The end position.
    pub fn end_position(&self) -> (p: Position)
        ensures
            p == self.end_position,
    {
        self.end_position
    }

    /// Whether this is a scalar token (plain, quoted, literal or folded).
    pub fn is_scalar(&self) -> (b: bool)
        ensures
            b == self.token_type.spec_is_scalar(),
    {
        match &self.token_type {
            TokenType::Scalar(_, _) | TokenType::BlockScalarLiteral(_)
            | TokenType::BlockScalarFolded(_) => true,
            _ => false,
        }
    }

    /// The scalar text, if this is a scalar token.
    pub fn as_scalar(&self) -> (r: Option<&str>)
        ensures
            r is Some <==> self.token_type.spec_is_scalar(),
            r is Some ==> r->0@ == self.token_type.spec_scalar_with_style().unwrap().0,
    {
        match &self.token_type {
            TokenType::Scalar(s, _) => Some(s.as_str()),
            TokenType::BlockScalarLiteral(s) => Some(s.as_str()),
            TokenType::BlockScalarFolded(s) => Some(s.as_str()),
            _ => None,
        }
    }

    /// The scalar text and quote style, if this is a scalar token; block
    /// scalars count as plain.
    pub fn as_scalar_with_style(&self) -> (r: Option<(&str, QuoteStyle)>)
        ensures
            r is Some <==> self.token_type.spec_scalar_with_style() is Some,
            r is Some ==> ({ let (a, b) = r->0; (a@, b) }) == self.token_type.spec_scalar_with_style().unwrap(),
    {
        match &self.token_type {
            TokenType::Scalar(s, style) => Some((s.as_str(), *style)),
            TokenType::BlockScalarLiteral(s) => Some((s.as_str(), QuoteStyle::Plain)),
            TokenType::BlockScalarFolded(s) => Some((s.as_str(), QuoteStyle::Plain)),
            _ => None,
        }
    }

    /// Whether this starts a flow collection (`[` or `{`).
    pub fn is_flow_collection_start(&self) -> (b: bool)
        ensures
            b == (self.token_type is FlowSequenceStart || self.token_type is FlowMappingStart),
    {
        match &self.token_type {
            TokenType::FlowSequenceStart | TokenType::FlowMappingStart => true,
            _ => false,
        }
    }

    /// Whether this ends a flow collection (`]` or `}`).
    pub fn is_flow_collection_end(&self) -> (b: bool)
        ensures
            b == (self.token_type is FlowSequenceEnd || self.token_type is FlowMappingEnd),
    {
        match &self.token_type {
            TokenType::FlowSequenceEnd | TokenType::FlowMappingEnd => true,
            _ => false,
        }
    }

    /// Whether this starts a block collection.
    pub fn is_block_collection_start(&self) -> (b: bool)
        ensures
            b == (self.token_type is BlockSequenceStart || self.token_type is BlockMappingStart),
    {
        match &self.token_type {
            TokenType::BlockSequenceStart | TokenType::BlockMappingStart => true,
            _ => false,
        }
    }

    /// Whether this is a document marker (`---` or `...`).
    pub fn is_document_boundary(&self) -> (b: bool)
        ensures
            b == (self.token_type is DocumentStart || self.token_type is DocumentEnd),
    {
        match &self.token_type {
            TokenType::DocumentStart | TokenType::DocumentEnd => true,
            _ => false,
        }
    }

    /// The token as the scanner's trace prints it, e.g.
    /// `SCALAR(hello, Plain)` or `FLOW-SEQUENCE-START`.
    pub fn to_string(&self) -> (s: String)
        ensures
            s@ == spec_token_display(self.token_type),
    {
        let mut out = String::new();
        match &self.token_type {
            TokenType::StreamStart => push_str(&mut out, "STREAM-START"),
            TokenType::StreamEnd => push_str(&mut out, "STREAM-END"),
            TokenType::DocumentStart => push_str(&mut out, "DOCUMENT-START"),
            TokenType::DocumentEnd => push_str(&mut out, "DOCUMENT-END"),
            TokenType::BlockSequenceStart => push_str(&mut out, "BLOCK-SEQUENCE-START"),
            TokenType::BlockMappingStart => push_str(&mut out, "BLOCK-MAPPING-START"),
            TokenType::BlockEnd => push_str(&mut out, "BLOCK-END"),
            TokenType::FlowSequenceStart => push_str(&mut out, "FLOW-SEQUENCE-START"),
            TokenType::FlowSequenceEnd => push_str(&mut out, "FLOW-SEQUENCE-END"),
            TokenType::FlowMappingStart => push_str(&mut out, "FLOW-MAPPING-START"),
            TokenType::FlowMappingEnd => push_str(&mut out, "FLOW-MAPPING-END"),
            TokenType::BlockEntry => push_str(&mut out, "BLOCK-ENTRY"),
            TokenType::FlowEntry => push_str(&mut out, "FLOW-ENTRY"),
            TokenType::Key => push_str(&mut out, "KEY"),
            TokenType::Value => push_str(&mut out, "VALUE"),
            TokenType::Scalar(s, style) => {
                push_str(&mut out, "SCALAR(");
                push_str(&mut out, s.as_str());
                push_str(&mut out, ", ");
                push_str(&mut out, style.name());
                push_str(&mut out, ")");
            },
            TokenType::BlockScalarLiteral(s) => wrap(&mut out, "LITERAL(", s.as_str()),
            TokenType::BlockScalarFolded(s) => wrap(&mut out, "FOLDED(", s.as_str()),
            TokenType::Alias(s) => wrap(&mut out, "ALIAS(", s.as_str()),
            TokenType::Anchor(s) => wrap(&mut out, "ANCHOR(", s.as_str()),
            TokenType::Tag(s) => wrap(&mut out, "TAG(", s.as_str()),
            TokenType::Comment(s) => wrap(&mut out, "COMMENT(", s.as_str()),
            TokenType::YamlDirective(major, minor) => {
                push_str(&mut out, "YAML-DIRECTIVE(");
                let a = u8_to_decimal(*major);
                push_str(&mut out, a.as_str());
                push_str(&mut out, ".");
                let b = u8_to_decimal(*minor);
                push_str(&mut out, b.as_str());
                push_str(&mut out, ")");
            },
            TokenType::TagDirective(h, p) => {
                push_str(&mut out, "TAG-DIRECTIVE(");
                push_str(&mut out, h.as_str());
                push_str(&mut out, ", ");
                push_str(&mut out, p.as_str());
                push_str(&mut out, ")");
            },
        }
        out
    }
}

/// Append `head`, then `body`, then a closing parenthesis.
fn wrap(out: &mut String, head: &str, body: &str)
    ensures
        final(out)@ == old(out)@ + head@ + body@ + ")"@,
{
    push_str(out, head);
    push_str(out, body);
    push_str(out, ")");
}

/// How a token prints in the scanner's trace.
pub open spec fn spec_token_display(t: TokenType) -> Seq<char> {
    match t {
        TokenType::StreamStart => "STREAM-START"@,
        TokenType::StreamEnd => "STREAM-END"@,
        TokenType::DocumentStart => "DOCUMENT-START"@,
        TokenType::DocumentEnd => "DOCUMENT-END"@,
        TokenType::BlockSequenceStart => "BLOCK-SEQUENCE-START"@,
        TokenType::BlockMappingStart => "BLOCK-MAPPING-START"@,
        TokenType::BlockEnd => "BLOCK-END"@,
        TokenType::FlowSequenceStart => "FLOW-SEQUENCE-START"@,
        TokenType::FlowSequenceEnd => "FLOW-SEQUENCE-END"@,
        TokenType::FlowMappingStart => "FLOW-MAPPING-START"@,
        TokenType::FlowMappingEnd => "FLOW-MAPPING-END"@,
        TokenType::BlockEntry => "BLOCK-ENTRY"@,
        TokenType::FlowEntry => "FLOW-ENTRY"@,
        TokenType::Key => "KEY"@,
        TokenType::Value => "VALUE"@,
        TokenType::Scalar(s, style) => "SCALAR("@ + s@ + ", "@ + style.spec_name() + ")"@,
        TokenType::BlockScalarLiteral(s) => "LITERAL("@ + s@ + ")"@,
        TokenType::BlockScalarFolded(s) => "FOLDED("@ + s@ + ")"@,
        TokenType::Alias(s) => "ALIAS("@ + s@ + ")"@,
        TokenType::Anchor(s) => "ANCHOR("@ + s@ + ")"@,
        TokenType::Tag(s) => "TAG("@ + s@ + ")"@,
        TokenType::Comment(s) => "COMMENT("@ + s@ + ")"@,
        TokenType::YamlDirective(major, minor) => "YAML-DIRECTIVE("@ + crate::text::spec_decimal(
            major as nat,
        ) + "."@ + crate::text::spec_decimal(minor as nat) + ")"@,
        TokenType::TagDirective(h, p) => "TAG-DIRECTIVE("@ + h@ + ", "@ + p@ + ")"@,
    }
}

/// How a token type prints: its variant name, with its data in
/// parentheses.
pub open spec fn spec_token_type_display(t: TokenType) -> Seq<char> {
    match t {
        TokenType::StreamStart => "StreamStart"@,
        TokenType::StreamEnd => "StreamEnd"@,
        TokenType::DocumentStart => "DocumentStart"@,
        TokenType::DocumentEnd => "DocumentEnd"@,
        TokenType::BlockSequenceStart => "BlockSequenceStart"@,
        TokenType::BlockMappingStart => "BlockMappingStart"@,
        TokenType::BlockEnd => "BlockEnd"@,
        TokenType::FlowSequenceStart => "FlowSequenceStart"@,
        TokenType::FlowSequenceEnd => "FlowSequenceEnd"@,
        TokenType::FlowMappingStart => "FlowMappingStart"@,
        TokenType::FlowMappingEnd => "FlowMappingEnd"@,
        TokenType::BlockEntry => "BlockEntry"@,
        TokenType::FlowEntry => "FlowEntry"@,
        TokenType::Key => "Key"@,
        TokenType::Value => "Value"@,
        TokenType::Scalar(s, style) => "Scalar("@ + s@ + ", "@ + style.spec_name() + ")"@,
        TokenType::BlockScalarLiteral(s) => "BlockScalarLiteral("@ + s@ + ")"@,
        TokenType::BlockScalarFolded(s) => "BlockScalarFolded("@ + s@ + ")"@,
        TokenType::Alias(s) => "Alias("@ + s@ + ")"@,
        TokenType::Anchor(s) => "Anchor("@ + s@ + ")"@,
        TokenType::Tag(s) => "Tag("@ + s@ + ")"@,
        TokenType::Comment(s) => "Comment("@ + s@ + ")"@,
        TokenType::YamlDirective(major, minor) => "YamlDirective("@ + crate::text::spec_decimal(
            major as nat,
        ) + "."@ + crate::text::spec_decimal(minor as nat) + ")"@,
        TokenType::TagDirective(h, p) => "TagDirective("@ + h@ + ", "@ + p@ + ")"@,
    }
}

impl TokenType {
    /// The token type as text: its variant name, with its data in
    /// parentheses, e.g. `Scalar(test, Plain)`.
    pub fn to_string(&self) -> (s: String)
        ensures
            s@ == spec_token_type_display(*self),
    {
        let mut out = String::new();
        match self {
            TokenType::StreamStart => push_str(&mut out, "StreamStart"),
            TokenType::StreamEnd => push_str(&mut out, "StreamEnd"),
            TokenType::DocumentStart => push_str(&mut out, "DocumentStart"),
            TokenType::DocumentEnd => push_str(&mut out, "DocumentEnd"),
            TokenType::BlockSequenceStart => push_str(&mut out, "BlockSequenceStart"),
            TokenType::BlockMappingStart => push_str(&mut out, "BlockMappingStart"),
            TokenType::BlockEnd => push_str(&mut out, "BlockEnd"),
            TokenType::FlowSequenceStart => push_str(&mut out, "FlowSequenceStart"),
            TokenType::FlowSequenceEnd => push_str(&mut out, "FlowSequenceEnd"),
            TokenType::FlowMappingStart => push_str(&mut out, "FlowMappingStart"),
            TokenType::FlowMappingEnd => push_str(&mut out, "FlowMappingEnd"),
            TokenType::BlockEntry => push_str(&mut out, "BlockEntry"),
            TokenType::FlowEntry => push_str(&mut out, "FlowEntry"),
            TokenType::Key => push_str(&mut out, "Key"),
            TokenType::Value => push_str(&mut out, "Value"),
            TokenType::Scalar(s, style) => {
                push_str(&mut out, "Scalar(");
                push_str(&mut out, s.as_str());
                push_str(&mut out, ", ");
                push_str(&mut out, style.name());
                push_str(&mut out, ")");
            },
            TokenType::BlockScalarLiteral(s) => wrap(&mut out, "BlockScalarLiteral(", s.as_str()),
            TokenType::BlockScalarFolded(s) => wrap(&mut out, "BlockScalarFolded(", s.as_str()),
            TokenType::Alias(s) => wrap(&mut out, "Alias(", s.as_str()),
            TokenType::Anchor(s) => wrap(&mut out, "Anchor(", s.as_str()),
            TokenType::Tag(s) => wrap(&mut out, "Tag(", s.as_str()),
            TokenType::Comment(s) => wrap(&mut out, "Comment(", s.as_str()),
            TokenType::YamlDirective(major, minor) => {
                push_str(&mut out, "YamlDirective(");
                let a = u8_to_decimal(*major);
                push_str(&mut out, a.as_str());
                push_str(&mut out, ".");
                let b = u8_to_decimal(*minor);
                push_str(&mut out, b.as_str());
                push_str(&mut out, ")");
            },
            TokenType::TagDirective(h, p) => {
                push_str(&mut out, "TagDirective(");
                push_str(&mut out, h.as_str());
                push_str(&mut out, ", ");
                push_str(&mut out, p.as_str());
                push_str(&mut out, ")");
            },
        }
        out
    }
}

} // verus!
